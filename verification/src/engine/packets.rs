//! What holds of queries on the wire.

use vstd::prelude::*;

use crate::engine::ingress;
use crate::engine::ingress::IngressView;
use crate::engine::wire;
use crate::engine::wire::QueryView;
use crate::message;

verus! {

/// Whether a byte is that of a letter or of a digit.
pub open spec fn is_word_byte(c: u8) -> bool {
    0x30 <= c <= 0x39 || 0x41 <= c <= 0x5a || 0x61 <= c <= 0x7a
}

/// Whether these can be the labels of a name.
pub open spec fn are_labels(labels: Seq<Seq<u8>>) -> bool {
    forall|i: int|
        0 <= i < labels.len() ==> 1 <= (#[trigger] labels[i]).len() <= 63 && forall|j: int|
            0 <= j < labels[i].len() ==> is_word_byte(#[trigger] labels[i][j])
}

/// A name on the wire: each label behind its length, and a zero.
pub open spec fn wire_name(labels: Seq<Seq<u8>>) -> Seq<u8>
    decreases labels.len(),
{
    if labels.len() == 0 {
        seq![0u8]
    } else {
        seq![labels[0].len() as u8] + labels[0] + wire_name(labels.drop_first())
    }
}

/// A name in text: each label before a dot.
pub open spec fn shown_name(labels: Seq<Seq<u8>>) -> Seq<char>
    decreases labels.len(),
{
    if labels.len() == 0 {
        Seq::empty()
    } else {
        labels[0].map_values(|b: u8| b as char).push('.') + shown_name(labels.drop_first())
    }
}

/// The name that stands at a place of a message.
proof fn lemma_name(s: Seq<u8>, pos: int, labels: Seq<Seq<u8>>)
    requires
        are_labels(labels),
        0 <= pos,
        pos + wire_name(labels).len() <= s.len(),
        forall|i: int| 0 <= i < wire_name(labels).len() ==> s[pos + i] == #[trigger] wire_name(
            labels,
        )[i],
    ensures
        wire::labels_text(s, pos) == Some((shown_name(labels), pos + wire_name(labels).len())),
    decreases labels.len(),
{
    let w = wire_name(labels);
    assert(s[pos + 0] == w[0]);
    if labels.len() > 0 {
        let first = labels[0];
        let rest = labels.drop_first();
        let more = wire_name(rest);
        let n = first.len() as int;
        assert(w.len() == 1 + n + more.len());
        assert(s[pos] == n);
        assert(are_labels(rest)) by {
            assert forall|i: int| 0 <= i < rest.len() implies 1 <= (#[trigger] rest[i]).len() <= 63
                && forall|j: int| 0 <= j < rest[i].len() ==> is_word_byte(#[trigger] rest[i][j]) by {
                assert(rest[i] == labels[i + 1]);
            }
        }
        assert forall|i: int| 0 <= i < more.len() implies s[pos + 1 + n + i] == #[trigger] more[i] by {
            assert(w[1 + n + i] == more[i]);
            assert(s[pos + (1 + n + i)] == w[1 + n + i]);
        }
        lemma_name(s, pos + 1 + n, rest);
        assert forall|j: int| 0 <= j < n implies #[trigger] s[pos + 1 + j] == first[j] by {
            assert(w[1 + j] == first[j]);
            assert(s[pos + (1 + j)] == w[1 + j]);
        }
        assert(wire::plain_label(s, pos + 1, n)) by {
            assert forall|j: int| 0 <= j < n implies wire::plain_name_byte(
                #[trigger] s[pos + 1 + j],
                j == 0,
            ) by {
                assert(is_word_byte(labels[0][j]));
            }
        }
        let label = Seq::new(s[pos] as nat, |j: int| s[pos + 1 + j] as char);
        assert(label =~= first.map_values(|b: u8| b as char));
    }
}

/// A query with one question: the header with the id, the two bytes of flags and the
/// counts; the name; its type and class; and what follows.
pub open spec fn packet(
    id: Seq<u8>,
    flags: Seq<u8>,
    extra: u8,
    labels: Seq<Seq<u8>>,
    ask: Seq<u8>,
    rest: Seq<u8>,
) -> Seq<u8> {
    id + flags + seq![0u8, 1, 0, 0, 0, 0, 0, extra] + wire_name(labels) + ask + rest
}

proof fn lemma_packet(
    s: Seq<u8>,
    id: Seq<u8>,
    flags: Seq<u8>,
    extra: u8,
    labels: Seq<Seq<u8>>,
    ask: Seq<u8>,
    rest: Seq<u8>,
)
    requires
        id.len() == 2 && flags.len() == 2 && ask.len() == 4,
        are_labels(labels),
        s == packet(id, flags, extra, labels, ask, rest),
    ensures
        ({
            let e = 12 + wire_name(labels).len() as int;
            &&& s.len() == e + 4 + rest.len()
            &&& s[0] == id[0] && s[1] == id[1] && s[2] == flags[0] && s[3] == flags[1]
            &&& wire::be16(s, 4) == 1 && wire::be16(s, 6) == 0 && wire::be16(s, 8) == 0
            &&& wire::be16(s, 10) == extra
            &&& wire::labels_text(s, 12) == Some((shown_name(labels), e))
            &&& s[e] == ask[0] && s[e + 1] == ask[1] && s[e + 2] == ask[2] && s[e + 3]
                == ask[3]
            &&& forall|i: int| 0 <= i < rest.len() ==> s[e + 4 + i] == #[trigger] rest[i]
        }),
{
    let w = wire_name(labels);
    assert forall|i: int| 0 <= i < w.len() implies s[12 + i] == #[trigger] w[i] by {
    }
    lemma_name(s, 12, labels);
}

/// What a query in bytes asks: its id, whether it wants recursion and no checking, its
/// name with the labels in the order and the case they came in, its type and its class;
/// and without EDNS no payload is advertised and no DNSSEC record is wanted.
pub proof fn law_plain_query(
    id: Seq<u8>,
    flags: Seq<u8>,
    labels: Seq<Seq<u8>>,
    ask: Seq<u8>,
)
    requires
        id.len() == 2 && flags.len() == 2 && ask.len() == 4,
        are_labels(labels),
        0 < labels.len(),
        wire_name(labels).len() <= 255,
    ensures
        ({
            let s = packet(id, flags, 0, labels, ask, Seq::empty());
            &&& wire::query_of(s) matches Some(q) && q == (QueryView {
                id: id[0] * 256 + id[1],
                recursion_desired: flags[0] % 2 == 1,
                checking_disabled: flags[1] / 16 % 2 == 1,
                opcode: flags[0] as int / 8 % 16,
                qname: shown_name(labels),
                qtype: ask[0] * 256 + ask[1],
                qclass: ask[2] * 256 + ask[3],
                edns_payload: None,
                dnssec_ok: false,
            })
        }),
{
    let s = packet(id, flags, 0, labels, ask, Seq::empty());
    lemma_packet(s, id, flags, 0, labels, ask, Seq::empty());
    let e = 12 + wire_name(labels).len() as int;
    assert(shown_name(labels).len() > 0);
    assert(wire::question_name(s, 12) == Some((shown_name(labels), e)));
    let none = Seq::<int>::empty();
    assert(wire::records(s, e + 4, 0) == Some((none, e + 4)));
    lemma_no_opts(s, none);
    assert(none.take(0) =~= none);
}

proof fn lemma_no_opts(s: Seq<u8>, none: Seq<int>)
    requires
        none.len() == 0,
    ensures
        wire::opt_fields(s, none).len() == 0,
{
    reveal(Seq::filter);
}

/// An EDNS record: the root, the type OPT (41), the payload, the extended code and the
/// version, the flags, and no options.
pub open spec fn opt_record(payload: Seq<u8>, more: Seq<u8>, flags: Seq<u8>) -> Seq<u8> {
    seq![0u8, 0, 41] + payload + more + flags + seq![0u8, 0]
}

/// What a query with EDNS asks in addition: the payload that it advertises, and DNSSEC
/// records where the first bit of the record's flags is set.
pub proof fn law_query_with_edns(
    id: Seq<u8>,
    flags: Seq<u8>,
    labels: Seq<Seq<u8>>,
    ask: Seq<u8>,
    payload: Seq<u8>,
    more: Seq<u8>,
    z: Seq<u8>,
)
    requires
        id.len() == 2 && flags.len() == 2 && ask.len() == 4,
        payload.len() == 2 && more.len() == 2 && z.len() == 2,
        are_labels(labels),
        0 < labels.len(),
        wire_name(labels).len() <= 255,
    ensures
        ({
            let s = packet(id, flags, 1, labels, ask, opt_record(payload, more, z));
            &&& wire::query_of(s) matches Some(q) && q.id == id[0] * 256 + id[1] && q.qname
                == shown_name(labels) && q.qtype == ask[0] * 256 + ask[1] && q.qclass == ask[2]
                * 256 + ask[3] && q.edns_payload == Some(payload[0] * 256 + payload[1])
                && q.dnssec_ok == (z[0] >= 128) && q.checking_disabled == (flags[1] / 16 % 2 == 1)
        }),
{
    let opt = opt_record(payload, more, z);
    let s = packet(id, flags, 1, labels, ask, opt);
    lemma_packet(s, id, flags, 1, labels, ask, opt);
    let e = 12 + wire_name(labels).len() as int;
    assert(shown_name(labels).len() > 0);
    assert(wire::question_name(s, 12) == Some((shown_name(labels), e)));
    let p = e + 4;
    let f = p + 1;
    assert(opt.len() == 11);
    assert(s[p + 0] == opt[0] && s[p + 1] == opt[1] && s[p + 2] == opt[2]);
    assert(s[p + 3] == opt[3] && s[p + 4] == opt[4] && s[p + 7] == opt[7] && s[p + 8] == opt[8]);
    assert(s[p + 9] == opt[9] && s[p + 10] == opt[10]);
    assert(opt[3] == payload[0] && opt[4] == payload[1] && opt[7] == z[0]);
    assert(wire::name_end(s, p) == Some(f));
    assert(wire::be16(s, f + 8) == 0);
    assert(wire::record_at(s, p) == Some((f, p + 11)));
    let none = Seq::<int>::empty();
    assert(wire::records(s, p, 0) == Some((none, p)));
    assert(wire::records(s, p, 1) == Some((none.push(f), p + 11)));
    let fields = none.push(f);
    assert(wire::is_opt(s, f));
    assert(wire::opt_fields(s, fields) =~= seq![f]) by {
        reveal(Seq::filter);
        assert(fields.drop_last() =~= none);
        assert(none.filter(|f: int| wire::is_opt(s, f)) =~= none);
    }
    assert(fields.take(0) =~= none);
    lemma_no_opts(s, none);
}

/// What a client is sent over UDP is limited by what it advertises, but 512 bytes are
/// always taken to be in order and more than 4096 never.
pub proof fn law_udp_limit(q: IngressView)
    ensures
        512 <= ingress::udp_limit(q) <= 4096,
        q matches IngressView::Fast { parsed, .. } ==> match parsed.edns_payload {
            Some(n) => (512 <= n <= 4096 ==> ingress::udp_limit(q) == n) && (n > 4096
                ==> ingress::udp_limit(q) == 4096) && (n < 512 ==> ingress::udp_limit(q) == 512),
            None => ingress::udp_limit(q) == 512,
        },
        q matches IngressView::Full(m) ==> match m.edns {
            Some(e) => {
                let n = message::edns_of(e).max_payload;
                (512 <= n <= 4096 ==> ingress::udp_limit(q) == n) && (n > 4096
                    ==> ingress::udp_limit(q) == 4096) && (n < 512 ==> ingress::udp_limit(q) == 512)
            },
            None => ingress::udp_limit(q) == 512,
        },
{
}

/// Labels on the wire, without what ends the name.
pub open spec fn wire_labels(labels: Seq<Seq<u8>>) -> Seq<u8>
    decreases labels.len(),
{
    if labels.len() == 0 {
        Seq::empty()
    } else {
        seq![labels[0].len() as u8] + labels[0] + wire_labels(labels.drop_first())
    }
}

/// A name ends behind the zero after its labels, or behind the two bytes of a pointer there.
pub proof fn law_name_ends(s: Seq<u8>, pos: int, labels: Seq<Seq<u8>>)
    requires
        forall|i: int| 0 <= i < labels.len() ==> 1 <= (#[trigger] labels[i]).len() <= 63,
        0 <= pos,
        pos + wire_labels(labels).len() < s.len(),
        forall|i: int|
            0 <= i < wire_labels(labels).len() ==> s[pos + i] == #[trigger] wire_labels(labels)[i],
    ensures
        ({
            let end = pos + wire_labels(labels).len() as int;
            &&& s[end] == 0 ==> wire::name_end(s, pos) == Some(end + 1)
            &&& s[end] >= 192 ==> wire::name_end(s, pos) == Some(end + 2)
            &&& 64 <= s[end] < 192 ==> wire::name_end(s, pos) is None
        }),
    decreases labels.len(),
{
    let w = wire_labels(labels);
    if labels.len() > 0 {
        let n = labels[0].len() as int;
        let rest = labels.drop_first();
        let more = wire_labels(rest);
        assert(w[0] == n);
        assert(s[pos + 0] == w[0]);
        assert forall|i: int| 0 <= i < more.len() implies s[pos + 1 + n + i] == #[trigger] more[i] by {
            assert(w[1 + n + i] == more[i]);
            assert(s[pos + (1 + n + i)] == w[1 + n + i]);
        }
        assert forall|i: int| 0 <= i < rest.len() implies 1 <= (#[trigger] rest[i]).len() <= 63 by {
            assert(rest[i] == labels[i + 1]);
        }
        law_name_ends(s, pos + 1 + n, rest);
    }
}

/// A record with a name that is a pointer: its fields begin behind the pointer, its TTL four
/// bytes further on, and it ends behind as much data as its length says.
pub proof fn law_record_fields(s: Seq<u8>, pos: int)
    requires
        0 <= pos,
        pos + 12 <= s.len(),
        s[pos] >= 192,
        pos + 12 + s[pos + 10] * 256 + s[pos + 11] <= s.len(),
    ensures
        wire::record_at(s, pos) == Some(
            (pos + 2, pos + 12 + s[pos + 10] * 256 + s[pos + 11]),
        ),
        wire::is_opt(s, pos + 2) <==> s[pos + 2] == 0 && s[pos + 3] == 41,
{
}

} // verus!
