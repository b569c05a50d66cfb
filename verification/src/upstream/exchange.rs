//! What holds of the questions that are put to upstreams and of what is made of replies.

use vstd::prelude::*;

use crate::filter::wildcard;
use crate::message;
use crate::message::{DataView, EdnsView, MessageView, Record};
use crate::net;
use crate::net::{IpAddr, Ipv4Addr, SocketAddr};
use crate::text;
use crate::upstream::alt_svc;
use crate::upstream::alt_svc::{AltSvcH3, Exchange, H3Mode};
use crate::upstream::bootstrap;
use crate::upstream::bootstrap::{BootstrapView, LookupView};
use crate::upstream::conduct;
use crate::upstream::connect;
use crate::upstream::connect::{AfterView, DialView};
use crate::upstream::error::ErrorView;
use crate::upstream::failover;
use crate::upstream::failover::{FailoverView, ProgressView, ReplyView, TryView};
use crate::upstream::health;
use crate::upstream::health::HealthView;
use crate::upstream::pool::{PoolView, UpstreamView};
use crate::upstream::probe;
use crate::upstream::probe::ReportView;
use crate::upstream::probe_log;
use crate::upstream::probe_log::{ProbeErrorKind, ProbeEvent, ProbeOutcome};
use crate::upstream::spec::{HostView, SpecView, TransportKind};
use crate::upstream::transport;
use crate::upstream::transport::{KeyView, PendingView};

verus! {

/// The EDNS record that goes upstream carries no options, a payload of 512 to 4096 bytes
/// that is the given one where that is in between, and the DNSSEC-OK bit as it is.
pub proof fn law_edns_upstream(e: EdnsView)
    ensures
        ({
            let sent = transport::plain_edns(e);
            &&& sent.options == 0 && sent.dnssec_ok == e.dnssec_ok && sent.version == e.version
            &&& 512 <= sent.max_payload <= 4096
            &&& 512 <= e.max_payload <= 4096 ==> sent.max_payload == e.max_payload
            &&& e.max_payload < 512 ==> sent.max_payload == 512
            &&& e.max_payload > 4096 ==> sent.max_payload == 4096
            &&& transport::edns_is_plain(e) <==> e.options == 0 && e.max_payload <= 4096
        }),
{
}

/// Two messages ask the same where their first questions have the same type and class and
/// a name that differs in case at most, and where both or neither of them want DNSSEC
/// records, and both or neither disable checking.
pub proof fn law_same_key(a: MessageView, b: MessageView)
    requires
        a.queries.len() > 0 && b.queries.len() > 0,
    ensures
        ({
            let p = message::question_of(a.queries[0]);
            let q = message::question_of(b.queries[0]);
            let wants = |m: MessageView|
                m.edns matches Some(e) && message::edns_of(e).dnssec_ok;
            transport::key_of(a) == transport::key_of(b) <==> {
                &&& p.rtype == q.rtype && p.class == q.class
                &&& wants(a) == wants(b)
                &&& a.checking_disabled == b.checking_disabled
                &&& p.name.len() == q.name.len()
                &&& forall|i: int|
                    0 <= i < p.name.len() ==> wildcard::same_letter(
                        #[trigger] p.name[i],
                        q.name[i],
                    )
            }
        }),
{
    let p = message::question_of(a.queries[0]);
    let q = message::question_of(b.queries[0]);
    let x = text::lowered(p.name);
    let y = text::lowered(q.name);
    assert(x.len() == p.name.len() && y.len() == q.name.len());
    if p.name.len() == q.name.len() {
        assert forall|i: int| 0 <= i < p.name.len() implies wildcard::same_letter(
            #[trigger] p.name[i],
            q.name[i],
        ) == (x[i] == y[i]) by {
            wildcard::lemma_same_letter(p.name[i], q.name[i]);
        }
        if forall|i: int|
            0 <= i < p.name.len() ==> wildcard::same_letter(#[trigger] p.name[i], q.name[i]) {
            assert forall|i: int| 0 <= i < x.len() implies x[i] == y[i] by {
                assert(wildcard::same_letter(p.name[i], q.name[i]));
            }
            assert(x =~= y);
        }
    }
}

/// A response is taken for an answer to a query where it repeats the query's question, or
/// none; what the caller gets is the response under the caller's own id, and nothing else
/// of it is changed.
pub proof fn law_taken_for_answer(query: MessageView, response: MessageView, why: Seq<char>)
    requires
        query.queries.len() > 0,
    ensures
        ({
            let p = message::question_of(query.queries[0]);
            let fits = response.queries.len() == 0 || ({
                let q = message::question_of(response.queries[0]);
                p.rtype == q.rtype && p.class == q.class && message::same_name(p.name, q.name)
            });
            let r = transport::accepted(query, response, why);
            &&& fits ==> r == Ok::<MessageView, ErrorView>(
                MessageView { id: query.id, ..response },
            )
            &&& !fits ==> r == Err::<MessageView, ErrorView>(ErrorView::Proto(why))
        }),
{
}

/// A probe is two queries, the second only after an answer to the first. Where the first
/// is not answered, that counts against the upstream. Where both are, the upstream is up
/// and the time of the second is its sample; where only the first is, it is up, too, and
/// there is no sample.
pub proof fn law_probe(
    h: HealthView,
    first: TryView,
    second: TryView,
    blend_us: u64,
    threshold: u32,
    now: u64,
    roll: u32,
)
    requires
        h.consecutive_failures < u32::MAX,
        h.probe_samples < u64::MAX,
    ensures
        ({
            let one = probe::shot_view(first.reply, first.rtt_us);
            let two = probe::shot_view(second.reply, second.rtt_us);
            let alone = probe::report_of(one, None);
            let both = probe::report_of(one, Some(two));
            let missed = probe::health_after_probe(h, alone, blend_us, threshold, now, roll);
            let after = probe::health_after_probe(h, both, blend_us, threshold, now, roll);
            &&& !conduct::answers(first) ==> {
                &&& missed.consecutive_failures == h.consecutive_failures + 1
                &&& missed.up == (h.up && h.consecutive_failures + 1 < threshold)
                &&& missed.probe_samples == h.probe_samples
                &&& missed.probe_ewma_us == h.probe_ewma_us
            }
            &&& conduct::answers(first) ==> after.up && after.consecutive_failures == 0
            &&& conduct::answers(first) && conduct::answers(second) ==> {
                &&& after.probe_samples == h.probe_samples + 1
                &&& after.probe_ewma_us == (if h.probe_samples == 0 {
                    second.rtt_us
                } else {
                    blend_us
                })
                &&& both.outcome == ProbeOutcome::Answer
                &&& both.rtt_us == Some(second.rtt_us) && both.first_rtt_us == Some(first.rtt_us)
            }
            &&& conduct::answers(first) && !conduct::answers(second) ==> {
                &&& after.probe_samples == h.probe_samples
                &&& after.probe_ewma_us == h.probe_ewma_us
                &&& both.outcome == ProbeOutcome::MeasureFail
            }
            &&& first.reply is TimedOut ==> alone.outcome == ProbeOutcome::Timeout
            &&& first.reply is Failed ==> alone.outcome == ProbeOutcome::Error
            &&& first.reply matches ReplyView::Response(m) ==> ((m.response_code == 5
                || m.response_code == 4 ==> alone.outcome == ProbeOutcome::Reject) && (
            m.response_code == 2 || m.response_code == 1 ==> alone.outcome
                == ProbeOutcome::SoftFail))
        }),
{
}

/// Where no server is configured to find upstreams' addresses, 1.1.1.1 and 8.8.8.8 are
/// asked, on port 53; and what was found is known for five minutes.
pub proof fn law_bootstrap(b: BootstrapView, host: Seq<char>, ips: Seq<IpAddr>, at: u64, now: u64)
    requires
        net::ip_of_text(host) is None,
        at <= now,
    ensures
        bootstrap::usual_servers() == seq![
            SocketAddr { ip: IpAddr::V4(Ipv4Addr { bits: 16843009 }), port: 53 },
            SocketAddr { ip: IpAddr::V4(Ipv4Addr { bits: 134744072 }), port: 53 },
        ],
        ({
            let after = BootstrapView { cache: b.cache.insert(host, (ips, at)), ..b };
            &&& now < at + 300_000 ==> bootstrap::known_ips(after, host, now) == Some(ips)
            &&& now >= at + 300_000 ==> bootstrap::known_ips(after, host, now) is None
        }),
{
}

/// The addresses in a response are those of its address records, and no others.
pub proof fn law_addresses(answers: Seq<Record>, ip: IpAddr)
    ensures
        bootstrap::addresses(answers).contains(ip) <==> exists|i: int|
            0 <= i < answers.len() && match ip {
                IpAddr::V4(a) => (#[trigger] answers[i])@.data == DataView::A(a),
                IpAddr::V6(a) => answers[i]@.data == DataView::Aaaa(a),
            },
    decreases answers.len(),
{
    let all = bootstrap::addresses(answers);
    if answers.len() > 0 {
        let rest = answers.drop_last();
        law_addresses(rest, ip);
        let before = bootstrap::addresses(rest);
        assert(answers.last() == answers[answers.len() - 1]);
        let last = answers.last()@.data;
        if before.contains(ip) {
            let k = choose|k: int| 0 <= k < before.len() && before[k] == ip;
            assert(all[k] == ip);
            let i = choose|i: int|
                0 <= i < rest.len() && match ip {
                    IpAddr::V4(a) => (#[trigger] rest[i])@.data == DataView::A(a),
                    IpAddr::V6(a) => rest[i]@.data == DataView::Aaaa(a),
                };
            assert(answers[i] == rest[i]);
        }
        if all.contains(ip) && !before.contains(ip) {
            let k = choose|k: int| 0 <= k < all.len() && all[k] == ip;
            if k < before.len() {
                assert(before[k] == ip);
            }
        }
        if last == DataView::A(match ip {
            IpAddr::V4(a) => a,
            IpAddr::V6(_) => Ipv4Addr { bits: 0 },
        }) && ip is V4 {
            assert(all[before.len() as int] == ip);
        }
        if let IpAddr::V6(a) = ip {
            if last == DataView::Aaaa(a) {
                assert(all[before.len() as int] == ip);
            }
        }
        if exists|i: int|
            0 <= i < answers.len() && match ip {
                IpAddr::V4(a) => (#[trigger] answers[i])@.data == DataView::A(a),
                IpAddr::V6(a) => answers[i]@.data == DataView::Aaaa(a),
            } {
            let i = choose|i: int|
                0 <= i < answers.len() && match ip {
                    IpAddr::V4(a) => (#[trigger] answers[i])@.data == DataView::A(a),
                    IpAddr::V6(a) => answers[i]@.data == DataView::Aaaa(a),
                };
            if i < rest.len() {
                assert(rest[i] == answers[i]);
            }
        }
    }
}

/// Whether `s` has nothing in it that parts an Alt-Svc value, and no white space.
pub open spec fn is_whole(s: Seq<char>) -> bool {
    forall|i: int|
        0 <= i < s.len() ==> ' ' < #[trigger] s[i] <= '~' && s[i] != ',' && s[i] != ';'
}

/// An Alt-Svc value with one entry offers HTTP/3 where its protocol is `h3`, for a day or
/// for as many seconds as `ma` says.
pub proof fn law_alt_svc(authority: Seq<char>, ma: Seq<char>, secs: u64)
    requires
        is_whole(authority),
        is_whole(ma),
        text::number_of_text(ma, u64::MAX as nat) == Some(secs as nat),
    ensures
        alt_svc::alt_svc_of(seq!['h', '3', '='] + authority) == AltSvcH3::Found(86_400),
        alt_svc::alt_svc_of((seq!['h', '3', '='] + authority).push(';') + (seq!['m', 'a', '=']
            + ma)) == AltSvcH3::Found(secs),
        alt_svc::alt_svc_of(seq!['h', '2', '='] + authority) == AltSvcH3::Absent,
        alt_svc::alt_svc_of(seq!['c', 'l', 'e', 'a', 'r']) == AltSvcH3::Clear,
{
    reveal_strlit("clear");
    assert("clear"@ =~= seq!['c', 'l', 'e', 'a', 'r']);
    let clear = seq!['c', 'l', 'e', 'a', 'r'];
    assert(text::lowered(clear) =~= clear);
    assert(text::trim_start(clear) == clear);
    assert(text::trim_end(clear) == clear);
    let h3 = seq!['h', '3', '='] + authority;
    let h2 = seq!['h', '2', '='] + authority;
    let param = seq!['m', 'a', '='] + ma;
    lemma_entry(h3, authority, true);
    lemma_entry(h2, authority, false);
    assert(is_whole(h3) && is_whole(h2)) by {
        assert forall|i: int| 3 <= i < h3.len() implies h3[i] == authority[i - 3] && h2[i]
            == authority[i - 3] by {
        }
        assert forall|i: int| 0 <= i < h3.len() implies ' ' < #[trigger] h3[i] <= '~' && h3[i]
            != ',' && h3[i] != ';' by {
            if i >= 3 {
                assert(h3[i] == authority[i - 3]);
            }
        }
        assert forall|i: int| 0 <= i < h2.len() implies ' ' < #[trigger] h2[i] <= '~' && h2[i]
            != ',' && h2[i] != ';' by {
            if i >= 3 {
                assert(h2[i] == authority[i - 3]);
            }
        }
    }
    assert(is_whole(param)) by {
        assert forall|i: int| 0 <= i < param.len() implies ' ' < #[trigger] param[i] <= '~'
            && param[i] != ',' && param[i] != ';' by {
            if i >= 3 {
                assert(param[i] == ma[i - 3]);
            }
        }
    }
    lemma_value(h3, None);
    lemma_value(h2, None);
    lemma_value(h3, Some(param));
    lemma_trimmed(ma);
    lemma_trimmed(param);
    reveal_strlit("ma=");
    assert("ma="@ =~= seq!['m', 'a', '=']);
    assert(param.take(3) =~= "ma="@);
    assert(param.skip(3) =~= ma);
}

/// The value of an entry and of a parameter to it, where there is one.
spec fn value_of(entry: Seq<char>, param: Option<Seq<char>>) -> Seq<char> {
    match param {
        Some(p) => entry.push(';') + p,
        None => entry,
    }
}

proof fn lemma_trimmed(s: Seq<char>)
    requires
        is_whole(s),
    ensures
        text::trim(s) == s,
{
    if s.len() > 0 {
        assert(' ' < s[0] <= '~');
        assert(' ' < s[s.len() - 1] <= '~');
    }
}

/// How a value with one entry is read.
proof fn lemma_value(entry: Seq<char>, param: Option<Seq<char>>)
    requires
        is_whole(entry),
        entry.len() > 3 || entry.len() == 3,
        entry[0] == 'h',
        param matches Some(p) ==> is_whole(p) && p.len() >= 3,
    ensures
        ({
            let v = value_of(entry, param);
            &&& text::split(v, ';') == match param {
                Some(p) => seq![entry, p],
                None => seq![entry],
            }
            &&& alt_svc::alt_svc_of(v) == (if alt_svc::offers_h3(v) {
                AltSvcH3::Found(alt_svc::max_age(v))
            } else {
                AltSvcH3::Absent
            })
            &&& alt_svc::offers_h3(v) == alt_svc::offers_h3(entry)
            &&& alt_svc::max_age(v) == match param {
                Some(p) => if text::has_prefix(text::trim(p), "ma="@) {
                    match text::number_of_text(
                        text::trim(text::trim(p).skip(3)),
                        u64::MAX as nat,
                    ) {
                        Some(n) => n as u64,
                        None => 86_400,
                    }
                } else {
                    86_400
                },
                None => 86_400,
            }
        }),
{
    let v = value_of(entry, param);
    lemma_trimmed(entry);
    assert(!entry.contains(';') && !entry.contains(','));
    text::lemma_split_whole(entry, ';');
    if let Some(p) = param {
        assert(!p.contains(';'));
        text::lemma_split_whole(p, ';');
        text::lemma_split_join(entry, p, ';');
        assert(text::split(v, ';') =~= seq![entry, p]);
    }
    assert(!v.contains(',')) by {
        if v.contains(',') {
            let i = choose|i: int| 0 <= i < v.len() && v[i] == ',';
            if i < entry.len() {
                assert(entry[i] == ',');
            } else if i > entry.len() {
                assert((param->0)[i - entry.len() - 1] == ',');
            }
        }
    }
    text::lemma_split_whole(v, ',');
    assert(v[0] == 'h');
    assert(v.last() == v[v.len() - 1]);
    if let Some(p) = param {
        assert(v.last() == p[p.len() - 1]);
    } else {
        assert(v.last() == entry[entry.len() - 1]);
    }
    assert(text::trim_start(v) == v);
    assert(text::trim_end(v) == v);
    reveal_strlit("clear");
    assert(text::lowered(v)[0] == 'h');
    assert("clear"@[0] == 'c');
    assert(text::lowered(v) != "clear"@);
    let list = text::split(v, ',');
    assert(list.len() == 1 && list[0] == v);
    assert(alt_svc::first_h3(list, 1) == AltSvcH3::Absent);
    let params = text::split(v, ';');
    assert(params[0] == entry);
    text::lemma_split_whole(entry, ';');
    assert(text::split(entry, ';')[0] == entry);
    if param is Some {
        assert(params[1] == param->0);
        assert(alt_svc::first_ma(params, 2) is None);
    } else {
        assert(alt_svc::first_ma(params, 1) is None);
    }
}

/// The protocol of an entry is what stands before its `=`.
proof fn lemma_entry(entry: Seq<char>, authority: Seq<char>, h3: bool)
    requires
        is_whole(authority),
        entry == (if h3 {
            seq!['h', '3', '=']
        } else {
            seq!['h', '2', '=']
        }) + authority,
    ensures
        alt_svc::offers_h3(entry) == h3,
{
    assert forall|i: int| 0 <= i < entry.len() implies ' ' < #[trigger] entry[i] <= '~' && entry[i]
        != ',' && entry[i] != ';' by {
        if i >= 3 {
            assert(entry[i] == authority[i - 3]);
        }
    }
    lemma_trimmed(entry);
    assert(!entry.contains(';'));
    text::lemma_split_whole(entry, ';');
    text::lemma_find_is(entry, '=', 0, 2);
    let id = entry.take(2);
    assert(id.len() == 2 && id[0] == 'h' && id[1] == entry[1]);
    lemma_trimmed(id);
    reveal_strlit("h3");
    reveal_strlit("h3-");
    assert(alt_svc::entry_id(entry) == id);
    if h3 {
        assert(id =~= "h3"@);
    } else {
        assert("h3"@[1] == '3');
    }
}

/// A response on a shared connection goes to whoever sent the query that it answers, and
/// to nobody twice. A connection that broke or is dead takes no query, and nobody waits on
/// it.
pub proof fn law_routing(p: PendingView, one: u64, other: u64)
    requires
        !p.dead,
    ensures
        ({
            let (p1, id1) = transport::begun(p, one);
            let (p2, id2) = transport::begun(p1, other);
            &&& id1 matches Some(a) && id2 matches Some(b) && a != b && {
                let (p3, first) = transport::routed(p2, a);
                let (_, second) = transport::routed(p3, b);
                let (_, again) = transport::routed(p3, a);
                &&& first == Some(one)
                &&& second == Some(other)
                &&& again is None
                &&& transport::routed(transport::broken(p2), a).1 is None
                &&& transport::routed(transport::broken(p2), b).1 is None
            }
            &&& transport::begun(transport::broken(p), one).1 is None
        }),
{
}

/// Ids go round: a connection gives each of them out once before any comes again.
pub proof fn law_ids_go_round(id: u16)
    ensures
        transport::id_after(id) == (id + 1) % 65536,
{
}

/// HTTP/3 is used where it is forced, and where a server offered it and the offer has
/// not run out. A failure takes the offer back, and the query goes out the other way; a
/// forced one fails.
pub proof fn law_http3(
    until: Option<u64>,
    secs: u64,
    now_ms: u64,
    later_ms: u64,
)
    requires
        now_ms + secs * 1000 <= u64::MAX,
        now_ms <= later_ms,
    ensures
        ({
            let auto = H3Mode::Auto { until };
            let offered = alt_svc::learned(auto, AltSvcH3::Found(secs), now_ms);
            &&& alt_svc::first_of(H3Mode::Auto { until: None }, now_ms) == Exchange::Http12
            &&& alt_svc::first_of(H3Mode::Forced, now_ms) == Exchange::Http3
            &&& later_ms < now_ms + secs * 1000 ==> alt_svc::first_of(offered, later_ms)
                == Exchange::Http3
            &&& later_ms >= now_ms + secs * 1000 ==> alt_svc::first_of(offered, later_ms)
                == Exchange::Http12
            &&& alt_svc::first_of(alt_svc::learned(offered, AltSvcH3::Clear, now_ms), later_ms)
                == Exchange::Http12
            &&& alt_svc::learned(offered, AltSvcH3::Absent, later_ms) == offered
            &&& alt_svc::learned(H3Mode::Forced, AltSvcH3::Clear, now_ms) == H3Mode::Forced
            &&& alt_svc::failed_over(offered, Exchange::Http3).1 == Some(Exchange::Http12)
            &&& alt_svc::first_of(alt_svc::failed_over(offered, Exchange::Http3).0, later_ms)
                == Exchange::Http12
            &&& alt_svc::failed_over(offered, Exchange::Http12) == (offered, None::<Exchange>)
            &&& alt_svc::failed_over(H3Mode::Forced, Exchange::Http3) == (
                H3Mode::Forced,
                None::<Exchange>,
            )
        }),
{
}

/// An answer that was cut short is asked for over TCP where it came in a datagram, and is
/// the answer where it did not. A failure is tried again once, over UDP and TLS, and is
/// one at once over the others.
pub proof fn law_after_exchange(kind: TransportKind, retried: bool, m: MessageView, e: ErrorView)
    ensures
        ({
            let got = connect::followed(kind, retried, Ok(m));
            let lost = connect::followed(kind, retried, Err(e));
            &&& got == AfterView::OverTcp <==> kind == TransportKind::Udp && m.truncation
            &&& got != AfterView::OverTcp ==> got == AfterView::Answer(m)
            &&& lost == AfterView::Retry <==> !retried && (kind == TransportKind::Udp || kind
                == TransportKind::Tls)
            &&& lost != AfterView::Retry ==> lost == AfterView::Fail(e)
        }),
{
}

/// What is left to try after so many failures.
pub open spec fn dialed(d: DialView, errors: Seq<ErrorView>) -> DialView
    decreases errors.len(),
{
    if errors.len() == 0 {
        d
    } else {
        connect::missed(dialed(d, errors.drop_last()), errors.last())
    }
}

/// The addresses of a host are tried one after the other, each on the port of the
/// upstream, and when none is left the last error is the outcome.
pub proof fn law_dialing(d: DialView, errors: Seq<ErrorView>)
    requires
        errors.len() <= d.left.len(),
    ensures
        ({
            let now = dialed(d, errors);
            &&& errors.len() < d.left.len() ==> connect::to_try(now) == Some(
                SocketAddr { ip: d.left[errors.len() as int], port: d.port },
            )
            &&& errors.len() == d.left.len() ==> connect::to_try(now) is None
            &&& errors.len() > 0 ==> now.last == errors.last()
            &&& now.left == d.left.skip(errors.len() as int)
            &&& now.port == d.port
        }),
    decreases errors.len(),
{
    if errors.len() > 0 {
        law_dialing(d, errors.drop_last());
        let n = errors.len() - 1;
        assert(d.left.skip(n).drop_first() =~= d.left.skip(n + 1));
    } else {
        assert(d.left.skip(0) =~= d.left);
    }
}

/// A query that is made is one question in class IN, for recursion, without anything else.
pub proof fn law_query_made(m: MessageView, id: u16, name: Seq<char>, rtype: u16)
    requires
        failover::is_query_for(m, id, name, rtype),
    ensures
        m.id == id && !m.response && m.op_code == 0 && m.recursion_desired && !m.truncation,
        m.queries.len() == 1,
        ({
            let q = message::question_of(m.queries[0]);
            q.name == name && q.rtype == rtype && q.class == 1
        }),
        m.answers.len() == 0 && m.authorities.len() == 0 && m.additionals.len() == 0,
        m.edns is None,
{
}

/// The servers that know upstreams' addresses are asked one after the other until one
/// gives any; what IPv4 and IPv6 lookups found counts together, and a host is unknown
/// where neither found any.
pub proof fn law_lookup(
    b: BootstrapView,
    l: LookupView,
    reply: ReplyView,
    host: Seq<char>,
    v4: Seq<IpAddr>,
    v6: Seq<IpAddr>,
)
    requires
        0 <= l.asked < b.servers.len(),
    ensures
        bootstrap::next_server(b, l) == Some(b.servers[l.asked]),
        match bootstrap::looked_up(l, reply) {
            Ok(ips) => reply matches ReplyView::Response(m) && ips.len() > 0 && forall|ip: IpAddr|
                #[trigger]
                ips.contains(ip) ==> exists|i: int|
                    0 <= i < m.answers.len() && match ip {
                        IpAddr::V4(a) => (#[trigger] m.answers[i])@.data == DataView::A(a),
                        IpAddr::V6(a) => m.answers[i]@.data == DataView::Aaaa(a),
                    },
            Err(next) => (l.asked + 1 < b.servers.len() ==> bootstrap::next_server(b, next) == Some(
                b.servers[l.asked + 1],
            )) && (l.asked + 1 == b.servers.len() ==> bootstrap::next_server(b, next) is None),
        },
        reply is TimedOut || reply is Failed ==> bootstrap::looked_up(l, reply) is Err,
        (v4.len() > 0 || v6.len() > 0) ==> bootstrap::found(host, v4, v6) == Ok::<
            Seq<IpAddr>,
            ErrorView,
        >(v4 + v6),
        v4.len() == 0 && v6.len() == 0 ==> bootstrap::found(host, v4, v6) == Err::<
            Seq<IpAddr>,
            ErrorView,
        >(ErrorView::Bootstrap(host)),
{
    if let ReplyView::Response(m) = reply {
        assert forall|ip: IpAddr| #[trigger]
            bootstrap::addresses(m.answers).contains(ip) implies exists|i: int|
            0 <= i < m.answers.len() && match ip {
                IpAddr::V4(a) => (#[trigger] m.answers[i])@.data == DataView::A(a),
                IpAddr::V6(a) => m.answers[i]@.data == DataView::Aaaa(a),
            } by {
            law_addresses(m.answers, ip);
        }
    }
}

/// The upstreams are asked in the order of the search, one after the other; and a reply
/// changes the health of the one that was asked, and nothing else.
pub proof fn law_asked_in_order(
    f: FailoverView,
    p: PoolView,
    at: int,
    t: TryView,
    blend_us: u64,
    now: u64,
    roll: u32,
)
    requires
        0 <= f.next < f.order.len(),
        0 <= at < p.upstreams.len(),
    ensures
        failover::to_ask(f) == Some(f.order[f.next]),
        failover::after_reply(f, t) matches ProgressView::Going(g) ==> failover::to_ask(g) == (
        if f.next + 1 < f.order.len() {
            Some(f.order[f.next + 1])
        } else {
            None
        }),
        ({
            let after = failover::pool_after(p, at, t, blend_us, now, roll);
            &&& after.leader == p.leader && after.settings == p.settings
            &&& after.upstreams.len() == p.upstreams.len()
            &&& forall|k: int|
                0 <= k < p.upstreams.len() && k != at ==> #[trigger] after.upstreams[k]
                    == p.upstreams[k]
            &&& after.upstreams[at].name == p.upstreams[at].name && after.upstreams[at].spec
                == p.upstreams[at].spec
        }),
{
}

/// A plain transport sends to the address in its spec, or else to the first one that was
/// found for its host, on the port of the spec.
pub proof fn law_plain_address(v: SpecView, ips: Seq<IpAddr>)
    ensures
        match v.host {
            HostView::Ip(ip) => connect::plain_address(v, ips) == Ok::<SocketAddr, ErrorView>(
                SocketAddr { ip, port: v.port },
            ),
            HostView::Name(name) => if ips.len() > 0 {
                connect::plain_address(v, ips) == Ok::<SocketAddr, ErrorView>(
                    SocketAddr { ip: ips[0], port: v.port },
                )
            } else {
                connect::plain_address(v, ips) == Err::<SocketAddr, ErrorView>(
                    ErrorView::Bootstrap(name),
                )
            },
        },
{
}

/// DNS over HTTPS goes to the host, the port and the path of the spec.
pub proof fn law_url(v: SpecView, name: Seq<char>)
    requires
        v.host == HostView::Name(name),
    ensures
        alt_svc::doh_url_text(v) == "https://"@ + name + seq![':'] + text::decimal(v.port as nat)
            + v.path,
{
    reveal_strlit(":");
    assert(":"@ =~= seq![':']);
}

/// Nothing is asked without an upstream or without a question.
pub proof fn law_nothing_to_ask(ups: int, query: MessageView)
    ensures
        failover::question_for(ups, query) matches Ok(key) ==> ups != 0 && query.queries.len() > 0
            && transport::key_of(query) == Some(key),
        ups == 0 ==> failover::question_for(ups, query) == Err::<KeyView, ErrorView>(
            ErrorView::NoUpstreams,
        ),
        ups != 0 && query.queries.len() > 0 ==> failover::question_for(ups, query) is Ok,
{
}

/// Errors are told apart by where they come from; that of a search is that of its last try.
pub proof fn law_error_kinds(e: ErrorView, why: Seq<char>)
    ensures
        probe_log::kind_of_error(ErrorView::AllFailed(Box::new(e))) == probe_log::kind_of_error(e),
        probe_log::kind_of_error(ErrorView::Timeout) == ProbeErrorKind::Timeout,
        probe_log::kind_of_error(ErrorView::Rcode(why)) == ProbeErrorKind::Rcode,
        probe_log::kind_of_error(ErrorView::Io(why)) == ProbeErrorKind::Io,
        probe_log::kind_of_error(ErrorView::Tls(why)) == ProbeErrorKind::Tls,
        probe_log::kind_of_error(ErrorView::Quic(why)) == ProbeErrorKind::Quic,
        probe_log::kind_of_error(ErrorView::Http(why)) == ProbeErrorKind::Http,
        probe_log::kind_of_error(ErrorView::Proto(why)) == ProbeErrorKind::Proto,
        probe_log::kind_of_error(ErrorView::Bootstrap(why)) == ProbeErrorKind::Bootstrap,
{
}

/// What is told of a probe is the upstream's health as the probe left it.
pub proof fn law_probe_event(ev: ProbeEvent, up: UpstreamView, report: ReportView, time_ms: i64)
    requires
        probe::tells(ev, up, report, time_ms),
    ensures
        ev.time_ms == time_ms && ev.upstream@ == up.spec.display && ev.name@ == up.name,
        ev.outcome == report.outcome && ev.rtt_us == report.rtt_us && ev.first_rtt_us
            == report.first_rtt_us,
        ev.up == up.health.up && ev.consecutive_failures == up.health.consecutive_failures,
        up.health.probe_samples > 0 ==> ev.ewma_us == Some(up.health.probe_ewma_us),
        up.health.probe_samples == 0 ==> ev.ewma_us is None,
        ev.live_queries == up.health.total_queries && ev.live_failures == up.health.total_failures,
        ev.rank == up.health.last_rank,
{
}

/// An upstream's first probe comes within two seconds.
pub proof fn law_first_probe(roll: u32)
    ensures
        health::startup_delay_by(health::STARTUP_PROBE_SPREAD, roll) < 2_000,
        roll == 0 ==> health::startup_delay_by(health::STARTUP_PROBE_SPREAD, roll) == 0,
{
}

} // verus!
