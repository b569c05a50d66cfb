//! What holds of the response cache as a whole, and of its snapshots.

use vstd::prelude::*;

use crate::engine::cache;
use crate::engine::cache::{CacheConfig, CacheView, HitFreshness, HitView};
use crate::engine::lru_store;
use crate::engine::lru_store::{EntryView, Kept, ResponseVerdictView};
use crate::engine::snapshot;
use crate::engine::snapshot::SavedView;
use crate::message::{MessageView, NO_ERROR, NX_DOMAIN};
use crate::text;
use crate::upstream::transport::KeyView;

verus! {

/// A cacheable response that was inserted is found under its question until its
/// TTL has passed, under the caller's id and with what is left of that TTL, and
/// with the verdict that it was inserted with.
pub proof fn law_inserted_is_found(
    c: CacheView,
    key: KeyView,
    m: MessageView,
    verdict: Option<ResponseVerdictView>,
    stored: u64,
    id: u16,
    now: u64,
)
    requires
        c.cfg.enabled,
        cache::cacheable(c.cfg, m) is Some,
        cache::seconds_between(stored, now) < cache::cacheable(c.cfg, m)->0,
    ensures
        cache::hit_of(cache::after_insert(c, key, m, verdict, stored), key, id, now) == Some(
            HitView {
                response: cache::served(
                    cache::stored_form(c.cfg, m),
                    id,
                    (cache::cacheable(c.cfg, m)->0 - cache::seconds_between(stored, now)) as u32,
                ),
                freshness: HitFreshness::Fresh,
                verdict,
            },
        ),
{
    let e = EntryView {
        stored: cache::stored_form(c.cfg, m),
        stored_at: stored,
        ttl: cache::cacheable(c.cfg, m)->0,
        verdict,
    };
    lru_store::lemma_lookup_after_put(c.kept, c.limit, key, e);
}

/// A response whose TTL has passed is found as stale within the serve-stale
/// window, with a TTL of one second.
pub proof fn law_expired_is_stale(
    c: CacheView,
    key: KeyView,
    m: MessageView,
    verdict: Option<ResponseVerdictView>,
    stored: u64,
    id: u16,
    now: u64,
)
    requires
        c.cfg.enabled,
        cache::cacheable(c.cfg, m) is Some,
        cache::seconds_between(stored, now) < u32::MAX,
        cache::cacheable(c.cfg, m)->0 <= cache::seconds_between(stored, now) < cache::cacheable(
            c.cfg,
            m,
        )->0 + c.cfg.stale_max_age,
    ensures
        cache::hit_of(cache::after_insert(c, key, m, verdict, stored), key, id, now) == Some(
            HitView {
                response: cache::served(
                    cache::stored_form(c.cfg, m),
                    id,
                    cache::STALE_SERVE_TTL,
                ),
                freshness: HitFreshness::Stale,
                verdict,
            },
        ),
{
    let e = EntryView {
        stored: cache::stored_form(c.cfg, m),
        stored_at: stored,
        ttl: cache::cacheable(c.cfg, m)->0,
        verdict,
    };
    lru_store::lemma_lookup_after_put(c.kept, c.limit, key, e);
}

/// An entry past its TTL and the serve-stale window is not found, and goes with
/// the lookup.
pub proof fn law_dead_is_dropped(c: CacheView, key: KeyView, id: u16, now: u64)
    requires
        c.cfg.enabled,
        lru_store::lookup(c.kept, key) is Some,
        ({
            let e = lru_store::lookup(c.kept, key)->0;
            cache::age_of(e, now) >= e.ttl + c.cfg.stale_max_age
        }),
    ensures
        cache::hit_of(c, key, id, now) is None,
        lru_store::lookup(cache::after_get(c, key, now).kept, key) is None,
{
    lru_store::lemma_lookup_without(c.kept, key, key);
}

/// Without a serve-stale window nothing is served past its TTL.
pub proof fn law_no_window_no_stale(c: CacheView, key: KeyView, id: u16, now: u64)
    requires
        c.cfg.stale_max_age == 0,
    ensures
        cache::hit_of(c, key, id, now) matches Some(hit) ==> hit.freshness == HitFreshness::Fresh,
{
}

/// Whatever is served has a TTL of at least a second, and a fresh answer none
/// longer than it was stored with.
pub proof fn law_served_ttl(e: EntryView, stale_max_age: u32, now: u64)
    requires
        cache::freshness_of(e, stale_max_age, now) is Some,
    ensures
        cache::served_ttl(e, now) >= 1,
        cache::freshness_of(e, stale_max_age, now) == Some(HitFreshness::Fresh)
            ==> cache::served_ttl(e, now) <= e.ttl,
        cache::freshness_of(e, stale_max_age, now) == Some(HitFreshness::Stale)
            ==> cache::served_ttl(e, now) == 1,
{
}

/// An answer ages: a later lookup serves it with no longer a TTL.
pub proof fn law_ttl_decreases(e: EntryView, now: u64, later: u64)
    requires
        now <= later,
        e.ttl >= 1,
    ensures
        cache::served_ttl(e, later) <= cache::served_ttl(e, now),
{
}

/// What is cached is a success or NXDOMAIN, whole, for a TTL within the
/// configured bounds.
pub proof fn law_cacheable(cfg: CacheConfig, m: MessageView)
    ensures
        cache::cacheable(cfg, m) matches Some(ttl) ==> {
            &&& m.response_code == NO_ERROR || m.response_code == NX_DOMAIN
            &&& !m.truncation
            &&& ttl >= 1
            &&& cfg.max_ttl != 0 ==> ttl <= cfg.max_ttl
            &&& ttl >= cfg.min_ttl || ttl == cfg.max_ttl
        },
{
}

/// A response that may not be cached leaves the cache as it is, and so does any
/// where the cache is switched off.
pub proof fn law_refused_changes_nothing(
    c: CacheView,
    key: KeyView,
    m: MessageView,
    verdict: Option<ResponseVerdictView>,
    now: u64,
)
    ensures
        (!c.cfg.enabled || (m.response_code != NO_ERROR && m.response_code != NX_DOMAIN)
            || m.truncation) ==> cache::after_insert(c, key, m, verdict, now) == c,
{
}

/// With room left, an insertion does not change what is found for other
/// questions. Questions that differ only in the DNSSEC-OK or checking-disabled
/// bit are other questions.
pub proof fn law_other_questions_keep(
    c: CacheView,
    key: KeyView,
    m: MessageView,
    verdict: Option<ResponseVerdictView>,
    stored: u64,
    other: KeyView,
    id: u16,
    now: u64,
)
    requires
        other != key,
        c.kept.len() < c.limit || lru_store::lookup(c.kept, key) is Some,
    ensures
        cache::hit_of(cache::after_insert(c, key, m, verdict, stored), other, id, now)
            == cache::hit_of(c, other, id, now),
{
    if c.cfg.enabled && cache::cacheable(c.cfg, m) is Some {
        let e = EntryView {
            stored: cache::stored_form(c.cfg, m),
            stored_at: stored,
            ttl: cache::cacheable(c.cfg, m)->0,
            verdict,
        };
        lemma_lookup_other(c.kept, c.limit, key, e, other);
    }
}

proof fn lemma_lookup_other(s: Kept, limit: nat, key: KeyView, e: EntryView, other: KeyView)
    requires
        other != key,
        s.len() < limit || lru_store::lookup(s, key) is Some,
    ensures
        lru_store::lookup(lru_store::with_entry(s, limit, key, e), other) == lru_store::lookup(
            s,
            other,
        ),
{
    lru_store::lemma_lookup_without(s, key, other);
    let t = lru_store::with_entry(s, limit, key, e);
    assert(t[0] == (key, e));
    if lru_store::lookup(s, key) is Some {
        assert(t.drop_first() =~= lru_store::without(s, key));
    } else {
        assert(t.drop_first() =~= s);
    }
}

proof fn lemma_without_len(s: Kept, key: KeyView)
    ensures
        lru_store::without(s, key).len() <= s.len(),
        lru_store::lookup(s, key) is Some ==> lru_store::without(s, key).len() < s.len(),
    decreases s.len(),
{
    reveal(Seq::filter);
    if s.len() > 0 {
        lemma_without_len(s.drop_last(), key);
        lemma_lookup_last(s, key);
    }
}

proof fn lemma_lookup_last(s: Kept, key: KeyView)
    requires
        s.len() > 0,
    ensures
        lru_store::lookup(s, key) is Some ==> lru_store::lookup(s.drop_last(), key) is Some
            || s.last().0 == key,
    decreases s.len(),
{
    if s.len() == 1 {
        assert(lru_store::lookup(s.drop_first(), key) is None);
    } else if s[0].0 == key {
        assert(s.drop_last()[0] == s[0]);
    } else {
        lemma_lookup_last(s.drop_first(), key);
        assert(s.drop_first().drop_last() =~= s.drop_last().drop_first());
    }
}

/// The cache never holds more entries than it has room for.
pub proof fn law_bounded(
    c: CacheView,
    key: KeyView,
    m: MessageView,
    verdict: Option<ResponseVerdictView>,
    now: u64,
)
    requires
        1 <= c.limit,
        c.kept.len() <= c.limit,
    ensures
        cache::after_insert(c, key, m, verdict, now).kept.len() <= c.limit,
        cache::after_get(c, key, now).kept.len() <= c.limit,
{
    lemma_without_len(c.kept, key);
}

proof fn lemma_le_len(n: int, width: nat)
    ensures
        snapshot::le(n, width).len() == width,
    decreases width,
{
    if width > 0 {
        lemma_le_len(n / 256, (width - 1) as nat);
    }
}

/// A number that fits is read as it was written.
proof fn lemma_le_value_of_le(n: int, width: nat)
    requires
        0 <= n < snapshot::range_of(width),
    ensures
        snapshot::le_value(snapshot::le(n, width)) == n,
    decreases width,
{
    if width > 0 {
        let rest = snapshot::le(n / 256, (width - 1) as nat);
        assert(snapshot::le(n, width).drop_first() =~= rest);
        lemma_le_value_of_le(n / 256, (width - 1) as nat);
    }
}

proof fn lemma_number(n: int, width: nat, rest: Seq<u8>)
    requires
        0 <= n < snapshot::range_of(width),
    ensures
        snapshot::number(snapshot::le(n, width) + rest, width) == Some((n as nat, rest)),
{
    lemma_le_len(n, width);
    lemma_le_value_of_le(n, width);
    let s = snapshot::le(n, width) + rest;
    assert(s.take(width as int) =~= snapshot::le(n, width));
    assert(s.skip(width as int) =~= rest);
}

proof fn lemma_ranges()
    ensures
        snapshot::range_of(1) == 0x100,
        snapshot::range_of(2) == 0x1_0000,
        snapshot::range_of(4) == 0x1_0000_0000,
        snapshot::range_of(8) == 0x1_0000_0000_0000_0000,
{
    reveal_with_fuel(snapshot::range_of, 9);
}

proof fn lemma_chunk(bytes: Seq<u8>, width: nat, rest: Seq<u8>)
    requires
        bytes.len() < snapshot::range_of(width),
    ensures
        snapshot::chunk(snapshot::le(bytes.len() as int, width) + (bytes + rest), width) == Some(
            (bytes, rest),
        ),
{
    lemma_number(bytes.len() as int, width, bytes + rest);
    assert((bytes + rest).take(bytes.len() as int) =~= bytes);
    assert((bytes + rest).skip(bytes.len() as int) =~= rest);
}

proof fn lemma_text_read(t: Seq<char>)
    ensures
        snapshot::text_in(vstd::utf8::encode_utf8(t)) == t,
{
    vstd::utf8::encode_utf8_valid_utf8(t);
    vstd::utf8::encode_utf8_decode_utf8(t);
}

proof fn lemma_text(t: Seq<char>, rest: Seq<u8>)
    requires
        text::utf8_len(t) < 65536,
    ensures
        snapshot::chunk(snapshot::text_bytes(t) + rest, 2) == Some(
            (vstd::utf8::encode_utf8(t), rest),
        ),
        snapshot::text_in(vstd::utf8::encode_utf8(t)) == t,
{
    lemma_ranges();
    let bytes = vstd::utf8::encode_utf8(t);
    lemma_text_read(t);
    lemma_chunk(bytes, 2, rest);
    assert(snapshot::text_bytes(t) + rest =~= snapshot::le(bytes.len() as int, 2) + (bytes + rest));
}

proof fn lemma_texts(v: Seq<Seq<char>>, rest: Seq<u8>)
    requires
        forall|i: int| 0 <= i < v.len() ==> text::utf8_len(#[trigger] v[i]) < 65536,
    ensures
        snapshot::texts_at(snapshot::texts_bytes(v) + rest, v.len()) == Some((v, rest)),
    decreases v.len(),
{
    if v.len() == 0 {
        assert(snapshot::texts_bytes(v) + rest =~= rest);
        assert(v =~= Seq::empty());
    } else {
        let more = v.drop_first();
        lemma_texts(more, rest);
        lemma_text(v[0], snapshot::texts_bytes(more) + rest);
        assert(snapshot::texts_bytes(v) + rest =~= snapshot::text_bytes(v[0]) + (
        snapshot::texts_bytes(more) + rest));
        assert(seq![v[0]] + more =~= v);
    }
}

proof fn lemma_numbers(v: Seq<u32>, rest: Seq<u8>)
    ensures
        snapshot::numbers_at(snapshot::numbers_bytes(v) + rest, v.len()) == Some((v, rest)),
    decreases v.len(),
{
    if v.len() == 0 {
        assert(snapshot::numbers_bytes(v) + rest =~= rest);
        assert(v =~= Seq::empty());
    } else {
        let more = v.drop_first();
        lemma_ranges();
        lemma_numbers(more, rest);
        lemma_number(v[0] as int, 4, snapshot::numbers_bytes(more) + rest);
        assert(snapshot::numbers_bytes(v) + rest =~= snapshot::le(v[0] as int, 4) + (
        snapshot::numbers_bytes(more) + rest));
        assert(seq![v[0]] + more =~= v);
    }
}

/// Whether a record can be read again: nothing in it is too long, its message
/// answers the question that it is filed under, and the TTL offsets lie within the
/// message.
pub open spec fn readable(v: SavedView) -> bool {
    &&& text::utf8_len(v.key.name) < 65536
    &&& v.answers.len() <= snapshot::MAX_SNAPSHOT_ANSWERS
    &&& forall|i: int|
        0 <= i < v.answers.len() ==> text::utf8_len(#[trigger] v.answers[i]) < 65536
    &&& v.bytes.len() <= snapshot::MAX_SNAPSHOT_WIRE_LEN
    &&& v.ttl_offsets.len() <= snapshot::MAX_SNAPSHOT_TTL_OFFSETS
    &&& snapshot::answers_key(v.bytes, v.key)
    &&& snapshot::offsets_fit(v.ttl_offsets, v.bytes.len())
}

proof fn lemma_head(v: SavedView, rest: Seq<u8>)
    requires
        text::utf8_len(v.key.name) < 65536,
    ensures
        snapshot::head_at(snapshot::head_bytes(v) + rest) == Some(
            ((v.key, v.age as nat, v.ttl as nat, v.rcode as nat), rest),
        ),
{
    lemma_ranges();
    let s6 = snapshot::le(v.rcode as int, 2) + rest;
    let s5 = snapshot::le(v.ttl as int, 4) + s6;
    let s4 = snapshot::le(v.age as int, 4) + s5;
    let s3 = snapshot::le(snapshot::flag_byte(v.key), 1) + s4;
    let s2 = snapshot::le(v.key.class as int, 2) + s3;
    let s1 = snapshot::le(v.key.rtype as int, 2) + s2;
    let s0 = snapshot::text_bytes(v.key.name) + s1;
    lemma_text(v.key.name, s1);
    lemma_number(v.key.rtype as int, 2, s2);
    lemma_number(v.key.class as int, 2, s3);
    lemma_number(snapshot::flag_byte(v.key), 1, s4);
    lemma_number(v.age as int, 4, s5);
    lemma_number(v.ttl as int, 4, s6);
    lemma_number(v.rcode as int, 2, rest);
    assert(snapshot::head_bytes(v) + rest =~= s0);
}

proof fn lemma_answers(v: Seq<Seq<char>>, rest: Seq<u8>)
    requires
        v.len() <= snapshot::MAX_SNAPSHOT_ANSWERS,
        forall|i: int| 0 <= i < v.len() ==> text::utf8_len(#[trigger] v[i]) < 65536,
    ensures
        snapshot::answers_at(
            snapshot::le((v.len() % 65536) as int, 2) + (snapshot::texts_bytes(v) + rest),
        ) == Some((v, rest)),
{
    lemma_ranges();
    lemma_number(v.len() as int, 2, snapshot::texts_bytes(v) + rest);
    lemma_texts(v, rest);
}

proof fn lemma_offsets(v: Seq<u32>, rest: Seq<u8>)
    requires
        v.len() <= snapshot::MAX_SNAPSHOT_TTL_OFFSETS,
    ensures
        snapshot::offsets_at(
            snapshot::le((v.len() % 0x1_0000_0000) as int, 4) + (snapshot::numbers_bytes(v) + rest),
        ) == Some((v, rest)),
{
    lemma_ranges();
    lemma_number(v.len() as int, 4, snapshot::numbers_bytes(v) + rest);
    lemma_numbers(v, rest);
}

proof fn lemma_wire(bytes: Seq<u8>, rest: Seq<u8>)
    requires
        bytes.len() <= snapshot::MAX_SNAPSHOT_WIRE_LEN,
    ensures
        snapshot::wire_at(
            snapshot::le((bytes.len() % 0x1_0000_0000) as int, 4) + (bytes + rest),
        ) == Some((bytes, rest)),
{
    lemma_ranges();
    lemma_chunk(bytes, 4, rest);
}

/// What follows the question in a record, and what follows the record.
spec fn body_then(v: SavedView, rest: Seq<u8>) -> Seq<u8> {
    snapshot::le((v.answers.len() % 65536) as int, 2) + (snapshot::texts_bytes(v.answers) + wire_then(
        v,
        rest,
    ))
}

spec fn wire_then(v: SavedView, rest: Seq<u8>) -> Seq<u8> {
    snapshot::le((v.bytes.len() % 0x1_0000_0000) as int, 4) + (v.bytes + offsets_then(v, rest))
}

spec fn offsets_then(v: SavedView, rest: Seq<u8>) -> Seq<u8> {
    snapshot::le((v.ttl_offsets.len() % 0x1_0000_0000) as int, 4) + (snapshot::numbers_bytes(
        v.ttl_offsets,
    ) + rest)
}

proof fn lemma_assoc(a: Seq<u8>, b: Seq<u8>, c: Seq<u8>)
    ensures
        (a + b) + c == a + (b + c),
{
    assert((a + b) + c =~= a + (b + c));
}

proof fn lemma_body_then(v: SavedView, rest: Seq<u8>)
    ensures
        snapshot::body_bytes(v) + rest == body_then(v, rest),
{
    let a = snapshot::le((v.answers.len() % 65536) as int, 2);
    let b = snapshot::texts_bytes(v.answers);
    let c = snapshot::le((v.bytes.len() % 0x1_0000_0000) as int, 4);
    let d = v.bytes;
    let e = snapshot::le((v.ttl_offsets.len() % 0x1_0000_0000) as int, 4);
    let f = snapshot::numbers_bytes(v.ttl_offsets);
    lemma_assoc(a, b + (c + (d + (e + f))), rest);
    lemma_assoc(b, c + (d + (e + f)), rest);
    lemma_assoc(c, d + (e + f), rest);
    lemma_assoc(d, e + f, rest);
    lemma_assoc(e, f, rest);
}

proof fn lemma_record_split(v: SavedView, rest: Seq<u8>)
    ensures
        snapshot::record_bytes(v) + rest == snapshot::head_bytes(v) + body_then(v, rest),
{
    reveal(snapshot::record_bytes);
    lemma_body_then(v, rest);
    lemma_assoc(snapshot::head_bytes(v), snapshot::body_bytes(v), rest);
}

/// A record is read as it was written.
pub proof fn law_record_round_trip(v: SavedView, rest: Seq<u8>)
    requires
        readable(v),
    ensures
        snapshot::record_at(snapshot::record_bytes(v) + rest) == Some((v, rest)),
{
    lemma_record_split(v, rest);
    lemma_head(v, body_then(v, rest));
    lemma_answers(v.answers, wire_then(v, rest));
    lemma_wire(v.bytes, offsets_then(v, rest));
    lemma_offsets(v.ttl_offsets, rest);
    lemma_record_parts(v, snapshot::record_bytes(v) + rest, body_then(v, rest), wire_then(v, rest), offsets_then(v, rest), rest);
}

proof fn lemma_record_parts(
    v: SavedView,
    s: Seq<u8>,
    body: Seq<u8>,
    wire: Seq<u8>,
    offsets: Seq<u8>,
    rest: Seq<u8>,
)
    requires
        readable(v),
        snapshot::head_at(s) == Some(((v.key, v.age as nat, v.ttl as nat, v.rcode as nat), body)),
        snapshot::answers_at(body) == Some((v.answers, wire)),
        snapshot::wire_at(wire) == Some((v.bytes, offsets)),
        snapshot::offsets_at(offsets) == Some((v.ttl_offsets, rest)),
    ensures
        snapshot::record_at(s) == Some((v, rest)),
{
}

proof fn lemma_records(v: Seq<SavedView>)
    requires
        forall|i: int| 0 <= i < v.len() ==> readable(#[trigger] v[i]),
    ensures
        snapshot::records_at(snapshot::records_bytes(v), v.len()) == v,
    decreases v.len(),
{
    if v.len() > 0 {
        let more = v.drop_first();
        assert forall|i: int| 0 <= i < more.len() implies readable(#[trigger] more[i]) by {
            assert(more[i] == v[i + 1]);
        }
        lemma_records(more);
        law_record_round_trip(v[0], snapshot::records_bytes(more));
        assert(seq![v[0]] + more =~= v);
    } else {
        assert(v =~= Seq::empty());
    }
}

/// A snapshot is read as it was written: every record that can be read again comes
/// back, in order, with the time that the snapshot was taken.
pub proof fn law_snapshot_round_trip(unix: u64, records: Seq<SavedView>)
    requires
        records.len() < 0x1_0000_0000,
        forall|i: int| 0 <= i < records.len() ==> readable(#[trigger] records[i]),
    ensures
        snapshot::snapshot_in(snapshot::snapshot_bytes(unix, records)) == Some((unix, records)),
{
    lemma_ranges();
    let body = snapshot::records_bytes(records);
    let s1 = snapshot::le(records.len() as int, 4) + body;
    let s0 = snapshot::le(unix as int, 8) + s1;
    let data = snapshot::snapshot_bytes(unix, records);
    assert(data =~= snapshot::magic() + s0);
    assert(data.take(8) =~= snapshot::magic());
    assert(data.skip(8) =~= s0);
    lemma_number(unix as int, 8, s1);
    lemma_number(records.len() as int, 4, body);
    lemma_records(records);
}

/// Whether no question occurs twice.
pub open spec fn distinct(kept: Kept) -> bool {
    forall|i: int, j: int|
        0 <= i < j < kept.len() ==> (#[trigger] kept[i]).0 != (#[trigger] kept[j]).0
}

/// Whether no record is for the question of another.
pub open spec fn distinct_records(v: Seq<SavedView>) -> bool {
    forall|i: int, j: int|
        0 <= i < j < v.len() ==> (#[trigger] v[i]).key != (#[trigger] v[j]).key
}

pub open spec fn has_record_for(v: Seq<SavedView>, key: KeyView) -> bool {
    exists|i: int| 0 <= i < v.len() && (#[trigger] v[i]).key == key
}

pub open spec fn has_entry_for(kept: Kept, key: KeyView) -> bool {
    exists|i: int| 0 <= i < kept.len() && (#[trigger] kept[i]).0 == key
}

proof fn lemma_lookup_is_entry(kept: Kept, key: KeyView)
    ensures
        lru_store::lookup(kept, key) is Some <==> has_entry_for(kept, key),
        lru_store::lookup(kept, key) matches Some(e) ==> exists|i: int|
            0 <= i < kept.len() && #[trigger] kept[i] == (key, e),
    decreases kept.len(),
{
    if kept.len() > 0 {
        let rest = kept.drop_first();
        lemma_lookup_is_entry(rest, key);
        if kept[0].0 == key {
            assert(kept[0] == (key, kept[0].1));
        } else {
            if lru_store::lookup(rest, key) is Some {
                let e = lru_store::lookup(rest, key)->0;
                let i = choose|i: int| 0 <= i < rest.len() && #[trigger] rest[i] == (key, e);
                assert(kept[i + 1] == (key, e));
            }
            if has_entry_for(kept, key) {
                let i = choose|i: int| 0 <= i < kept.len() && (#[trigger] kept[i]).0 == key;
                assert(rest[i - 1].0 == key);
            }
        }
    }
}

/// The records of entries are for different questions of theirs, and one is there
/// for each entry that is written.
proof fn lemma_saved(kept: Kept, stale_max_age: u32, now: u64)
    requires
        distinct(kept),
    ensures
        distinct_records(snapshot::saved_in(kept, stale_max_age, now)),
        forall|i: int|
            #![trigger snapshot::saved_in(kept, stale_max_age, now)[i]]
            0 <= i < snapshot::saved_in(kept, stale_max_age, now).len() ==> has_entry_for(
                kept,
                snapshot::saved_in(kept, stale_max_age, now)[i].key,
            ),
        forall|i: int|
            0 <= i < kept.len() ==> (snapshot::saved_of(
                (#[trigger] kept[i]).0,
                kept[i].1,
                stale_max_age,
                now,
            ) matches Some(v) ==> snapshot::saved_in(kept, stale_max_age, now).contains(v)),
        snapshot::saved_in(kept, stale_max_age, now).len() <= kept.len(),
    decreases kept.len(),
{
    if kept.len() > 0 {
        let init = kept.drop_last();
        let l = kept.len() - 1;
        assert forall|i: int, j: int| 0 <= i < j < init.len() implies (#[trigger] init[i]).0 != (
        #[trigger] init[j]).0 by {
            assert(kept[i].0 != kept[j].0);
        }
        lemma_saved(init, stale_max_age, now);
        let before = snapshot::saved_in(init, stale_max_age, now);
        let after = snapshot::saved_in(kept, stale_max_age, now);
        assert forall|k: int| 0 <= k < before.len() implies before[k].key != kept[l].0
            && has_entry_for(kept, (#[trigger] before[k]).key) by {
            let at = choose|i: int| 0 <= i < init.len() && (#[trigger] init[i]).0 == before[k].key;
            assert(kept[at].0 == before[k].key);
        }
        match snapshot::saved_of(kept[l].0, kept[l].1, stale_max_age, now) {
            Some(v) => {
                assert(after == before.push(v));
                assert(after[before.len() as int] == v);
                assert(kept[l].0 == v.key);
                assert forall|i: int| 0 <= i < kept.len() implies (snapshot::saved_of(
                    (#[trigger] kept[i]).0,
                    kept[i].1,
                    stale_max_age,
                    now,
                ) matches Some(w) ==> after.contains(w)) by {
                    if i < l {
                        assert(init[i] == kept[i]);
                        if let Some(w) = snapshot::saved_of(
                            kept[i].0,
                            kept[i].1,
                            stale_max_age,
                            now,
                        ) {
                            let at = choose|k: int| 0 <= k < before.len() && before[k] == w;
                            assert(after[at] == w);
                        }
                    }
                }
            },
            None => {
                assert forall|i: int| 0 <= i < kept.len() implies (snapshot::saved_of(
                    (#[trigger] kept[i]).0,
                    kept[i].1,
                    stale_max_age,
                    now,
                ) matches Some(w) ==> after.contains(w)) by {
                    if i < l {
                        assert(init[i] == kept[i]);
                    }
                }
            },
        }
    }
}

/// Records for different questions, restored into an empty cache that has room for
/// all of them, are all there.
proof fn lemma_restores(c: CacheView, records: Seq<SavedView>, elapsed: int, now: u64)
    requires
        distinct_records(records),
        c.kept.len() == 0,
        records.len() <= c.limit,
    ensures
        ({
            let after = snapshot::after_restores(c, records, elapsed, now);
            &&& after.kept.len() <= records.len()
            &&& after.limit == c.limit
            &&& after.cfg == c.cfg
            &&& forall|i: int|
                0 <= i < records.len() ==> lru_store::lookup(
                    after.kept,
                    (#[trigger] records[i]).key,
                ) == snapshot::revived(records[i], c.cfg.stale_max_age, elapsed, now)
            &&& forall|key: KeyView|
                !#[trigger] has_record_for(records, key) ==> lru_store::lookup(after.kept, key) is None
        }),
    decreases records.len(),
{
    if records.len() > 0 {
        let init = records.drop_last();
        let last = records.last();
        assert forall|i: int, j: int| 0 <= i < j < init.len() implies (#[trigger] init[i]).key != (
        #[trigger] init[j]).key by {
            assert(records[i].key != records[j].key);
        }
        lemma_restores(c, init, elapsed, now);
        let before = snapshot::after_restores(c, init, elapsed, now);
        let after = snapshot::after_restores(c, records, elapsed, now);
        if has_record_for(init, last.key) {
            let at = choose|i: int| 0 <= i < init.len() && (#[trigger] init[i]).key == last.key;
            assert(records[at].key != records[records.len() - 1].key);
        }
        assert(lru_store::lookup(before.kept, last.key) is None);
        match snapshot::revived(last, c.cfg.stale_max_age, elapsed, now) {
            None => {},
            Some(e) => {
                lru_store::lemma_lookup_after_put(before.kept, before.limit, last.key, e);
                assert(after.kept == seq![(last.key, e)] + before.kept);
                assert forall|key: KeyView| key != last.key implies #[trigger] lru_store::lookup(
                    after.kept,
                    key,
                ) == lru_store::lookup(before.kept, key) by {
                    lemma_lookup_other(before.kept, before.limit, last.key, e, key);
                }
            },
        }
        assert forall|i: int| 0 <= i < records.len() implies lru_store::lookup(
            after.kept,
            (#[trigger] records[i]).key,
        ) == snapshot::revived(records[i], c.cfg.stale_max_age, elapsed, now) by {
            if i < init.len() {
                assert(init[i] == records[i]);
                assert(records[i].key != records[records.len() - 1].key);
                assert(lru_store::lookup(before.kept, init[i].key) == snapshot::revived(
                    init[i],
                    c.cfg.stale_max_age,
                    elapsed,
                    now,
                ));
            } else {
                assert(records[i] == last);
            }
        }
        assert forall|key: KeyView| !#[trigger] has_record_for(records, key) implies lru_store::lookup(
            after.kept,
            key,
        ) is None by {
            assert(records[records.len() - 1].key == last.key);
            assert(key != last.key);
            if has_record_for(init, key) {
                let at = choose|i: int| 0 <= i < init.len() && (#[trigger] init[i]).key == key;
                assert(records[at].key == key);
            }
            assert(lru_store::lookup(before.kept, key) is None);
        }
    }
}

/// What is cached survives a restart: a snapshot of a cache, read into an empty
/// one with as much room, gives back each answer that can still be served, older by
/// the time between.
pub proof fn law_restart(
    c: CacheView,
    fresh: CacheView,
    key: KeyView,
    saved_unix: u64,
    saved_at: u64,
    unix: u64,
    now: u64,
)
    requires
        distinct(c.kept),
        c.kept.len() < 0x1_0000_0000,
        fresh.kept.len() == 0,
        c.kept.len() <= fresh.limit,
        ({
            let saved = snapshot::saved_in(c.kept, c.cfg.stale_max_age, saved_at);
            forall|i: int| 0 <= i < saved.len() ==> readable(#[trigger] saved[i])
        }),
    ensures
        ({
            let data = snapshot::snapshot_bytes(
                saved_unix,
                snapshot::saved_in(c.kept, c.cfg.stale_max_age, saved_at),
            );
            let elapsed = snapshot::elapsed_between(saved_unix, unix);
            &&& snapshot::snapshot_in(data) is Some
            &&& lru_store::lookup(
                snapshot::after_restores(
                    fresh,
                    (snapshot::snapshot_in(data)->0).1,
                    elapsed,
                    now,
                ).kept,
                key,
            ) == match lru_store::lookup(c.kept, key) {
                None => None,
                Some(e) => match snapshot::saved_of(key, e, c.cfg.stale_max_age, saved_at) {
                    None => None,
                    Some(v) => snapshot::revived(v, fresh.cfg.stale_max_age, elapsed, now),
                },
            }
        }),
{
    let stale = c.cfg.stale_max_age;
    let saved = snapshot::saved_in(c.kept, stale, saved_at);
    let elapsed = snapshot::elapsed_between(saved_unix, unix);
    lemma_saved(c.kept, stale, saved_at);
    law_snapshot_round_trip(saved_unix, saved);
    lemma_restores(fresh, saved, elapsed, now);
    lemma_lookup_is_entry(c.kept, key);
    let found = lru_store::lookup(c.kept, key);
    if found is Some && snapshot::saved_of(key, found->0, stale, saved_at) is Some {
        let at = choose|i: int| 0 <= i < c.kept.len() && #[trigger] c.kept[i] == (key, found->0);
        let v = snapshot::saved_of(key, found->0, stale, saved_at)->0;
        assert(saved.contains(v));
        let k = choose|k: int| 0 <= k < saved.len() && saved[k] == v;
        assert(saved[k].key == key);
    } else {
        if has_record_for(saved, key) {
            let k = choose|k: int| 0 <= k < saved.len() && (#[trigger] saved[k]).key == key;
            lemma_saved_from(c.kept, stale, saved_at, k);
            let at = choose|i: int|
                0 <= i < c.kept.len() && snapshot::saved_of(
                    (#[trigger] c.kept[i]).0,
                    c.kept[i].1,
                    stale,
                    saved_at,
                ) == Some(saved[k]);
            assert(c.kept[at].0 == key);
            let here = choose|i: int| 0 <= i < c.kept.len() && #[trigger] c.kept[i] == (
                key,
                found->0,
            );
            assert(c.kept[here].0 == key);
            assert(here == at);
            assert(false);
        }
    }
}

/// How many entries can be written to a snapshot: those in wire form that can still
/// be served.
pub open spec fn servable_count(kept: Kept, stale_max_age: u32, now: u64) -> nat {
    kept.filter(
        |p: (KeyView, EntryView)| snapshot::saved_of(p.0, p.1, stale_max_age, now) is Some,
    ).len()
}

proof fn lemma_servable(kept: Kept, stale_max_age: u32, now: u64)
    ensures
        snapshot::saved_in(kept, stale_max_age, now).len() == servable_count(
            kept,
            stale_max_age,
            now,
        ),
    decreases kept.len(),
{
    reveal(Seq::filter);
    if kept.len() > 0 {
        lemma_servable(kept.drop_last(), stale_max_age, now);
    }
}

/// Records that can all be cached again are all counted.
proof fn lemma_all_restored(records: Seq<SavedView>, stale_max_age: u32, elapsed: int, now: u64)
    requires
        forall|i: int|
            0 <= i < records.len() ==> snapshot::revived(
                #[trigger] records[i],
                stale_max_age,
                elapsed,
                now,
            ) is Some,
    ensures
        snapshot::restored_count(records, stale_max_age, elapsed, now) == records.len(),
    decreases records.len(),
{
    if records.len() > 0 {
        let init = records.drop_last();
        assert forall|i: int| 0 <= i < init.len() implies snapshot::revived(
            #[trigger] init[i],
            stale_max_age,
            elapsed,
            now,
        ) is Some by {
            assert(init[i] == records[i]);
        }
        lemma_all_restored(init, stale_max_age, elapsed, now);
        assert(records[records.len() - 1] == records.last());
    }
}

/// A snapshot that is read at once into an empty cache with the same settings and as
/// much room gives back all that could be written: as many entries are restored as can
/// still be served, and each is found as before, but for the verdict, which does not
/// survive. What does not begin as a snapshot does restores nothing.
pub proof fn law_restart_at_once(
    c: CacheView,
    fresh: CacheView,
    key: KeyView,
    id: u16,
    unix: u64,
    now: u64,
    other: Seq<u8>,
)
    requires
        distinct(c.kept),
        c.kept.len() < 0x1_0000_0000,
        fresh.kept.len() == 0,
        fresh.cfg == c.cfg,
        c.kept.len() <= fresh.limit,
        ({
            let saved = snapshot::saved_in(c.kept, c.cfg.stale_max_age, now);
            forall|i: int| 0 <= i < saved.len() ==> readable(#[trigger] saved[i])
        }),
    ensures
        ({
            let stale = c.cfg.stale_max_age;
            let data = snapshot::snapshot_bytes(unix, snapshot::saved_in(c.kept, stale, now));
            let elapsed = snapshot::elapsed_between(unix, unix);
            &&& snapshot::snapshot_in(data) matches Some((then, records)) && then == unix && {
                let after = snapshot::after_restores(fresh, records, elapsed, now);
                &&& snapshot::restored_count(records, stale, elapsed, now) == servable_count(
                    c.kept,
                    stale,
                    now,
                )
                &&& match lru_store::lookup(c.kept, key) {
                    None => cache::hit_of(after, key, id, now) is None,
                    Some(e) => snapshot::saved_of(key, e, stale, now) is Some
                        ==> cache::hit_of(after, key, id, now) == match cache::hit_of(
                        c,
                        key,
                        id,
                        now,
                    ) {
                        Some(hit) => Some(HitView { verdict: None, ..hit }),
                        None => None,
                    },
                }
            }
        }),
        (other.len() < snapshot::magic().len() || other.take(snapshot::magic().len() as int)
            != snapshot::magic()) ==> snapshot::snapshot_in(other) is None,
{
    let stale = c.cfg.stale_max_age;
    let saved = snapshot::saved_in(c.kept, stale, now);
    lemma_servable(c.kept, stale, now);
    lemma_saved(c.kept, stale, now);
    law_snapshot_round_trip(unix, saved);
    assert forall|k: int| 0 <= k < saved.len() implies snapshot::revived(
        #[trigger] saved[k],
        stale,
        0,
        now,
    ) is Some by {
        lemma_saved_from(c.kept, stale, now, k);
        let i = choose|i: int|
            0 <= i < c.kept.len() && snapshot::saved_of(
                (#[trigger] c.kept[i]).0,
                c.kept[i].1,
                stale,
                now,
            ) == Some(saved[k]);
        lemma_age_fits(c.kept[i].1, now);
    }
    lemma_all_restored(saved, stale, 0, now);
    law_restart(c, fresh, key, unix, now, unix, now);
    lemma_restores(fresh, saved, 0, now);
    if let Some(e) = lru_store::lookup(c.kept, key) {
        if let Some(v) = snapshot::saved_of(key, e, stale, now) {
            lemma_age_fits(e, now);
            assert(snapshot::revived(v, stale, 0, now) is Some);
            let again = snapshot::revived(v, stale, 0, now)->0;
            assert(cache::age_of(again, now) == cache::age_of(e, now));
        }
    }
}

/// The age of an entry goes back no further than the clock.
proof fn lemma_age_fits(e: EntryView, now: u64)
    ensures
        1000 * cache::age_of(e, now) <= now,
{
}

/// Each record is that of an entry.
proof fn lemma_saved_from(kept: Kept, stale_max_age: u32, now: u64, k: int)
    requires
        0 <= k < snapshot::saved_in(kept, stale_max_age, now).len(),
    ensures
        exists|i: int|
            0 <= i < kept.len() && snapshot::saved_of(
                (#[trigger] kept[i]).0,
                kept[i].1,
                stale_max_age,
                now,
            ) == Some(snapshot::saved_in(kept, stale_max_age, now)[k]),
    decreases kept.len(),
{
    let init = kept.drop_last();
    let before = snapshot::saved_in(init, stale_max_age, now);
    if k < before.len() {
        lemma_saved_from(init, stale_max_age, now, k);
        let i = choose|i: int|
            0 <= i < init.len() && snapshot::saved_of(
                (#[trigger] init[i]).0,
                init[i].1,
                stale_max_age,
                now,
            ) == Some(before[k]);
        assert(kept[i] == init[i]);
    } else {
        assert(kept[kept.len() - 1] == kept.last());
    }
}

/// Whatever is done with a cache, there is one entry for each question: an insertion, a
/// lookup, a restored record and another capacity keep it so.
pub proof fn law_one_entry_each(
    c: CacheView,
    key: KeyView,
    m: MessageView,
    verdict: Option<ResponseVerdictView>,
    now: u64,
    record: SavedView,
    elapsed: int,
    room: nat,
)
    requires
        distinct(c.kept),
        1 <= c.limit,
    ensures
        distinct(cache::after_insert(c, key, m, verdict, now).kept),
        distinct(cache::after_get(c, key, now).kept),
        distinct(snapshot::after_restore(c, record, elapsed, now).kept),
        distinct(lru_store::first_of(c.kept, room)),
{
    lemma_without_distinct(c.kept, key);
    if cache::cacheable(c.cfg, m) is Some {
        let e = EntryView {
            stored: cache::stored_form(c.cfg, m),
            stored_at: now,
            ttl: cache::cacheable(c.cfg, m)->0,
            verdict,
        };
        lemma_with_entry_distinct(c.kept, c.limit, key, e);
    }
    if let Some(e) = lru_store::lookup(c.kept, key) {
        lemma_with_entry_distinct(c.kept, c.limit, key, e);
    }
    if let Some(e) = snapshot::revived(record, c.cfg.stale_max_age, elapsed, now) {
        lemma_with_entry_distinct(c.kept, c.limit, record.key, e);
    }
}

proof fn lemma_with_entry_distinct(kept: Kept, limit: nat, key: KeyView, e: EntryView)
    requires
        distinct(kept),
        1 <= limit,
    ensures
        distinct(lru_store::with_entry(kept, limit, key, e)),
{
    lemma_without_distinct(kept, key);
    lemma_lookup_is_entry(kept, key);
    let rest = if lru_store::lookup(kept, key) is Some {
        lru_store::without(kept, key)
    } else if kept.len() == limit {
        kept.drop_last()
    } else {
        kept
    };
    let t = lru_store::with_entry(kept, limit, key, e);
    assert(t =~= seq![(key, e)] + rest);
    assert forall|i: int, j: int| 0 <= i < j < t.len() implies (#[trigger] t[i]).0 != (
    #[trigger] t[j]).0 by {
        assert(t[j] == rest[j - 1]);
        if i > 0 {
            assert(t[i] == rest[i - 1]);
        }
    }
}

proof fn lemma_without_distinct(kept: Kept, key: KeyView)
    requires
        distinct(kept),
    ensures
        distinct(lru_store::without(kept, key)),
        forall|i: int|
            0 <= i < lru_store::without(kept, key).len() ==> (#[trigger] lru_store::without(
                kept,
                key,
            )[i]).0 != key && has_entry_for(kept, lru_store::without(kept, key)[i].0),
    decreases kept.len(),
{
    reveal(Seq::filter);
    if kept.len() > 0 {
        let init = kept.drop_last();
        assert forall|i: int, j: int| 0 <= i < j < init.len() implies (#[trigger] init[i]).0 != (
        #[trigger] init[j]).0 by {
            assert(kept[i].0 != kept[j].0);
        }
        lemma_without_distinct(init, key);
        let before = lru_store::without(init, key);
        let l = kept.len() - 1;
        assert forall|k: int| 0 <= k < before.len() implies before[k].0 != kept[l].0
            && has_entry_for(kept, (#[trigger] before[k]).0) by {
            let at = choose|i: int| 0 <= i < init.len() && (#[trigger] init[i]).0 == before[k].0;
            assert(kept[at].0 == before[k].0);
        }
        assert(kept[l] == kept.last());
    }
}

} // verus!
