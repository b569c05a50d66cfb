//! TTL-aware DNS response cache with optional serve-stale.
//!
//! Times are in milliseconds of a clock that never goes back; ages and TTLs are in
//! seconds.

use std::hash::RandomState;

use vstd::prelude::*;

use crate::engine::lru_store;
use crate::engine::lru_store::{
    clear_store, key_tuple, new_store, peek, pop, put, resize, store_len, touch, verdict_in, Entry,
    EntryView, KeyTuple, Kept, ResponseVerdict, ResponseVerdictView, Stored, StoredView,
};
use crate::engine::wire;
use crate::engine::wire::{patch, scan_ttl_offsets};
use crate::message;
use crate::message::{
    copy_records, read_data, read_message, read_type, show_data, show_rtype, write_message, Data,
    DataView, DnsMessage, MessageView, Record, NO_ERROR, NX_DOMAIN, OP_QUERY,
};
use crate::text;
use crate::upstream::transport::{KeyView, QueryKey};

verus! {

/// Default negative-cache TTL when no SOA is present.
pub const DEFAULT_NEGATIVE_TTL: u32 = 30;

/// TTL (seconds) applied to records when serving a stale answer.
pub const STALE_SERVE_TTL: u32 = 1;

/// Response returned by a cache hit.
#[derive(Debug)]
pub enum CachedResponse {
    Wire { bytes: Vec<u8>, rcode: u16, answers: Vec<String> },
    Message(DnsMessage),
}

/// What a [`CachedResponse`] says.
pub enum CachedView {
    Wire { bytes: Seq<u8>, rcode: u16, answers: Seq<Seq<char>> },
    Message(MessageView),
}

impl View for CachedResponse {
    type V = CachedView;

    open spec fn view(&self) -> CachedView {
        match self {
            CachedResponse::Wire { bytes, rcode, answers } => CachedView::Wire {
                bytes: bytes@,
                rcode: *rcode,
                answers: text::texts(answers@),
            },
            CachedResponse::Message(m) => CachedView::Message(m@),
        }
    }
}

/// The message that bytes hold; an empty response where they hold none.
pub open spec fn decoded(bytes: Seq<u8>) -> MessageView {
    match message::wire_message(bytes) {
        Ok(m) => m,
        Err(_) => message::bare(0, true, OP_QUERY),
    }
}

/// Decodes bytes; an empty response where they hold no message.
pub fn decode_or_empty(bytes: &[u8]) -> (r: DnsMessage)
    ensures
        r@ == decoded(bytes@),
{
    match read_message(bytes) {
        Ok(m) => m,
        Err(_) => DnsMessage::new(0, true, OP_QUERY),
    }
}

/// The answers in a cached response, for response-side filtering.
pub open spec fn answers_in(r: CachedView) -> Seq<Record> {
    match r {
        CachedView::Wire { bytes, .. } => match message::wire_message(bytes) {
            Ok(m) => m.answers,
            Err(_) => Seq::empty(),
        },
        CachedView::Message(m) => m.answers,
    }
}

impl CachedResponse {
    /// Decodes the cached response.
    pub fn into_message(self) -> (r: DnsMessage)
        ensures
            r@ == match self@ {
                CachedView::Message(m) => m,
                CachedView::Wire { bytes, .. } => decoded(bytes),
            },
    {
        match self {
            CachedResponse::Message(m) => m,
            CachedResponse::Wire { bytes, .. } => decode_or_empty(bytes.as_slice()),
        }
    }

    /// Extracts cached answers for response-side filtering.
    pub fn cached_answers(&self) -> (r: Vec<Record>)
        ensures
            r@ == answers_in(self@),
    {
        match self {
            CachedResponse::Wire { bytes, .. } => match read_message(bytes.as_slice()) {
                Ok(m) => m.answers,
                Err(_) => Vec::new(),
            },
            CachedResponse::Message(m) => copy_records(&m.answers),
        }
    }
}

/// Encoded response returned while inserting a cache miss.
#[derive(Debug)]
pub struct InsertedWire {
    pub bytes: Vec<u8>,
    pub rcode: u16,
    pub answers: Vec<String>,
}

/// Freshness of a cache hit.
#[derive(Debug, Clone, Copy, PartialEq, Eq, Structural)]
pub enum HitFreshness {
    Fresh,
    /// Past TTL but within the serve-stale window: serve now, but the caller
    /// must kick off a background refresh to re-populate the entry.
    Stale,
}

impl HitFreshness {
    /// Whether the entry requires a background refresh.
    pub fn requires_refresh(self) -> (r: bool)
        ensures
            r == (self == HitFreshness::Stale),
    {
        match self {
            HitFreshness::Fresh => false,
            HitFreshness::Stale => true,
        }
    }
}

/// Result of a cache lookup.
#[derive(Debug)]
pub struct CacheHit {
    pub response: CachedResponse,
    pub freshness: HitFreshness,
    /// Cached response-filter verdict, if reusable.
    pub verdict: Option<ResponseVerdict>,
}

/// What a [`CacheHit`] says.
pub struct HitView {
    pub response: CachedView,
    pub freshness: HitFreshness,
    pub verdict: Option<ResponseVerdictView>,
}

impl View for CacheHit {
    type V = HitView;

    open spec fn view(&self) -> HitView {
        HitView {
            response: self.response@,
            freshness: self.freshness,
            verdict: verdict_in(self.verdict),
        }
    }
}

/// Cache tuning.
#[derive(Debug, Clone, Copy, PartialEq, Eq, Structural)]
pub struct CacheConfig {
    pub enabled: bool,
    pub min_ttl: u32,
    /// 0 means "no upper clamp".
    pub max_ttl: u32,
    /// Serve-stale window; 0 disables it.
    pub stale_max_age: u32,
    /// Stores answer summaries for query logging.
    pub store_summaries: bool,
}

/// Snapshot of lifetime cache counters.
#[derive(Debug, Clone, Copy, PartialEq, Eq, Structural)]
pub struct CacheCounters {
    pub hits: u64,
    pub misses: u64,
    /// Hits served within the stale window.
    pub stale_hits: u64,
    /// Background refreshes dispatched for stale hits.
    pub refreshes: u64,
    /// Failed background refreshes.
    pub refresh_failures: u64,
}

impl Default for CacheCounters {
    fn default() -> (r: CacheCounters)
        ensures
            r == no_counts(),
    {
        CacheCounters { hits: 0, misses: 0, stale_hits: 0, refreshes: 0, refresh_failures: 0 }
    }
}

pub open spec fn no_counts() -> CacheCounters {
    CacheCounters { hits: 0, misses: 0, stale_hits: 0, refreshes: 0, refresh_failures: 0 }
}

/// One more; the count wraps at its type's limit.
pub open spec fn tick(n: u64) -> u64 {
    if n == u64::MAX {
        0
    } else {
        (n + 1) as u64
    }
}

fn next(n: u64) -> (r: u64)
    ensures
        r == tick(n),
{
    if n == u64::MAX {
        0
    } else {
        n + 1
    }
}

/// TTL-aware DNS cache.
pub struct DnsCache {
    store: lru::LruCache<KeyTuple, Entry, RandomState>,
    cfg: CacheConfig,
    counts: CacheCounters,
}

/// What a [`DnsCache`] says.
#[verifier::ext_equal]
pub struct CacheView {
    /// The questions and what is cached for each, the most recently used first.
    pub kept: Kept,
    /// How many there can be.
    pub limit: nat,
    pub cfg: CacheConfig,
    pub counts: CacheCounters,
}

impl View for DnsCache {
    type V = CacheView;

    closed spec fn view(&self) -> CacheView {
        CacheView {
            kept: lru_store::kept(self.store),
            limit: lru_store::limit(self.store),
            cfg: self.cfg,
            counts: self.counts,
        }
    }
}

/// How many caches share the load of so many processors: the least power of two that
/// is no less, from 8 up to 64.
pub open spec fn shards_for(cpus: usize) -> usize {
    if cpus <= 8 {
        8
    } else if cpus <= 16 {
        16
    } else if cpus <= 32 {
        32
    } else {
        64
    }
}

/// Selects a power-of-two shard count near the CPU count.
pub fn shard_count(cpus: usize) -> (r: usize)
    ensures
        r == shards_for(cpus),
{
    let mut n: usize = 8;
    while n < 64 && n < cpus
        invariant
            n == 8 || n == 16 || n == 32 || n == 64,
            n > 8 ==> n / 2 < cpus,
        decreases 64 - n,
    {
        n = n * 2;
    }
    n
}

/// Capacity of one of several caches that share a total, never zero.
pub open spec fn share_of(total: usize, caches: usize) -> usize {
    if total / caches == 0 {
        1
    } else {
        total / caches
    }
}

/// Capacity of one of several caches that share a total, never zero.
pub fn shard_cap(total: usize, caches: usize) -> (r: usize)
    requires
        caches > 0,
    ensures
        r == share_of(total, caches),
        r > 0,
{
    let part: usize = total / caches;
    if part == 0 {
        1
    } else {
        part
    }
}

/// How many of several caches share a total: all of them, or where the total is
/// less, as many as it has entries for. Together they hold no more than the total.
pub fn shards_used(total: usize, caches: usize) -> (r: usize)
    requires
        total > 0,
        caches > 0,
    ensures
        r == if total < caches {
            total
        } else {
            caches
        },
        r * share_of(total, r) <= total,
{
    let used: usize = if total < caches {
        total
    } else {
        caches
    };
    proof {
        vstd::arithmetic::div_mod::lemma_fundamental_div_mod(total as int, used as int);
        vstd::arithmetic::div_mod::lemma_div_non_zero(total as int, used as int);
    }
    used
}

/// Whole seconds from one time to another, which are in milliseconds.
pub open spec fn seconds_between(then: u64, now: u64) -> int {
    if now <= then {
        0
    } else {
        (now - then) / 1000
    }
}

/// How old an entry is in seconds, as far as the count goes.
pub open spec fn age_of(e: EntryView, now: u64) -> u32 {
    if seconds_between(e.stored_at, now) > u32::MAX {
        u32::MAX
    } else {
        seconds_between(e.stored_at, now) as u32
    }
}

impl Entry {
    /// How old the entry is, in seconds.
    pub fn age_secs(&self, now: u64) -> (r: u32)
        ensures
            r == age_of(self@, now),
    {
        if now <= self.stored_at {
            return 0;
        }
        let secs: u64 = (now - self.stored_at) / 1000;
        if secs > u32::MAX as u64 {
            u32::MAX
        } else {
            secs as u32
        }
    }
}

/// Records with another TTL.
pub open spec fn with_record_ttls(v: Seq<Record>, ttl: u32) -> Seq<Record> {
    v.map_values(|r: Record| Record { ttl, ..r })
}

/// A message whose records all have this TTL.
pub open spec fn adjusted(m: MessageView, ttl: u32) -> MessageView {
    MessageView {
        answers: with_record_ttls(m.answers, ttl),
        authorities: with_record_ttls(m.authorities, ttl),
        additionals: with_record_ttls(m.additionals, ttl),
        ..m
    }
}

fn set_ttls(v: &mut Vec<Record>, ttl: u32)
    ensures
        final(v)@ == with_record_ttls(old(v)@, ttl),
{
    let ghost before = v@;
    let mut i: usize = 0;
    while i < v.len()
        invariant
            i <= v@.len(),
            v@.len() == before.len(),
            forall|k: int| 0 <= k < i ==> #[trigger] v@[k] == (Record { ttl, ..before[k] }),
            forall|k: int| i <= k < v@.len() ==> #[trigger] v@[k] == before[k],
        decreases v@.len() - i,
    {
        v[i].ttl = ttl;
        i = i + 1;
    }
    assert(v@ =~= with_record_ttls(before, ttl));
}

/// Clone a message with all record TTLs set to `ttl`.
pub fn adjust_ttls(message: &DnsMessage, ttl: u32) -> (r: DnsMessage)
    ensures
        r@ == adjusted(message@, ttl),
{
    let mut m: DnsMessage = message.copied();
    set_ttls(&mut m.answers, ttl);
    set_ttls(&mut m.authorities, ttl);
    set_ttls(&mut m.additionals, ttl);
    m
}

/// What is served of what is stored: under the caller's id, with the remaining
/// TTL in every record.
pub open spec fn served(stored: StoredView, id: u16, ttl: u32) -> CachedView {
    match stored {
        StoredView::Wire { bytes, ttl_offsets, rcode, answers } => CachedView::Wire {
            bytes: wire::with_ttls(wire::with_id(bytes, id), ttl, ttl_offsets),
            rcode,
            answers,
        },
        StoredView::Message(m) => CachedView::Message(MessageView { id, ..adjusted(m, ttl) }),
    }
}

/// Whether an entry can be served, and how fresh it is: fresh before its TTL has
/// passed, and stale for the serve-stale window after it.
pub open spec fn freshness_of(e: EntryView, stale_max_age: u32, now: u64) -> Option<HitFreshness> {
    let age = age_of(e, now);
    if age < e.ttl {
        Some(HitFreshness::Fresh)
    } else if age - e.ttl < stale_max_age {
        Some(HitFreshness::Stale)
    } else {
        None
    }
}

/// The TTL that an entry is served with: what is left of its own, or a second
/// where it is stale.
pub open spec fn served_ttl(e: EntryView, now: u64) -> u32 {
    if age_of(e, now) < e.ttl {
        (e.ttl - age_of(e, now)) as u32
    } else {
        STALE_SERVE_TTL
    }
}

/// What a lookup finds.
pub open spec fn hit_of(c: CacheView, key: KeyView, id: u16, now: u64) -> Option<HitView> {
    if !c.cfg.enabled {
        None
    } else {
        match lru_store::lookup(c.kept, key) {
            None => None,
            Some(e) => match freshness_of(e, c.cfg.stale_max_age, now) {
                None => None,
                Some(freshness) => Some(
                    HitView {
                        response: served(e.stored, id, served_ttl(e, now)),
                        freshness,
                        verdict: e.verdict,
                    },
                ),
            },
        }
    }
}

/// What a lookup makes of a cache: an entry that is served is used most recently,
/// and one that cannot be served any more goes. The lookup is counted.
pub open spec fn after_get(c: CacheView, key: KeyView, now: u64) -> CacheView {
    if !c.cfg.enabled {
        c
    } else {
        match lru_store::lookup(c.kept, key) {
            None => CacheView {
                counts: CacheCounters { misses: tick(c.counts.misses), ..c.counts },
                ..c
            },
            Some(e) => match freshness_of(e, c.cfg.stale_max_age, now) {
                None => CacheView {
                    kept: lru_store::without(c.kept, key),
                    counts: CacheCounters { misses: tick(c.counts.misses), ..c.counts },
                    ..c
                },
                Some(freshness) => CacheView {
                    kept: lru_store::touched(c.kept, key),
                    counts: CacheCounters {
                        hits: tick(c.counts.hits),
                        stale_hits: if freshness == HitFreshness::Stale {
                            tick(c.counts.stale_hits)
                        } else {
                            c.counts.stale_hits
                        },
                        ..c.counts
                    },
                    ..c
                },
            },
        }
    }
}

/// The least TTL among records; `most` where there is none.
pub open spec fn least_ttl(v: Seq<Record>, most: u32) -> u32
    decreases v.len(),
{
    if v.len() == 0 {
        most
    } else {
        let before = least_ttl(v.drop_last(), most);
        if v.last().ttl < before {
            v.last().ttl
        } else {
            before
        }
    }
}

/// The negative-cache TTL that the first SOA among authorities gives (RFC 2308:
/// the lesser of its minimum and its own TTL), at least a second; the default
/// where there is no SOA.
pub open spec fn soa_ttl(authorities: Seq<Record>) -> u32
    decreases authorities.len(),
{
    if authorities.len() == 0 {
        DEFAULT_NEGATIVE_TTL
    } else {
        match authorities[0]@.data {
            DataView::Soa(soa) => {
                let ttl = if soa.minimum < authorities[0].ttl {
                    soa.minimum
                } else {
                    authorities[0].ttl
                };
                if ttl == 0 {
                    1
                } else {
                    ttl
                }
            },
            _ => soa_ttl(authorities.drop_first()),
        }
    }
}

/// The TTL that a response gives: the least of its answers, or the negative one
/// where it has none.
pub open spec fn base_ttl(m: MessageView) -> u32 {
    if m.answers.len() > 0 {
        least_ttl(m.answers, u32::MAX)
    } else {
        soa_ttl(m.authorities)
    }
}

/// A TTL within the configured bounds.
pub open spec fn clamped(cfg: CacheConfig, ttl: u32) -> u32 {
    let raised = if ttl < cfg.min_ttl { cfg.min_ttl } else { ttl };
    if cfg.max_ttl != 0 && raised > cfg.max_ttl {
        cfg.max_ttl
    } else {
        raised
    }
}

/// The TTL for which a response may be cached: NOERROR and NXDOMAIN that are not
/// truncated, where the bounded TTL is not zero.
pub open spec fn cacheable(cfg: CacheConfig, m: MessageView) -> Option<u32> {
    if (m.response_code == NO_ERROR || m.response_code == NX_DOMAIN) && !m.truncation && clamped(
        cfg,
        base_ttl(m),
    ) != 0 {
        Some(clamped(cfg, base_ttl(m)))
    } else {
        None
    }
}

/// Derives a negative-cache TTL from an SOA.
pub fn negative_ttl(message: &DnsMessage) -> (r: u32)
    ensures
        r == soa_ttl(message@.authorities),
{
    let mut i: usize = 0;
    let ghost all = message.authorities@;
    assert(all.skip(0) =~= all);
    while i < message.authorities.len()
        invariant
            i <= message.authorities@.len(),
            all == message.authorities@,
            soa_ttl(all) == soa_ttl(all.skip(i as int)),
        decreases message.authorities@.len() - i,
    {
        let rec: &Record = &message.authorities[i];
        proof {
            assert(all.skip(i as int)[0] == *rec);
            assert(all.skip(i as int).drop_first() =~= all.skip(i + 1));
        }
        if let Data::SoaMinimum(minimum) = read_data(&rec.data) {
            let ttl: u32 = if minimum < rec.ttl {
                minimum
            } else {
                rec.ttl
            };
            return if ttl == 0 {
                1
            } else {
                ttl
            };
        }
        i = i + 1;
    }
    DEFAULT_NEGATIVE_TTL
}

/// Returns the clamped TTL for a cacheable response.
pub fn cacheable_ttl(cfg: &CacheConfig, message: &DnsMessage) -> (r: Option<u32>)
    ensures
        r == cacheable(*cfg, message@),
{
    if message.response_code != NO_ERROR && message.response_code != NX_DOMAIN {
        return None;
    }
    if message.truncation {
        return None;
    }
    let base: u32 = if message.answers.len() > 0 {
        let mut least: u32 = u32::MAX;
        let mut i: usize = 0;
        assert(message.answers@.take(0) =~= Seq::<Record>::empty());
        while i < message.answers.len()
            invariant
                i <= message.answers@.len(),
                least == least_ttl(message.answers@.take(i as int), u32::MAX),
            decreases message.answers@.len() - i,
        {
            proof {
                let upto = message.answers@.take(i + 1);
                assert(upto.drop_last() =~= message.answers@.take(i as int));
                assert(upto.last() == message.answers@[i as int]);
            }
            if message.answers[i].ttl < least {
                least = message.answers[i].ttl;
            }
            i = i + 1;
        }
        assert(message.answers@.take(i as int) =~= message.answers@);
        least
    } else {
        negative_ttl(message)
    };
    let raised: u32 = if base < cfg.min_ttl {
        cfg.min_ttl
    } else {
        base
    };
    let ttl: u32 = if cfg.max_ttl != 0 && raised > cfg.max_ttl {
        cfg.max_ttl
    } else {
        raised
    };
    if ttl == 0 {
        None
    } else {
        Some(ttl)
    }
}

/// A short answer summary, such as `A 1.2.3.4`: the type of a record and what its
/// data says, if anything.
pub open spec fn summary(r: Record) -> Seq<char> {
    message::rtype_text(message::data_type(r.data)) + " "@ + match message::rdata_text(r.data) {
        Some(data) => data,
        None => Seq::empty(),
    }
}

/// The summaries of some answers.
pub open spec fn summaries(v: Seq<Record>) -> Seq<Seq<char>> {
    v.map_values(|r: Record| summary(r))
}

/// A short summary of an answer.
fn summarize(rec: &Record) -> (r: String)
    ensures
        r@ == summary(*rec),
{
    let rtype: String = show_rtype(read_type(&rec.data));
    let data: String = match show_data(&rec.data) {
        Some(s) => s,
        None => String::new(),
    };
    rtype.concat(" ").concat(data.as_str())
}

/// Builds query-log answer summaries.
pub fn summarize_answers(v: &Vec<Record>) -> (r: Vec<String>)
    ensures
        text::texts(r@) == summaries(v@),
{
    let mut out: Vec<String> = Vec::new();
    let mut i: usize = 0;
    while i < v.len()
        invariant
            i <= v@.len(),
            out@.len() == i,
            forall|k: int| 0 <= k < i ==> (#[trigger] out@[k])@ == summary(v@[k]),
        decreases v@.len() - i,
    {
        out.push(summarize(&v[i]));
        i = i + 1;
    }
    assert(text::texts(out@) =~= summaries(v@));
    out
}

/// The TTL offsets of bytes that can be scanned.
pub open spec fn scanned_offsets(bytes: Seq<u8>) -> Option<Seq<u32>> {
    match wire::message_records(bytes) {
        Some(fields) => Some(wire::ttl_offsets(bytes, fields).map_values(|o: int| o as u32)),
        None => None,
    }
}

/// How a response is stored: as bytes where it can be encoded and scanned, or
/// else as a message.
pub open spec fn stored_form(cfg: CacheConfig, m: MessageView) -> StoredView {
    match message::message_wire(m) {
        Ok(bytes) => match scanned_offsets(bytes) {
            Some(ttl_offsets) => StoredView::Wire {
                bytes,
                ttl_offsets,
                rcode: m.response_code,
                answers: if cfg.store_summaries {
                    summaries(m.answers)
                } else {
                    Seq::empty()
                },
            },
            None => StoredView::Message(m),
        },
        Err(_) => StoredView::Message(m),
    }
}

/// What an insertion makes of a cache.
pub open spec fn after_insert(
    c: CacheView,
    key: KeyView,
    m: MessageView,
    verdict: Option<ResponseVerdictView>,
    now: u64,
) -> CacheView {
    if !c.cfg.enabled {
        c
    } else {
        match cacheable(c.cfg, m) {
            None => c,
            Some(ttl) => CacheView {
                kept: lru_store::with_entry(
                    c.kept,
                    c.limit,
                    key,
                    EntryView {
                        stored: stored_form(c.cfg, m),
                        stored_at: now,
                        ttl,
                        verdict,
                    },
                ),
                ..c
            },
        }
    }
}

fn copy_bytes(v: &Vec<u8>) -> (r: Vec<u8>)
    ensures
        r@ == v@,
{
    let mut out: Vec<u8> = Vec::new();
    out.extend_from_slice(v.as_slice());
    assert(out@ =~= v@);
    out
}

pub fn copy_texts(v: &Vec<String>) -> (r: Vec<String>)
    ensures
        text::texts(r@) == text::texts(v@),
{
    let mut out: Vec<String> = Vec::new();
    let mut i: usize = 0;
    while i < v.len()
        invariant
            i <= v@.len(),
            out@.len() == i,
            forall|k: int| 0 <= k < i ==> (#[trigger] out@[k])@ == v@[k]@,
        decreases v@.len() - i,
    {
        out.push(v[i].as_str().to_owned());
        i = i + 1;
    }
    assert(text::texts(out@) =~= text::texts(v@));
    out
}

fn serve(stored: &Stored, id: u16, ttl: u32) -> (r: CachedResponse)
    ensures
        r@ == served(stored@, id, ttl),
{
    match stored {
        Stored::Wire { bytes, ttl_offsets, rcode, answers } => {
            let mut out: Vec<u8> = copy_bytes(bytes);
            patch(out.as_mut_slice(), id, ttl, ttl_offsets.as_slice());
            CachedResponse::Wire { bytes: out, rcode: *rcode, answers: copy_texts(answers) }
        },
        Stored::Message(message) => {
            let mut m: DnsMessage = adjust_ttls(message, ttl);
            m.id = id;
            CachedResponse::Message(m)
        },
    }
}

impl DnsCache {
    pub fn new(capacity: usize, min_ttl: u32, max_ttl: u32, stale_max_age: u32) -> (r: DnsCache)
        ensures
            r@ == (CacheView {
                kept: Seq::empty(),
                limit: if capacity == 0 {
                    1
                } else {
                    capacity as nat
                },
                cfg: CacheConfig {
                    enabled: true,
                    min_ttl,
                    max_ttl,
                    stale_max_age,
                    store_summaries: true,
                },
                counts: no_counts(),
            }),
    {
        let capacity: usize = if capacity == 0 {
            1
        } else {
            capacity
        };
        let store: lru::LruCache<KeyTuple, Entry, RandomState> = new_store(capacity);
        assert(lru_store::kept(store) =~= Seq::empty());
        DnsCache {
            store,
            cfg: CacheConfig { enabled: true, min_ttl, max_ttl, stale_max_age, store_summaries: true },
            counts: CacheCounters::default(),
        }
    }

    /// Apply new tuning at runtime (config hot-reload). Resizes if needed; a
    /// cache that is switched off forgets everything.
    pub fn reconfigure(
        &mut self,
        enabled: bool,
        capacity: usize,
        min_ttl: u32,
        max_ttl: u32,
        stale_max_age: u32,
    )
        ensures
            ({
                let room: nat = if capacity == 0 {
                    1
                } else {
                    capacity as nat
                };
                final(self)@ == (CacheView {
                    kept: if !enabled {
                        Seq::empty()
                    } else if room == old(self)@.limit {
                        old(self)@.kept
                    } else {
                        lru_store::first_of(old(self)@.kept, room)
                    },
                    limit: room,
                    cfg: CacheConfig {
                        enabled,
                        min_ttl,
                        max_ttl,
                        stale_max_age,
                        ..old(self)@.cfg
                    },
                    ..old(self)@
                })
            }),
    {
        self.cfg = CacheConfig {
            enabled,
            min_ttl,
            max_ttl,
            stale_max_age,
            store_summaries: self.cfg.store_summaries,
        };
        let room: usize = if capacity == 0 {
            1
        } else {
            capacity
        };
        resize(&mut self.store, room);
        if !enabled {
            self.clear();
        }
    }

    pub fn is_enabled(&self) -> (r: bool)
        ensures
            r == self@.cfg.enabled,
    {
        self.cfg.enabled
    }

    /// Enables answer summaries for newly inserted entries.
    pub fn set_store_summaries(&mut self, store: bool)
        ensures
            final(self)@ == (CacheView {
                cfg: CacheConfig { store_summaries: store, ..old(self)@.cfg },
                ..old(self)@
            }),
    {
        self.cfg.store_summaries = store;
    }

    pub fn clear(&mut self)
        ensures
            final(self)@ == (CacheView { kept: Seq::empty(), ..old(self)@ }),
    {
        clear_store(&mut self.store);
        assert(lru_store::kept(self.store) =~= Seq::empty());
    }

    pub fn len(&self) -> (r: usize)
        ensures
            r == self@.kept.len(),
    {
        store_len(&self.store)
    }

    pub fn is_empty(&self) -> (r: bool)
        ensures
            r == (self@.kept.len() == 0),
    {
        store_len(&self.store) == 0
    }

    pub fn hit_count(&self) -> (r: u64)
        ensures
            r == self@.counts.hits,
    {
        self.counts.hits
    }

    pub fn miss_count(&self) -> (r: u64)
        ensures
            r == self@.counts.misses,
    {
        self.counts.misses
    }

    pub fn stale_hit_count(&self) -> (r: u64)
        ensures
            r == self@.counts.stale_hits,
    {
        self.counts.stale_hits
    }

    pub fn refresh_count(&self) -> (r: u64)
        ensures
            r == self@.counts.refreshes,
    {
        self.counts.refreshes
    }

    pub fn refresh_failure_count(&self) -> (r: u64)
        ensures
            r == self@.counts.refresh_failures,
    {
        self.counts.refresh_failures
    }

    /// Returns all lifetime counters.
    pub fn counters(&self) -> (r: CacheCounters)
        ensures
            r == self@.counts,
    {
        self.counts
    }

    /// Records a dispatched background refresh.
    pub fn note_refresh_started(&mut self)
        ensures
            final(self)@ == (CacheView {
                counts: CacheCounters {
                    refreshes: tick(old(self)@.counts.refreshes),
                    ..old(self)@.counts
                },
                ..old(self)@
            }),
    {
        self.counts.refreshes = next(self.counts.refreshes);
    }

    /// Records a failed background refresh.
    pub fn note_refresh_failed(&mut self)
        ensures
            final(self)@ == (CacheView {
                counts: CacheCounters {
                    refresh_failures: tick(old(self)@.counts.refresh_failures),
                    ..old(self)@.counts
                },
                ..old(self)@
            }),
    {
        self.counts.refresh_failures = next(self.counts.refresh_failures);
    }

    /// Restores lifetime counters.
    pub fn seed_counters(&mut self, c: CacheCounters)
        ensures
            final(self)@ == (CacheView { counts: c, ..old(self)@ }),
    {
        self.counts = c;
    }

    /// Resets lifetime counters.
    pub fn reset_counters(&mut self)
        ensures
            final(self)@ == (CacheView { counts: no_counts(), ..old(self)@ }),
    {
        self.seed_counters(CacheCounters::default());
    }

    /// Returns a response with its remaining TTL and transaction id patched.
    pub fn get(&mut self, key: &QueryKey, id: u16, now: u64) -> (r: Option<CacheHit>)
        ensures
            match hit_of(old(self)@, key@, id, now) {
                Some(v) => r matches Some(hit) && hit@ == v,
                None => r is None,
            },
            final(self)@ == after_get(old(self)@, key@, now),
    {
        if !self.cfg.enabled {
            return None;
        }
        let tuple: KeyTuple = key_tuple(key);
        let found: Option<(CacheHit, HitFreshness)> = match peek(&self.store, &tuple) {
            None => {
                self.counts.misses = next(self.counts.misses);
                return None;
            },
            Some(entry) => {
                let age: u32 = entry.age_secs(now);
                let verdict: Option<ResponseVerdict> = match &entry.verdict {
                    Some(v) => Some(v.copied()),
                    None => None,
                };
                if age < entry.ttl {
                    let response: CachedResponse = serve(&entry.stored, id, entry.ttl - age);
                    let freshness: HitFreshness = HitFreshness::Fresh;
                    Some((CacheHit { response, freshness, verdict }, freshness))
                } else if age - entry.ttl < self.cfg.stale_max_age {
                    let response: CachedResponse = serve(&entry.stored, id, STALE_SERVE_TTL);
                    let freshness: HitFreshness = HitFreshness::Stale;
                    Some((CacheHit { response, freshness, verdict }, freshness))
                } else {
                    None
                }
            },
        };
        match found {
            Some((hit, freshness)) => {
                let _ = touch(&mut self.store, &tuple);
                if freshness.requires_refresh() {
                    self.counts.stale_hits = next(self.counts.stale_hits);
                }
                self.counts.hits = next(self.counts.hits);
                Some(hit)
            },
            None => {
                pop(&mut self.store, &tuple);
                self.counts.misses = next(self.counts.misses);
                None
            },
        }
    }

    /// Inserts a raw response without a cached filter verdict.
    pub fn insert(&mut self, key: QueryKey, message: &DnsMessage, now: u64)
        ensures
            final(self)@ == after_insert(old(self)@, key@, message@, None, now),
    {
        let _ = self.insert_returning(key, message, None, now);
    }

    /// Inserts a raw response and client-independent filter verdict.
    pub fn insert_with_verdict(
        &mut self,
        key: QueryKey,
        message: &DnsMessage,
        verdict: Option<ResponseVerdict>,
        now: u64,
    )
        ensures
            final(self)@ == after_insert(old(self)@, key@, message@, verdict_in(verdict), now),
    {
        let _ = self.insert_returning(key, message, verdict, now);
    }

    /// Inserts a response and returns its encoded wire form when available.
    pub fn insert_returning(
        &mut self,
        key: QueryKey,
        message: &DnsMessage,
        verdict: Option<ResponseVerdict>,
        now: u64,
    ) -> (r: Option<InsertedWire>)
        ensures
            final(self)@ == after_insert(old(self)@, key@, message@, verdict_in(verdict), now),
            if old(self)@.cfg.enabled && cacheable(old(self)@.cfg, message@) is Some {
                match stored_form(old(self)@.cfg, message@) {
                    StoredView::Wire { bytes, rcode, answers, .. } => r matches Some(w) && w.bytes@
                        == bytes && w.rcode == rcode && text::texts(w.answers@) == answers,
                    StoredView::Message(_) => r is None,
                }
            } else {
                r is None
            },
    {
        if !self.cfg.enabled {
            return None;
        }
        let ttl: u32 = match cacheable_ttl(&self.cfg, message) {
            Some(t) => t,
            None => {
                return None;
            },
        };
        let (stored, inserted): (Stored, Option<InsertedWire>) = match write_message(message) {
            Ok(bytes) => match scan_ttl_offsets(bytes.as_slice()) {
                Some(offsets) => {
                    let rcode: u16 = message.response_code;
                    let answers: Vec<String> = if self.cfg.store_summaries {
                        summarize_answers(&message.answers)
                    } else {
                        let none: Vec<String> = Vec::new();
                        assert(text::texts(none@) =~= Seq::<Seq<char>>::empty());
                        none
                    };
                    let inserted = InsertedWire {
                        bytes: copy_bytes(&bytes),
                        rcode,
                        answers: copy_texts(&answers),
                    };
                    (Stored::Wire { bytes, ttl_offsets: offsets, rcode, answers }, Some(inserted))
                },
                None => (Stored::Message(message.copied()), None),
            },
            Err(_) => (Stored::Message(message.copied()), None),
        };
        let entry = Entry { stored, stored_at: now, ttl, verdict };
        self.keep(&key, entry);
        inserted
    }

    /// Keeps an entry for a question.
    pub(crate) fn keep(&mut self, key: &QueryKey, entry: Entry)
        ensures
            final(self)@ == (CacheView {
                kept: lru_store::with_entry(old(self)@.kept, old(self)@.limit, key@, entry@),
                ..old(self)@
            }),
    {
        put(&mut self.store, key_tuple(key), entry);
    }

    /// The serve-stale window.
    pub(crate) fn stale_max_age(&self) -> (r: u32)
        ensures
            r == self@.cfg.stale_max_age,
    {
        self.cfg.stale_max_age
    }

    /// The questions and what is cached for each, the most recently used first.
    pub(crate) fn pairs(&self) -> (r: Vec<(&KeyTuple, &Entry)>)
        ensures
            lru_store::pair_views(r@) == self@.kept,
    {
        lru_store::pairs(&self.store)
    }
}

} // verus!
