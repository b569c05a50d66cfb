//! What holds of how long responses are cached and served.

use vstd::prelude::*;

use crate::engine::cache;
use crate::engine::cache::{CacheConfig, CacheView, HitFreshness};
use crate::engine::lru_store;
use crate::engine::lru_store::{EntryView, ResponseVerdictView};
use crate::message::{MessageView, Record};
use crate::upstream::transport::KeyView;

verus! {

/// The least TTL is that of a record, and no record has a lesser one.
proof fn lemma_least_ttl(v: Seq<Record>)
    ensures
        forall|i: int| 0 <= i < v.len() ==> cache::least_ttl(v, u32::MAX) <= (#[trigger] v[i]).ttl,
        v.len() > 0 ==> exists|i: int|
            0 <= i < v.len() && cache::least_ttl(v, u32::MAX) == (#[trigger] v[i]).ttl,
    decreases v.len(),
{
    if v.len() > 0 {
        let init = v.drop_last();
        lemma_least_ttl(init);
        assert forall|i: int| 0 <= i < v.len() implies cache::least_ttl(v, u32::MAX) <= (
        #[trigger] v[i]).ttl by {
            if i < init.len() {
                assert(init[i] == v[i]);
            }
        }
        let least = cache::least_ttl(v, u32::MAX);
        if least == v.last().ttl {
            assert(v[v.len() - 1].ttl == least);
        } else {
            if init.len() == 0 {
                assert(least == v.last().ttl);
            }
            let i = choose|i: int|
                0 <= i < init.len() && cache::least_ttl(init, u32::MAX) == (#[trigger] init[i]).ttl;
            assert(v[i].ttl == least);
        }
    }
}

/// The negative TTL comes from the first SOA.
proof fn lemma_soa_ttl(v: Seq<Record>, k: int)
    requires
        0 <= k <= v.len(),
        forall|j: int| 0 <= j < k ==> !((#[trigger] v[j])@.data is Soa),
    ensures
        cache::soa_ttl(v) == cache::soa_ttl(v.skip(k)),
    decreases k,
{
    if k > 0 {
        let rest = v.drop_first();
        assert forall|j: int| 0 <= j < k - 1 implies !((#[trigger] rest[j])@.data is Soa) by {
            assert(rest[j] == v[j + 1]);
        }
        assert(!(v[0]@.data is Soa));
        lemma_soa_ttl(rest, k - 1);
        assert(rest.skip(k - 1) =~= v.skip(k));
    } else {
        assert(v.skip(0) =~= v);
    }
}

/// Whether `ttl` is `wanted` brought within bounds: not below the lower one, and not
/// above the upper one where there is one, which wins where they cross.
pub open spec fn is_bounded(cfg: CacheConfig, wanted: int, ttl: int) -> bool {
    &&& cfg.max_ttl != 0 ==> ttl <= cfg.max_ttl
    &&& ttl < wanted ==> cfg.max_ttl != 0 && ttl == cfg.max_ttl
    &&& ttl > wanted ==> ttl <= cfg.min_ttl
    &&& ttl < cfg.min_ttl ==> cfg.max_ttl != 0 && ttl == cfg.max_ttl
}

/// How long a response without answers is cached, whether it denies the name or has no
/// data for the type: for the lesser of the TTL and the minimum of its first SOA, but a
/// second at least, brought within the configured bounds; without an SOA for 30
/// seconds, brought within them too.
pub proof fn law_negative_ttl(cfg: CacheConfig, m: MessageView, k: int)
    requires
        m.answers.len() == 0,
        m.response_code == 0 || m.response_code == 3,
        !m.truncation,
        0 <= k <= m.authorities.len(),
        forall|j: int| 0 <= j < k ==> !((#[trigger] m.authorities[j])@.data is Soa),
        k < m.authorities.len() ==> m.authorities[k]@.data is Soa,
    ensures
        cache::cacheable(cfg, m) matches Some(ttl) && is_bounded(
            cfg,
            if k == m.authorities.len() {
                30
            } else {
                let t = m.authorities[k].ttl;
                let least = (m.authorities[k]@.data->Soa_0).minimum;
                if t == 0 || least == 0 {
                    1
                } else if t < least {
                    t as int
                } else {
                    least as int
                }
            },
            ttl as int,
        ),
{
    lemma_soa_ttl(m.authorities, k);
    let rest = m.authorities.skip(k);
    if k < m.authorities.len() {
        assert(rest[0] == m.authorities[k]);
    }
}

/// How long a response with answers is cached: for the least TTL among them, brought
/// within the configured bounds; not at all where that is zero.
pub proof fn law_positive_ttl(cfg: CacheConfig, m: MessageView)
    requires
        m.answers.len() > 0,
        m.response_code == 0 || m.response_code == 3,
        !m.truncation,
    ensures
        exists|i: int|
            0 <= i < m.answers.len() && (forall|j: int|
                0 <= j < m.answers.len() ==> (#[trigger] m.answers[i]).ttl <= (
                #[trigger] m.answers[j]).ttl) && (match cache::cacheable(cfg, m) {
                Some(ttl) => ttl > 0 && is_bounded(cfg, m.answers[i].ttl as int, ttl as int),
                None => m.answers[i].ttl == 0 && cfg.min_ttl == 0,
            }),
{
    lemma_least_ttl(m.answers);
    let i = choose|i: int|
        0 <= i < m.answers.len() && cache::least_ttl(m.answers, u32::MAX) == (
        #[trigger] m.answers[i]).ttl;
    assert forall|j: int| 0 <= j < m.answers.len() implies (#[trigger] m.answers[i]).ttl <= (
    #[trigger] m.answers[j]).ttl by {}
}

/// Responses are cached where they say NOERROR (0) or NXDOMAIN (3) and are whole.
pub proof fn law_only_whole_answers_are_cached(cfg: CacheConfig, m: MessageView)
    ensures
        cache::cacheable(cfg, m) is Some ==> (m.response_code == 0 || m.response_code == 3)
            && !m.truncation,
        (m.response_code == 0 || m.response_code == 3) && !m.truncation && cfg.min_ttl > 0
            ==> cache::cacheable(cfg, m) is Some,
{
}

/// Nothing is served as fresh for longer than it says: without a lower bound on TTLs a
/// cached response is fresh only while less time has passed than each of its answers
/// lasts, and the TTL it is served with is no more than what is left of each.
pub proof fn law_fresh_while_answers_last(
    c: CacheView,
    key: KeyView,
    m: MessageView,
    verdict: Option<ResponseVerdictView>,
    stored: u64,
    now: u64,
    id: u16,
    i: int,
)
    requires
        c.cfg.enabled,
        c.cfg.min_ttl == 0,
        cache::cacheable(c.cfg, m) is Some,
        stored <= now,
        0 <= i < m.answers.len(),
    ensures
        cache::hit_of(cache::after_insert(c, key, m, verdict, stored), key, id, now) matches Some(
            hit,
        ) && hit.freshness == HitFreshness::Fresh ==> now - stored < 1000 * m.answers[i].ttl,
        lru_store::lookup(
            cache::after_insert(c, key, m, verdict, stored).kept,
            key,
        ) matches Some(e) && (now - stored < 1000 * e.ttl ==> 1000 * cache::served_ttl(e, now)
            < 1000 * m.answers[i].ttl - (now - stored) + 1000),
{
    lemma_least_ttl(m.answers);
    let e = EntryView {
        stored: cache::stored_form(c.cfg, m),
        stored_at: stored,
        ttl: cache::cacheable(c.cfg, m)->0,
        verdict,
    };
    lru_store::lemma_lookup_after_put(c.kept, c.limit, key, e);
    assert(e.ttl <= m.answers[i].ttl);
}

} // verus!
