//! The upstreams and the order in which they are tried.

use vstd::prelude::*;

use crate::text::same_text;
use crate::upstream::error::{ErrorView, UpstreamError};
use crate::upstream::health;
use crate::upstream::health::{copy_text, Health, HealthView};
use crate::upstream::spec;
use crate::upstream::spec::{SpecView, TransportKind, UpstreamSpec};

verus! {

/// Least latency advantage that replaces a leader, in percent of the leader's
/// latency and in microseconds: the larger of the two counts. It prevents
/// connection churn between similarly fast upstreams.
pub const LEADER_STICKY_PERCENT: u64 = 15;

pub const LEADER_STICKY_FLOOR_US: u64 = 5_000;

/// One configured upstream as seen by the pool.
#[derive(Debug, Clone)]
pub struct PoolEntry {
    pub spec: String,
    pub name: Option<String>,
}

/// Pool-wide tuning.
#[derive(Debug, Clone, Copy, PartialEq, Eq, Structural)]
pub struct PoolSettings {
    /// Per-attempt query timeout in milliseconds.
    pub query_timeout_ms: u64,
    /// Consecutive failures before an upstream is marked down.
    pub failure_threshold: u32,
}

impl Default for PoolSettings {
    fn default() -> (r: PoolSettings)
        ensures
            r == (PoolSettings { query_timeout_ms: 5_000, failure_threshold: 2 }),
    {
        PoolSettings { query_timeout_ms: 5_000, failure_threshold: 2 }
    }
}

/// A single upstream and its live health.
#[derive(Debug)]
pub struct Upstream {
    pub spec: UpstreamSpec,
    pub name: String,
    pub health: Health,
}

/// What an [`Upstream`] says.
pub struct UpstreamView {
    pub spec: SpecView,
    pub name: Seq<char>,
    pub health: HealthView,
}

impl View for Upstream {
    type V = UpstreamView;

    open spec fn view(&self) -> UpstreamView {
        UpstreamView { spec: self.spec@, name: self.name@, health: self.health@ }
    }
}

/// What the statistics show of an upstream.
#[derive(Debug, Clone)]
pub struct UpstreamStat {
    pub spec: String,
    pub name: String,
    pub kind: TransportKind,
    pub up: bool,
    pub avg_rtt_us: Option<u64>,
    pub last_rtt_us: Option<u64>,
    pub total_queries: u64,
    pub total_failures: u64,
    pub last_error: Option<String>,
}

/// Whether a statistic shows what an upstream says.
pub open spec fn shows(stat: UpstreamStat, up: UpstreamView) -> bool {
    &&& stat.spec@ == up.spec.display
    &&& stat.name@ == up.name
    &&& stat.kind == up.spec.kind
    &&& stat.up == up.health.up
    &&& stat.avg_rtt_us == up.health.routing_latency()
    &&& stat.last_rtt_us == up.health.last_rtt_us
    &&& stat.total_queries == up.health.total_queries
    &&& stat.total_failures == up.health.total_failures
    &&& health::text_in(stat.last_error) == up.health.last_error
}

impl Upstream {
    pub fn stat(&self) -> (r: UpstreamStat)
        ensures
            shows(r, self@),
    {
        UpstreamStat {
            spec: self.spec.display.as_str().to_owned(),
            name: self.name.as_str().to_owned(),
            kind: self.spec.kind,
            up: self.health.up,
            avg_rtt_us: self.health.routing_latency_us(),
            last_rtt_us: self.health.last_rtt_us,
            total_queries: self.health.total_queries,
            total_failures: self.health.total_failures,
            last_error: copy_text(&self.health.last_error),
        }
    }
}

pub open spec fn upstream_views(v: Seq<Upstream>) -> Seq<UpstreamView> {
    v.map_values(|u: Upstream| u@)
}

/// The health of each upstream.
pub open spec fn healths(v: Seq<UpstreamView>) -> Seq<HealthView> {
    v.map_values(|u: UpstreamView| u.health)
}

/// The upstreams, and which of them leads.
#[derive(Debug)]
pub struct UpstreamPool {
    pub upstreams: Vec<Upstream>,
    pub leader: Option<usize>,
    pub settings: PoolSettings,
}

/// What an [`UpstreamPool`] says.
#[verifier::ext_equal]
pub struct PoolView {
    pub upstreams: Seq<UpstreamView>,
    pub leader: Option<int>,
    pub settings: PoolSettings,
}

/// A number in an option.
pub open spec fn index_in(i: Option<usize>) -> Option<int> {
    match i {
        Some(k) => Some(k as int),
        None => None,
    }
}

impl View for UpstreamPool {
    type V = PoolView;

    open spec fn view(&self) -> PoolView {
        PoolView {
            upstreams: upstream_views(self.upstreams@),
            leader: index_in(self.leader),
            settings: self.settings,
        }
    }
}

/// Whether the `a`-th upstream ranks before the `b`-th or is the same: by class,
/// then by latency in whole milliseconds, then as configured.
pub open spec fn ranks_before(hs: Seq<HealthView>, a: int, b: int) -> bool {
    let (x, y) = (hs[a], hs[b]);
    ||| x.class() < y.class()
    ||| x.class() == y.class() && x.rounded_ms() < y.rounded_ms()
    ||| x.class() == y.class() && x.rounded_ms() == y.rounded_ms() && a <= b
}

/// The upstreams from the best to the worst.
pub open spec fn ranking(hs: Seq<HealthView>) -> Seq<int> {
    Seq::new(hs.len(), |i: int| i).sort_by(|a: int, b: int| ranks_before(hs, a, b))
}

/// Whether a challenger's lead over an incumbent is too small to switch.
pub open spec fn within_margin(incumbent_us: u64, best_us: u64) -> bool {
    ||| 100 * (incumbent_us - best_us) <= LEADER_STICKY_PERCENT * incumbent_us
    ||| incumbent_us - best_us <= LEADER_STICKY_FLOOR_US
}

/// Whether the leader is held: it is in the ranking but not first, both it and
/// the first are eligible, and the first one's advantage is within the margin.
pub open spec fn leader_held(hs: Seq<HealthView>, leader: Option<int>) -> bool {
    &&& leader matches Some(cur) && 0 <= cur < hs.len() && ranking(hs)[0] != cur && (match (
        hs[cur].eligible_latency(),
        hs[ranking(hs)[0]].eligible_latency(),
    ) {
        (Some(inc), Some(best)) => within_margin(inc, best),
        _ => false,
    })
}

/// The order in which upstreams are asked: the ranking, with a held leader
/// moved to the front.
pub open spec fn selection(hs: Seq<HealthView>, leader: Option<int>) -> Seq<int> {
    if leader_held(hs, leader) {
        seq![leader->0] + ranking(hs).remove(ranking(hs).index_of(leader->0))
    } else {
        ranking(hs)
    }
}

/// Whether `r` is the ranking.
pub open spec fn is_ranking(hs: Seq<HealthView>, r: Seq<int>) -> bool {
    &&& r.len() == hs.len()
    &&& forall|i: int| 0 <= i < r.len() ==> 0 <= #[trigger] r[i] < hs.len()
    &&& forall|i: int, j: int|
        0 <= i < j < r.len() ==> r[i] != r[j] && #[trigger] ranks_before(hs, r[i], r[j])
}

proof fn lemma_ranks_total(hs: Seq<HealthView>)
    ensures
        vstd::relations::total_ordering(|a: int, b: int| ranks_before(hs, a, b)),
{
}

/// Each upstream occurs in the ranking once, and none before a better one.
pub proof fn law_ranking(hs: Seq<HealthView>)
    ensures
        is_ranking(hs, ranking(hs)),
        forall|k: int| 0 <= k < hs.len() ==> #[trigger] ranking(hs).contains(k),
{
    let ids = Seq::new(hs.len(), |i: int| i);
    let le = |a: int, b: int| ranks_before(hs, a, b);
    lemma_ranks_total(hs);
    ids.lemma_sort_by_ensures(le);
    let r = ranking(hs);
    assert(ids.no_duplicates());
    ids.lemma_multiset_has_no_duplicates();
    assert(r.to_multiset() == ids.to_multiset());
    vstd::seq_lib::to_multiset_len(r);
    vstd::seq_lib::to_multiset_len(ids);
    r.lemma_multiset_has_no_duplicates_conv();
    assert forall|i: int| 0 <= i < r.len() implies 0 <= #[trigger] r[i] < hs.len() by {
        assert(r.contains(r[i]));
        vstd::seq_lib::to_multiset_contains(r, r[i]);
        vstd::seq_lib::to_multiset_contains(ids, r[i]);
    }
    assert forall|k: int| 0 <= k < hs.len() implies #[trigger] r.contains(k) by {
        assert(ids[k] == k);
        assert(ids.contains(k));
        vstd::seq_lib::to_multiset_contains(r, k);
        vstd::seq_lib::to_multiset_contains(ids, k);
    }
    assert forall|i: int, j: int| 0 <= i < j < r.len() implies r[i] != r[j]
        && #[trigger] ranks_before(hs, r[i], r[j]) by {
        assert(le(r[i], r[j]));
    }
}

/// Each upstream is asked once.
pub proof fn law_selection_is_complete(hs: Seq<HealthView>, leader: Option<int>)
    ensures
        selection(hs, leader).len() == hs.len(),
        selection(hs, leader).no_duplicates(),
        forall|k: int| 0 <= k < hs.len() ==> #[trigger] selection(hs, leader).contains(k),
        forall|i: int| 0 <= i < hs.len() ==> 0 <= #[trigger] selection(hs, leader)[i] < hs.len(),
{
    law_ranking(hs);
    let r = ranking(hs);
    if leader_held(hs, leader) {
        let cur = leader->0;
        assert(r.contains(cur));
        let at = r.index_of(cur);
        assert(r[at] == cur);
        let s = selection(hs, leader);
        assert forall|i: int| 0 <= i < s.len() implies #[trigger] s[i] == (if i == 0 {
            cur
        } else if i <= at {
            r[i - 1]
        } else {
            r[i]
        }) by {}
        assert forall|k: int| 0 <= k < hs.len() implies #[trigger] s.contains(k) by {
            assert(r.contains(k));
            let p = r.index_of(k);
            assert(r[p] == k);
            if p == at {
                assert(s[0] == k);
            } else if p < at {
                assert(s[p + 1] == k);
            } else {
                assert(s[p] == k);
            }
        }
        assert forall|i: int, j: int| 0 <= i < s.len() && 0 <= j < s.len() && i != j implies s[i]
            != s[j] by {
            let pi = if i == 0 { at } else if i <= at { i - 1 } else { i };
            let pj = if j == 0 { at } else if j <= at { j - 1 } else { j };
            assert(s[i] == r[pi] && s[j] == r[pj]);
            if pi < pj {
                assert(ranks_before(hs, r[pi], r[pj]));
            } else {
                assert(ranks_before(hs, r[pj], r[pi]));
            }
        }
    } else {
        assert forall|i: int, j: int| 0 <= i < r.len() && 0 <= j < r.len() && i != j implies r[i]
            != r[j] by {
            if i < j {
                assert(ranks_before(hs, r[i], r[j]));
            } else {
                assert(ranks_before(hs, r[j], r[i]));
            }
        }
    }
}

/// An upstream that is down is asked after all that are up, and among those
/// that are up, one that was never sampled after all that were.
pub proof fn law_healthy_first(hs: Seq<HealthView>, leader: Option<int>, i: int, j: int)
    requires
        0 <= i < j < hs.len(),
    ensures
        !hs[selection(hs, leader)[i]].up ==> !hs[selection(hs, leader)[j]].up,
        hs[selection(hs, leader)[i]].up && hs[selection(hs, leader)[j]].up
            && hs[selection(hs, leader)[i]].probe_samples == 0
            ==> hs[selection(hs, leader)[j]].probe_samples == 0,
{
    law_ranking(hs);
    law_selection_is_complete(hs, leader);
    let r = ranking(hs);
    let s = selection(hs, leader);
    if leader_held(hs, leader) {
        let cur = leader->0;
        assert(r.contains(cur));
        let at = r.index_of(cur);
        if i > 0 {
            let pi = if i <= at { i - 1 } else { i };
            let pj = if j <= at { j - 1 } else { j };
            assert(s[i] == r[pi] && s[j] == r[pj]);
            assert(ranks_before(hs, r[pi], r[pj]));
        }
    } else {
        assert(ranks_before(hs, r[i], r[j]));
    }
}

/// A leader loses the lead only to an upstream whose advantage is past the
/// margin, unless one of the two is not eligible.
pub proof fn law_lead_is_sticky(hs: Seq<HealthView>, cur: int)
    requires
        0 <= cur < hs.len(),
        selection(hs, Some(cur))[0] != cur,
        hs[cur].eligible_latency() is Some,
        hs[selection(hs, Some(cur))[0]].eligible_latency() is Some,
    ensures
        !within_margin(
            hs[cur].eligible_latency()->0,
            hs[selection(hs, Some(cur))[0]].eligible_latency()->0,
        ),
{
}

/// Whether an upstream is up, was measured, and has not failed lately.
pub open spec fn is_clean(u: Upstream) -> bool {
    u.health.up && u.health.probe_samples > 0 && u.health.consecutive_failures == 0
}

/// The upstream that is asked first.
pub open spec fn first_asked(pool: UpstreamPool) -> Upstream {
    pool.upstreams@[selection(healths(pool@.upstreams), pool@.leader)[0]]
}

/// Among upstreams that are up, measured and without recent failures, one whose
/// measured latency is less by a millisecond or more ranks before the other; and of
/// two with the same latency the one that is configured first.
pub proof fn law_faster_ranks_first(ups: Seq<Upstream>, a: int, b: int)
    requires
        0 <= a < ups.len(),
        0 <= b < ups.len(),
        a != b,
        is_clean(ups[a]),
        is_clean(ups[b]),
        ups[a].health.probe_ewma_us + 1000 <= ups[b].health.probe_ewma_us || (
        ups[a].health.probe_ewma_us == ups[b].health.probe_ewma_us && a < b),
    ensures
        ({
            let order = ranking(healths(upstream_views(ups)));
            exists|i: int, j: int|
                0 <= i < j < order.len() && #[trigger] order[i] == a && #[trigger] order[j] == b
        }),
{
    let hs = healths(upstream_views(ups));
    let order = ranking(hs);
    law_ranking(hs);
    assert(hs[a] == ups[a].health@ && hs[b] == ups[b].health@);
    assert(order.contains(a) && order.contains(b));
    let i = choose|i: int| 0 <= i < order.len() && order[i] == a;
    let j = choose|j: int| 0 <= j < order.len() && order[j] == b;
    if j < i {
        assert(ranks_before(hs, order[j], order[i]));
    }
}

/// An upstream that is up, measured and without recent failures ranks before any that
/// is not.
pub proof fn law_clean_ranks_first(ups: Seq<Upstream>, a: int, b: int)
    requires
        0 <= a < ups.len(),
        0 <= b < ups.len(),
        is_clean(ups[a]),
        !is_clean(ups[b]),
    ensures
        ({
            let order = ranking(healths(upstream_views(ups)));
            exists|i: int, j: int|
                0 <= i < j < order.len() && #[trigger] order[i] == a && #[trigger] order[j] == b
        }),
{
    let hs = healths(upstream_views(ups));
    let order = ranking(hs);
    law_ranking(hs);
    assert(hs[a] == ups[a].health@ && hs[b] == ups[b].health@);
    assert(order.contains(a) && order.contains(b));
    let i = choose|i: int| 0 <= i < order.len() && order[i] == a;
    let j = choose|j: int| 0 <= j < order.len() && order[j] == b;
    if j < i {
        assert(ranks_before(hs, order[j], order[i]));
    }
}

/// A query goes to the fastest healthy upstream. Where any upstream is up, measured and
/// without recent failures, the one asked first is too; without a leader its latency is
/// within a millisecond of the least of theirs; with one it is past that by no more
/// than 5 ms or 15 % of its own latency.
pub proof fn law_fastest_is_asked_first(pool: UpstreamPool, k: int)
    requires
        0 <= k < pool.upstreams@.len(),
        is_clean(pool.upstreams@[k]),
    ensures
        is_clean(first_asked(pool)),
        ({
            let asked = first_asked(pool).health.probe_ewma_us;
            let least = pool.upstreams@[k].health.probe_ewma_us;
            &&& pool.leader is None ==> asked < least + 1000
            &&& asked < least + 6000 || 100 * (asked - least - 1000) < 15 * asked
        }),
{
    let ups = pool.upstreams@;
    let hs = healths(upstream_views(ups));
    let order = ranking(hs);
    law_ranking(hs);
    law_selection_is_complete(hs, pool@.leader);
    assert(forall|i: int| 0 <= i < ups.len() ==> #[trigger] hs[i] == ups[i].health@);
    let best = order[0];
    assert(order.contains(k));
    let at = choose|i: int| 0 <= i < order.len() && order[i] == k;
    if at > 0 {
        assert(ranks_before(hs, order[0], order[at]));
    }
    assert(hs[best] == ups[best].health@);
    assert(hs[k] == ups[k].health@);
    assert(is_clean(ups[best]));
    assert(ups[best].health.probe_ewma_us < ups[k].health.probe_ewma_us + 1000);
    if leader_held(hs, pool@.leader) {
        let cur = pool@.leader->0;
        assert(hs[cur] == ups[cur].health@);
        assert(selection(hs, pool@.leader)[0] == cur);
    }
}

/// A leader that is up, measured and without recent failures gives the lead away only
/// to an upstream that is faster by more than 5 ms and by more than 15 % of the
/// leader's latency.
pub proof fn law_lead_is_given_away_for_speed(pool: UpstreamPool, cur: usize)
    requires
        pool.leader == Some(cur),
        cur < pool.upstreams@.len(),
        is_clean(pool.upstreams@[cur as int]),
        selection(healths(pool@.upstreams), pool@.leader)[0] != cur,
    ensures
        ({
            let led = pool.upstreams@[cur as int].health.probe_ewma_us;
            let asked = first_asked(pool).health.probe_ewma_us;
            asked + 5000 < led && 100 * (led - asked) > 15 * led
        }),
{
    let ups = pool.upstreams@;
    let hs = healths(upstream_views(ups));
    law_fastest_is_asked_first(pool, cur as int);
    law_ranking(hs);
    let first = selection(hs, pool@.leader)[0];
    law_selection_is_complete(hs, pool@.leader);
    assert(hs[cur as int] == ups[cur as int].health@);
    assert(hs[first] == ups[first].health@);
}

/// What an upstream's health says after a selection in which it came at `rank`.
pub open spec fn ranked(u: UpstreamView, rank: int, held: bool) -> UpstreamView {
    UpstreamView {
        health: HealthView {
            last_rank: Some(if rank > u16::MAX { u16::MAX } else { rank as u16 }),
            lead_held: rank == 0 && held,
            ..u.health
        },
        ..u
    }
}

pub open spec fn indices(v: Seq<usize>) -> Seq<int> {
    v.map_values(|i: usize| i as int)
}

fn class_of(h: &Health) -> (r: u64)
    ensures
        r == h@.class(),
{
    let down: u64 = if h.up {
        0
    } else {
        4
    };
    let unsampled: u64 = if h.probe_samples > 0 {
        0
    } else {
        2
    };
    let recent: u64 = if h.consecutive_failures > 0 {
        1
    } else {
        0
    };
    down + unsampled + recent
}

fn rounded_of(h: &Health) -> (r: u64)
    ensures
        r == h@.rounded_ms(),
{
    match h.routing_latency_us() {
        Some(us) => us / 1000 + (if us % 1000 >= 500 {
            1
        } else {
            0
        }),
        None => 0,
    }
}

fn not_after(upstreams: &Vec<Upstream>, a: usize, b: usize) -> (r: bool)
    requires
        a < upstreams@.len(),
        b < upstreams@.len(),
    ensures
        r == ranks_before(healths(upstream_views(upstreams@)), a as int, b as int),
{
    let ghost hs = healths(upstream_views(upstreams@));
    assert(hs[a as int] == upstreams@[a as int].health@);
    assert(hs[b as int] == upstreams@[b as int].health@);
    let (ca, cb): (u64, u64) = (class_of(&upstreams[a].health), class_of(&upstreams[b].health));
    if ca != cb {
        return ca < cb;
    }
    let (la, lb): (u64, u64) = (
        rounded_of(&upstreams[a].health),
        rounded_of(&upstreams[b].health),
    );
    if la != lb {
        return la < lb;
    }
    a <= b
}

fn rank_all(upstreams: &Vec<Upstream>) -> (r: Vec<usize>)
    ensures
        indices(r@) == ranking(healths(upstream_views(upstreams@))),
        r@.len() == upstreams@.len(),
        forall|i: int| 0 <= i < r@.len() ==> #[trigger] r@[i] < upstreams@.len(),
{
    let ghost hs = healths(upstream_views(upstreams@));
    let ghost le = |a: int, b: int| ranks_before(hs, a, b);
    let ghost ids = Seq::new(hs.len(), |i: int| i);
    let mut r: Vec<usize> = Vec::new();
    let mut i: usize = 0;
    proof {
        lemma_ranks_total(hs);
        assert(indices(r@) =~= ids.take(0));
    }
    while i < upstreams.len()
        invariant
            i <= upstreams@.len(),
            hs == healths(upstream_views(upstreams@)),
            hs.len() == upstreams@.len(),
            le == (|a: int, b: int| ranks_before(hs, a, b)),
            ids == Seq::new(hs.len(), |i: int| i),
            vstd::relations::total_ordering(le),
            r@.len() == i,
            forall|k: int| 0 <= k < r@.len() ==> #[trigger] r@[k] < i,
            vstd::relations::sorted_by(indices(r@), le),
            indices(r@).to_multiset() == ids.take(i as int).to_multiset(),
        decreases upstreams@.len() - i,
    {
        let mut at: usize = r.len();
        while at > 0 && !not_after(upstreams, r[at - 1], i)
            invariant
                at <= r@.len(),
                i < upstreams@.len(),
                hs == healths(upstream_views(upstreams@)),
                forall|k: int| 0 <= k < r@.len() ==> #[trigger] r@[k] < i,
                forall|k: int| at <= k < r@.len() ==> !ranks_before(hs, #[trigger] r@[k] as int, i as int),
            decreases at,
        {
            at = at - 1;
        }
        let ghost before = indices(r@);
        proof {
            assert forall|k: int| at <= k < before.len() implies le(i as int, #[trigger] before[k]) by {
                assert(!ranks_before(hs, r@[k] as int, i as int));
            }
            assert forall|k: int| 0 <= k < at implies le(#[trigger] before[k], i as int) by {
                assert(le(before[at - 1], i as int));
                if k < at - 1 {
                    assert(le(before[k], before[at - 1]));
                }
            }
        }
        r.insert(at, i);
        proof {
            let after = indices(r@);
            assert(after =~= before.insert(at as int, i as int));
            assert forall|a: int, b: int| 0 <= a < b < after.len() implies #[trigger] le(
                after[a],
                after[b],
            ) by {
                if a < at && b > at {
                    assert(le(before[a], before[b - 1]));
                } else if a < at && b < at {
                    assert(le(before[a], before[b]));
                } else if a > at {
                    assert(le(before[a - 1], before[b - 1]));
                }
            }
            vstd::seq_lib::to_multiset_insert(before, at as int, i as int);
            let prefix = ids.take(i as int);
            assert(ids.take(i + 1) =~= prefix.push(i as int));
            vstd::seq_lib::to_multiset_build(prefix, i as int);
        }
        i = i + 1;
    }
    proof {
        assert(ids.take(i as int) =~= ids);
        ids.lemma_sort_by_ensures(le);
        vstd::seq_lib::lemma_sorted_unique(indices(r@), ranking(hs), le);
    }
    r
}

fn margin_holds(incumbent_us: u64, best_us: u64) -> (r: bool)
    ensures
        r == within_margin(incumbent_us, best_us),
{
    if incumbent_us <= best_us {
        return true;
    }
    let lead: u64 = incumbent_us - best_us;
    let percent: u128 = LEADER_STICKY_PERCENT as u128;
    assert(percent == 15);
    lead <= LEADER_STICKY_FLOOR_US || 100 * (lead as u128) <= percent * incumbent_us as u128
}

/// A pool whose upstreams were put in order: each knows its place, and the first leads.
pub open spec fn put_in_order(p: PoolView) -> PoolView {
    let order = selection(healths(p.upstreams), p.leader);
    PoolView {
        upstreams: Seq::new(
            p.upstreams.len(),
            |k: int|
                ranked(
                    p.upstreams[k],
                    order.index_of(k),
                    leader_held(healths(p.upstreams), p.leader),
                ),
        ),
        leader: if order.len() > 0 {
            Some(order[0])
        } else {
            None
        },
        settings: p.settings,
    }
}

impl UpstreamPool {
    pub fn is_empty(&self) -> (r: bool)
        ensures
            r == (self@.upstreams.len() == 0),
    {
        self.upstreams.len() == 0
    }

    /// The statistics of all upstreams, as they are configured.
    pub fn stats(&self) -> (r: Vec<UpstreamStat>)
        ensures
            r@.len() == self@.upstreams.len(),
            forall|i: int| 0 <= i < r@.len() ==> shows(#[trigger] r@[i], self@.upstreams[i]),
    {
        let mut out: Vec<UpstreamStat> = Vec::new();
        let mut i: usize = 0;
        while i < self.upstreams.len()
            invariant
                i <= self.upstreams@.len(),
                out@.len() == i,
                forall|k: int| 0 <= k < i ==> shows(#[trigger] out@[k], self@.upstreams[k]),
            decreases self.upstreams@.len() - i,
        {
            out.push(self.upstreams[i].stat());
            i = i + 1;
        }
        out
    }

    /// The order in which the upstreams are asked, best first. The leader is
    /// held while a challenger's advantage is small. Each upstream learns its
    /// rank.
    pub fn ordered(&mut self) -> (r: Vec<usize>)
        ensures
            indices(r@) == selection(healths(old(self)@.upstreams), old(self)@.leader),
            final(self)@ == put_in_order(old(self)@),
    {
        let ghost ups = upstream_views(self.upstreams@);
        let ghost hs = healths(ups);
        let ghost leader = index_in(self.leader);
        let mut v: Vec<usize> = rank_all(&self.upstreams);
        let mut held: bool = false;
        proof {
            law_ranking(hs);
            assert(forall|i: int| 0 <= i < v@.len() ==> indices(v@)[i] == v@[i]);
        }
        if let Some(cur) = self.leader {
            if v.len() > 0 && cur < self.upstreams.len() && v[0] != cur {
                assert(hs[cur as int] == self.upstreams@[cur as int].health@);
                assert(hs[v@[0] as int] == self.upstreams@[v@[0] as int].health@);
                let inc: Option<u64> = self.upstreams[cur].health.routing_latency_if_eligible();
                let best: Option<u64> = self.upstreams[v[0]].health.routing_latency_if_eligible();
                if let (Some(a), Some(b)) = (inc, best) {
                    if margin_holds(a, b) {
                        let mut pos: usize = 0;
                        proof {
                            assert(ranking(hs).contains(cur as int));
                        }
                        let ghost at = ranking(hs).index_of(cur as int);
                        let n: usize = v.len();
                        while v[pos] != cur
                            invariant
                                pos <= at < n,
                                n == v@.len(),
                                v@[at] == cur,
                            decreases at - pos,
                        {
                            pos = pos + 1;
                        }
                        proof {
                            if pos < at {
                                assert(ranks_before(hs, ranking(hs)[pos as int], ranking(hs)[at]));
                            }
                        }
                        let moved: usize = v.remove(pos);
                        v.insert(0, moved);
                        held = true;
                        assert(indices(v@) =~= selection(hs, leader));
                    }
                }
            }
        }
        assert(indices(v@) == selection(hs, leader));
        assert(held == leader_held(hs, leader));
        self.leader = if v.len() > 0 {
            Some(v[0])
        } else {
            None
        };
        proof {
            law_selection_is_complete(hs, leader);
            assert(forall|i: int| 0 <= i < v@.len() ==> indices(v@)[i] == v@[i]);
            assert forall|i: int| 0 <= i < v@.len() implies #[trigger] v@[i] < self.upstreams@.len() by {
                assert(selection(hs, leader)[i] == v@[i]);
            }
            assert forall|i: int, j: int| 0 <= i < v@.len() && 0 <= j < v@.len() && i != j implies v@[i]
                != v@[j] by {
                assert(selection(hs, leader)[i] != selection(hs, leader)[j]);
            }
        }
        let mut i: usize = 0;
        while i < v.len()
            invariant
                i <= v@.len(),
                v@.len() == ups.len(),
                self.upstreams@.len() == ups.len(),
                forall|k: int| 0 <= k < v@.len() ==> #[trigger] v@[k] < ups.len(),
                forall|k: int, l: int|
                    0 <= k < v@.len() && 0 <= l < v@.len() && k != l ==> v@[k] != v@[l],
                forall|k: int|
                    0 <= k < i ==> self.upstreams@[#[trigger] v@[k] as int]@ == ranked(
                        ups[v@[k] as int],
                        k,
                        held,
                    ),
                forall|k: int|
                    i <= k < v@.len() ==> self.upstreams@[#[trigger] v@[k] as int]@
                        == ups[v@[k] as int],
                self.settings == old(self).settings,
                index_in(self.leader) == (if v@.len() > 0 {
                    Some(v@[0] as int)
                } else {
                    None
                }),
            decreases v@.len() - i,
        {
            let k: usize = v[i];
            let rank: u16 = if i > u16::MAX as usize {
                u16::MAX
            } else {
                i as u16
            };
            let ghost before = self.upstreams@;
            self.upstreams[k].health.last_rank = Some(rank);
            self.upstreams[k].health.lead_held = i == 0 && held;
            assert(self.upstreams@[k as int]@ == ranked(ups[k as int], i as int, held));
            assert(forall|j: int| 0 <= j < before.len() && j != k ==> self.upstreams@[j] == before[j]);
            i = i + 1;
        }
        proof {
            let s = indices(v@);
            assert forall|k: int| 0 <= k < ups.len() implies upstream_views(self.upstreams@)[k]
                == ranked(ups[k], s.index_of(k), held) by {
                assert(selection(hs, leader).contains(k));
                let p = s.index_of(k);
                assert(s[p] == k);
                assert(v@[p] == k);
            }
            assert(upstream_views(self.upstreams@) =~= Seq::new(
                ups.len(),
                |k: int| ranked(ups[k], s.index_of(k), held),
            ));
        }
        v
    }
}

/// What a [`PoolEntry`] says.
pub struct EntryView {
    pub spec: Seq<char>,
    pub name: Option<Seq<char>>,
}

impl View for PoolEntry {
    type V = EntryView;

    open spec fn view(&self) -> EntryView {
        EntryView { spec: self.spec@, name: health::text_in(self.name) }
    }
}

/// A new upstream: under its own name, or else as its spec is displayed.
pub open spec fn new_upstream(spec: SpecView, name: Option<Seq<char>>) -> UpstreamView {
    UpstreamView {
        spec,
        name: match name {
            Some(n) => n,
            None => spec.display,
        },
        health: health::unknown_health(),
    }
}

/// The upstreams that entries give, or what is wrong with the first invalid one.
pub open spec fn upstreams_of(entries: Seq<EntryView>) -> Result<Seq<UpstreamView>, Seq<char>>
    decreases entries.len(),
{
    if entries.len() == 0 {
        Ok(Seq::empty())
    } else {
        match upstreams_of(entries.drop_last()) {
            Err(e) => Err(e),
            Ok(v) => match spec::spec_of_text(entries.last().spec) {
                Err(e) => Err(e),
                Ok(s) => Ok(v.push(new_upstream(s, entries.last().name))),
            },
        }
    }
}

pub open spec fn entry_views(v: Seq<PoolEntry>) -> Seq<EntryView> {
    v.map_values(|e: PoolEntry| e@)
}

proof fn lemma_entries_fail(entries: Seq<EntryView>, i: int, e: Seq<char>)
    requires
        0 <= i <= entries.len(),
        upstreams_of(entries.take(i)) == Err::<Seq<UpstreamView>, Seq<char>>(e),
    ensures
        upstreams_of(entries) == Err::<Seq<UpstreamView>, Seq<char>>(e),
    decreases entries.len() - i,
{
    if i < entries.len() {
        assert(entries.take(i + 1).drop_last() =~= entries.take(i));
        lemma_entries_fail(entries, i + 1, e);
    } else {
        assert(entries.take(i) =~= entries);
    }
}

/// The health that the last of the upstreams with this endpoint has.
pub open spec fn health_of(ups: Seq<UpstreamView>, identity: Seq<char>) -> Option<HealthView>
    decreases ups.len(),
{
    if ups.len() == 0 {
        None
    } else if spec::identity_text(ups.last().spec) == identity {
        Some(ups.last().health)
    } else {
        health_of(ups.drop_last(), identity)
    }
}

/// An upstream with the health that its endpoint had before, if it was there.
pub open spec fn adopted(u: UpstreamView, before: Seq<UpstreamView>) -> UpstreamView {
    match health_of(before, spec::identity_text(u.spec)) {
        Some(health) => UpstreamView { health, ..u },
        None => u,
    }
}

impl UpstreamPool {
    /// A pool of the configured upstreams. The first invalid spec is an error.
    pub fn build(entries: &[PoolEntry], settings: PoolSettings) -> (r: Result<
        UpstreamPool,
        UpstreamError,
    >)
        ensures
            match upstreams_of(entry_views(entries@)) {
                Ok(upstreams) => r matches Ok(pool) && pool@ == (PoolView {
                    upstreams,
                    leader: None,
                    settings,
                }),
                Err(e) => r matches Err(err) && err@ == ErrorView::InvalidSpec(e),
            },
    {
        let ghost all = entry_views(entries@);
        let mut upstreams: Vec<Upstream> = Vec::new();
        let mut i: usize = 0;
        proof {
            assert(all.take(0) =~= Seq::<EntryView>::empty());
            assert(upstream_views(upstreams@) =~= Seq::<UpstreamView>::empty());
        }
        while i < entries.len()
            invariant
                i <= entries@.len(),
                all == entry_views(entries@),
                upstreams_of(all.take(i as int)) == Ok::<Seq<UpstreamView>, Seq<char>>(
                    upstream_views(upstreams@),
                ),
            decreases entries@.len() - i,
        {
            let entry: &PoolEntry = &entries[i];
            proof {
                assert(all.take(i + 1).drop_last() =~= all.take(i as int));
                assert(all.take(i + 1).last() == entry@);
            }
            match UpstreamSpec::parse(entry.spec.as_str()) {
                Ok(parsed) => {
                    let name: String = match &entry.name {
                        Some(n) => n.as_str().to_owned(),
                        None => parsed.display.as_str().to_owned(),
                    };
                    let up: Upstream = Upstream { spec: parsed, name, health: Health::default() };
                    let ghost before = upstream_views(upstreams@);
                    upstreams.push(up);
                    assert(upstream_views(upstreams@) =~= before.push(
                        new_upstream(parsed@, entry@.name),
                    ));
                },
                Err(e) => {
                    proof {
                        lemma_entries_fail(
                            all,
                            i + 1,
                            spec::spec_of_text(entry@.spec)->Err_0,
                        );
                    }
                    return Err(e);
                },
            }
            i = i + 1;
        }
        assert(all.take(i as int) =~= all);
        Ok(UpstreamPool { upstreams, leader: None, settings })
    }

    /// Carries the health of upstreams over from a pool that this one replaces.
    /// Upstreams are the same where they name the same endpoint, however it is
    /// spelled.
    pub fn adopt_health_from(&mut self, old_pool: &UpstreamPool)
        ensures
            final(self)@ == (PoolView {
                upstreams: old(self)@.upstreams.map_values(
                    |u: UpstreamView| adopted(u, old_pool@.upstreams),
                ),
                ..old(self)@
            }),
    {
        let ghost ups = upstream_views(self.upstreams@);
        let ghost prior = upstream_views(old_pool.upstreams@);
        let mut i: usize = 0;
        while i < self.upstreams.len()
            invariant
                i <= self.upstreams@.len(),
                self.upstreams@.len() == ups.len(),
                prior == upstream_views(old_pool.upstreams@),
                forall|k: int| 0 <= k < i ==> (#[trigger] self.upstreams@[k])@ == adopted(ups[k], prior),
                forall|k: int| i <= k < ups.len() ==> (#[trigger] self.upstreams@[k])@ == ups[k],
                self.leader == old(self).leader,
                self.settings == old(self).settings,
            decreases ups.len() - i,
        {
            let id: String = self.upstreams[i].spec.identity();
            let mut j: usize = old_pool.upstreams.len();
            let ghost before = self.upstreams@;
            assert(prior.take(j as int) =~= prior);
            let mut found: Option<Health> = None;
            while j > 0 && found.is_none()
                invariant
                    j <= old_pool.upstreams@.len(),
                    prior == upstream_views(old_pool.upstreams@),
                    match found {
                        None => health_of(prior, id@) == health_of(prior.take(j as int), id@),
                        Some(h) => health_of(prior, id@) == Some(h@),
                    },
                decreases j,
            {
                let last: &Upstream = &old_pool.upstreams[j - 1];
                let other: String = last.spec.identity();
                proof {
                    assert(prior.take(j as int).last() == last@);
                    assert(prior.take(j as int).drop_last() =~= prior.take(j - 1));
                }
                if same_text(other.as_str(), id.as_str()) {
                    found = Some(last.health.copied());
                }
                j = j - 1;
            }
            if let Some(h) = found {
                self.upstreams[i].health = h;
            }
            assert(self.upstreams@[i as int]@ == adopted(ups[i as int], prior));
            assert(forall|k: int| 0 <= k < before.len() && k != i ==> self.upstreams@[k] == before[k]);
            i = i + 1;
        }
        assert(upstream_views(self.upstreams@) =~= ups.map_values(
            |u: UpstreamView| adopted(u, prior),
        ));
    }
}

/// An upstream whose endpoint was in the pool before keeps its statistics, and
/// one whose endpoint was not keeps what it had.
pub proof fn law_reload_keeps_health(u: UpstreamView, before: Seq<UpstreamView>)
    ensures
        (exists|j: int|
            0 <= j < before.len() && spec::identity_text(#[trigger] before[j].spec)
                == spec::identity_text(u.spec) && adopted(u, before).health == before[j].health) || (
        adopted(u, before) == u && forall|j: int|
            0 <= j < before.len() ==> spec::identity_text(#[trigger] before[j].spec)
                != spec::identity_text(u.spec)),
{
    lemma_health_of(before, spec::identity_text(u.spec));
}

proof fn lemma_health_of(ups: Seq<UpstreamView>, id: Seq<char>)
    ensures
        match health_of(ups, id) {
            Some(h) => exists|j: int|
                0 <= j < ups.len() && spec::identity_text(#[trigger] ups[j].spec) == id && h
                    == ups[j].health,
            None => forall|j: int|
                0 <= j < ups.len() ==> spec::identity_text(#[trigger] ups[j].spec) != id,
        },
    decreases ups.len(),
{
    if ups.len() > 0 {
        let k = ups.len() - 1;
        if spec::identity_text(ups[k].spec) == id {
            assert(ups[k] == ups.last());
        } else {
            lemma_health_of(ups.drop_last(), id);
            assert(forall|j: int| 0 <= j < k ==> ups.drop_last()[j] == ups[j]);
        }
    }
}

} // verus!
