//! Statistics aggregation: counters, top-N lists, latency histogram, per-upstream
//! response times, and an hourly time-series for charts.
//!
//! The state is split into shards. Recording goes into one of them; reading merges
//! them all. Durations are in microseconds.

use vstd::prelude::*;

use crate::engine::cache;
use crate::engine::cache::CacheCounters;
use crate::engine::clients;
use crate::engine::clients::{ClientMatcher, MatcherView};
use crate::engine::counts;
use crate::engine::counts::{merge_counts, Counts, HeavyHitters};
use crate::engine::histogram;
use crate::engine::histogram::{plus, Histogram, LatencyPercentiles};
use crate::engine::querylog;
use crate::engine::querylog::{ActionView, QueryAction, QueryLogEntry};
use crate::engine::ranking;
use crate::engine::ranking::{top_n_of, TopEntry};
use crate::engine::series;
use crate::engine::series::{add_points, keep_latest, sum_points, SeriesPoint};
use crate::engine::table::Table;
use crate::net;
use crate::text;
use crate::text::{chars_of, string_of, trim_end_char};

verus! {

/// Upper bound on distinct keys retained per top-N estimator, summed across
/// shards.
pub const TOPK_KEYS: usize = 4_096;

/// The fewest keys that a shard retains.
pub const MIN_SHARD_KEYS: usize = 256;

/// The most shards.
pub const MAX_SHARDS: usize = 64;

/// Histograms by name.
pub type Histograms = Map<Seq<char>, Seq<u64>>;

/// The state of one shard.
pub struct StatsInner {
    pub total: u64,
    pub blocked: u64,
    pub cached: u64,
    pub rewritten: u64,
    pub errors: u64,
    /// Global whole-query latency histogram. Errored queries are excluded.
    pub proc_time_hist: Histogram,
    pub resolved_domains: HeavyHitters,
    pub blocked_domains: HeavyHitters,
    pub clients: HeavyHitters,
    pub upstreams: Table<u64>,
    pub upstream_rtt_sum: Table<u64>,
    pub upstream_rtt_count: Table<u64>,
    pub upstream_latency_hist: Table<Histogram>,
    pub series: Vec<SeriesPoint>,
    /// The DNS cache's lifetime counters, which are carried here only to persist.
    pub cache: CacheCounters,
}

/// What a [`StatsInner`] says.
#[verifier::ext_equal]
pub struct StatsView {
    pub total: u64,
    pub blocked: u64,
    pub cached: u64,
    pub rewritten: u64,
    pub errors: u64,
    pub proc_time_hist: Seq<u64>,
    pub resolved_domains: Counts,
    pub blocked_domains: Counts,
    pub clients: Counts,
    pub upstreams: Counts,
    pub upstream_rtt_sum: Counts,
    pub upstream_rtt_count: Counts,
    pub upstream_latency_hist: Histograms,
    pub series: Seq<SeriesPoint>,
    pub cache: CacheCounters,
}

impl View for StatsInner {
    type V = StatsView;

    open spec fn view(&self) -> StatsView {
        StatsView {
            total: self.total,
            blocked: self.blocked,
            cached: self.cached,
            rewritten: self.rewritten,
            errors: self.errors,
            proc_time_hist: self.proc_time_hist@,
            resolved_domains: self.resolved_domains@,
            blocked_domains: self.blocked_domains@,
            clients: self.clients@,
            upstreams: self.upstreams@,
            upstream_rtt_sum: self.upstream_rtt_sum@,
            upstream_rtt_count: self.upstream_rtt_count@,
            upstream_latency_hist: self.upstream_latency_hist@,
            series: self.series@,
            cache: self.cache,
        }
    }
}

/// Statistics of nothing.
pub open spec fn no_stats() -> StatsView {
    StatsView {
        total: 0,
        blocked: 0,
        cached: 0,
        rewritten: 0,
        errors: 0,
        proc_time_hist: histogram::no_latencies(),
        resolved_domains: Map::empty(),
        blocked_domains: Map::empty(),
        clients: Map::empty(),
        upstreams: Map::empty(),
        upstream_rtt_sum: Map::empty(),
        upstream_rtt_count: Map::empty(),
        upstream_latency_hist: Map::empty(),
        series: Seq::empty(),
        cache: cache::no_counts(),
    }
}

impl Default for StatsInner {
    fn default() -> (r: StatsInner)
        ensures
            r@ == no_stats(),
    {
        StatsInner {
            total: 0,
            blocked: 0,
            cached: 0,
            rewritten: 0,
            errors: 0,
            proc_time_hist: Histogram::new(),
            resolved_domains: HeavyHitters::new(),
            blocked_domains: HeavyHitters::new(),
            clients: HeavyHitters::new(),
            upstreams: Table::new(),
            upstream_rtt_sum: Table::new(),
            upstream_rtt_count: Table::new(),
            upstream_latency_hist: Table::new(),
            series: Vec::new(),
            cache: CacheCounters::default(),
        }
    }
}

/// One more where a condition holds.
pub open spec fn plus_if(n: u64, holds: bool) -> u64 {
    if holds {
        histogram::sum64(n, 1)
    } else {
        n
    }
}

fn count_if(n: u64, holds: bool) -> (r: u64)
    ensures
        r == plus_if(n, holds),
{
    if holds {
        plus(n, 1)
    } else {
        n
    }
}

/// With one more of a name, where it is there or there is room for it.
pub open spec fn capped(m: Counts, name: Seq<char>, cap: usize) -> Counts {
    if m.contains_key(name) || m.dom().len() < cap {
        counts::raised(m, name, 1)
    } else {
        m
    }
}

fn bump(map: &mut Table<u64>, key: &str, cap: usize)
    ensures
        final(map)@ == capped(old(map)@, key@, cap),
{
    let prev: Option<u64> = match map.get(key) {
        Some(n) => Some(*n),
        None => None,
    };
    match prev {
        Some(n) => map.set(key, plus(n, 1)),
        None => {
            if map.len() < cap {
                map.set(key, 1);
            }
        },
    }
}

/// Adds to the count of a name.
fn raise(map: &mut Table<u64>, key: &str, by: u64)
    ensures
        final(map)@ == counts::raised(old(map)@, key@, by),
{
    let prev: u64 = match map.get(key) {
        Some(n) => *n,
        None => 0,
    };
    map.set(key, plus(prev, by));
}

/// With a latency in the histogram of a name.
pub open spec fn timed(m: Histograms, name: Seq<char>, us: u64) -> Histograms {
    m.insert(
        name,
        histogram::counted(
            if m.contains_key(name) {
                m[name]
            } else {
                histogram::no_latencies()
            },
            histogram::bucket_of(us),
        ),
    )
}

fn time(map: &mut Table<Histogram>, key: &str, us: u64)
    ensures
        final(map)@ == timed(old(map)@, key@, us),
{
    let mut h: Histogram = match map.get(key) {
        Some(h) => h.copied(),
        None => Histogram::new(),
    };
    h.record(us);
    map.set(key, h);
}

/// The sums of histograms by name.
pub open spec fn merged_hists(a: Histograms, b: Histograms) -> Histograms {
    Map::new(
        |k: Seq<char>| a.contains_key(k) || b.contains_key(k),
        |k: Seq<char>|
            if a.contains_key(k) && b.contains_key(k) {
                histogram::both(a[k], b[k])
            } else if a.contains_key(k) {
                a[k]
            } else {
                b[k]
            },
    )
}

fn merge_hists(dst: &mut Table<Histogram>, src: &Table<Histogram>)
    ensures
        final(dst)@ == merged_hists(old(dst)@, src@),
{
    let ghost start = dst@;
    let n: usize = src.len();
    let ghost names = src.names();
    let mut i: usize = 0;
    while i < n
        invariant
            i <= n,
            n == names.len(),
            names == src.names(),
            names.no_duplicates(),
            names.to_set() == src@.dom(),
            forall|k: Seq<char>| #[trigger]
                names.take(i as int).contains(k) ==> dst@.contains_key(k) && dst@[k]
                    == merged_hists(start, src@)[k],
            forall|k: Seq<char>|
                !names.take(i as int).contains(k) ==> (#[trigger] dst@.contains_key(k)
                    == start.contains_key(k)) && (start.contains_key(k) ==> dst@[k] == start[k]),
        decreases n - i,
    {
        let (name, hist): (&str, &Histogram) = src.at(i);
        let ghost before = dst@;
        proof {
            assert(!names.take(i as int).contains(name@)) by {
                if names.take(i as int).contains(name@) {
                    let j = choose|j: int| 0 <= j < i && names.take(i as int)[j] == name@;
                    assert(names[j] == names[i as int]);
                }
            }
            assert(names.take(i + 1) =~= names.take(i as int).push(name@));
        }
        let value: Histogram = match dst.get(name) {
            Some(prev) => {
                let mut sum: Histogram = prev.copied();
                sum.merge_from(hist);
                sum
            },
            None => hist.copied(),
        };
        dst.set(name, value);
        proof {
            assert forall|k: Seq<char>| #[trigger] names.take(i + 1).contains(k) implies dst@.contains_key(k)
                && dst@[k] == merged_hists(start, src@)[k] by {
                if k != name@ {
                    let upto = names.take(i + 1);
                    let j = choose|j: int| 0 <= j < upto.len() && upto[j] == k;
                    assert(names.take(i as int)[j] == k);
                    assert(names.take(i as int).contains(k));
                }
            }
            assert forall|k: Seq<char>| !names.take(i + 1).contains(k) implies (
            #[trigger] dst@.contains_key(k) == start.contains_key(k)) && (start.contains_key(k)
                ==> dst@[k] == start[k]) by {
                if names.take(i as int).contains(k) {
                    let j = choose|j: int| 0 <= j < i && names.take(i as int)[j] == k;
                    assert(names.take(i + 1)[j] == k);
                }
                if k == name@ {
                    assert(names.take(i + 1)[i as int] == k);
                }
                assert(before.contains_key(k) == start.contains_key(k));
            }
        }
        i = i + 1;
    }
    proof {
        assert(names.take(i as int) =~= names);
        assert forall|k: Seq<char>| names.contains(k) == src@.contains_key(k) by {
            assert(names.to_set().contains(k) == src@.dom().contains(k));
        }
        assert forall|k: Seq<char>| #[trigger]
            dst@.contains_key(k) == merged_hists(start, src@).contains_key(k) by {
            if names.contains(k) {
                assert(names.take(i as int).contains(k));
            }
        }
        assert(dst@ =~= merged_hists(start, src@));
    }
}

/// The sums of two shards. The cache's counters are not summed.
pub open spec fn merged_stats(a: StatsView, b: StatsView) -> StatsView {
    StatsView {
        total: histogram::sum64(a.total, b.total),
        blocked: histogram::sum64(a.blocked, b.blocked),
        cached: histogram::sum64(a.cached, b.cached),
        rewritten: histogram::sum64(a.rewritten, b.rewritten),
        errors: histogram::sum64(a.errors, b.errors),
        proc_time_hist: histogram::both(a.proc_time_hist, b.proc_time_hist),
        resolved_domains: counts::merged_counts(a.resolved_domains, b.resolved_domains),
        blocked_domains: counts::merged_counts(a.blocked_domains, b.blocked_domains),
        clients: counts::merged_counts(a.clients, b.clients),
        upstreams: counts::merged_counts(a.upstreams, b.upstreams),
        upstream_rtt_sum: counts::merged_counts(a.upstream_rtt_sum, b.upstream_rtt_sum),
        upstream_rtt_count: counts::merged_counts(a.upstream_rtt_count, b.upstream_rtt_count),
        upstream_latency_hist: merged_hists(a.upstream_latency_hist, b.upstream_latency_hist),
        series: series::with_points(a.series, b.series),
        cache: a.cache,
    }
}

/// The hour of a time, towards zero.
pub open spec fn hour_of(time_ms: i64) -> i64 {
    if time_ms >= 0 {
        (time_ms / 1000 / 3600) as i64
    } else {
        -((-time_ms) / 1000 / 3600) as i64
    }
}

fn hour(time_ms: i64) -> (r: i64)
    ensures
        r == hour_of(time_ms),
{
    if time_ms >= 0 {
        (time_ms as u64 / 1000 / 3600) as i64
    } else {
        let back: u64 = (-(time_ms + 1)) as u64 + 1;
        -((back / 1000 / 3600) as i64)
    }
}

/// What a query adds to the series.
pub open spec fn point_of(e: querylog::EntryView) -> SeriesPoint {
    SeriesPoint {
        hour: hour_of(e.time_ms),
        total: 1,
        blocked: if e.blocked() {
            1
        } else {
            0
        },
        cached: if e.action is Cached {
            1
        } else {
            0
        },
    }
}

/// The latency that counts for an upstream: its own round-trip time, or else that of
/// the query.
pub open spec fn upstream_us(e: querylog::EntryView, rtt_us: Option<u64>) -> u64 {
    match rtt_us {
        Some(us) => us,
        None => e.elapsed_us,
    }
}

/// What recording a query makes of a shard.
pub open spec fn recorded(
    s: StatsView,
    after: StatsView,
    e: querylog::EntryView,
    rtt_us: Option<u64>,
    cap: usize,
    max: usize,
    anonymize: bool,
) -> bool {
    let domain = text::strip_end(e.question, '.');
    let up_us = upstream_us(e, rtt_us);
    &&& after == (StatsView {
        total: histogram::sum64(s.total, 1),
        blocked: plus_if(s.blocked, e.blocked()),
        cached: plus_if(s.cached, e.action is Cached),
        rewritten: plus_if(s.rewritten, e.action is Rewritten),
        errors: plus_if(s.errors, e.action is Error),
        proc_time_hist: if e.action is Error {
            s.proc_time_hist
        } else {
            histogram::counted(s.proc_time_hist, histogram::bucket_of(e.elapsed_us))
        },
        resolved_domains: after.resolved_domains,
        blocked_domains: after.blocked_domains,
        clients: after.clients,
        upstreams: match e.action {
            ActionView::Forwarded(up) => capped(s.upstreams, up, cap),
            _ => s.upstreams,
        },
        upstream_rtt_sum: match e.action {
            ActionView::Forwarded(up) => counts::raised(s.upstream_rtt_sum, up, up_us),
            _ => s.upstream_rtt_sum,
        },
        upstream_rtt_count: match e.action {
            ActionView::Forwarded(up) => counts::raised(s.upstream_rtt_count, up, 1),
            _ => s.upstream_rtt_count,
        },
        upstream_latency_hist: match e.action {
            ActionView::Forwarded(up) => timed(s.upstream_latency_hist, up, up_us),
            _ => s.upstream_latency_hist,
        },
        series: series::with_query(s.series, point_of(e), max),
        cache: s.cache,
    })
    &&& if e.blocked() {
        counts::bumped(s.blocked_domains, after.blocked_domains, domain, 1, cap)
            && after.resolved_domains == s.resolved_domains
    } else {
        counts::bumped(s.resolved_domains, after.resolved_domains, domain, 1, cap)
            && after.blocked_domains == s.blocked_domains
    }
    &&& if anonymize {
        after.clients == s.clients
    } else {
        counts::bumped(s.clients, after.clients, e.client_ip, 1, cap)
    }
}

impl StatsInner {
    /// Fold another shard's state into this accumulator (used for snapshots).
    pub fn merge_from(&mut self, other: &StatsInner)
        ensures
            final(self)@ == merged_stats(old(self)@, other@),
    {
        self.total = plus(self.total, other.total);
        self.blocked = plus(self.blocked, other.blocked);
        self.cached = plus(self.cached, other.cached);
        self.rewritten = plus(self.rewritten, other.rewritten);
        self.errors = plus(self.errors, other.errors);
        self.proc_time_hist.merge_from(&other.proc_time_hist);
        self.resolved_domains.merge_from(&other.resolved_domains);
        self.blocked_domains.merge_from(&other.blocked_domains);
        self.clients.merge_from(&other.clients);
        merge_counts(&mut self.upstreams, &other.upstreams);
        merge_counts(&mut self.upstream_rtt_sum, &other.upstream_rtt_sum);
        merge_counts(&mut self.upstream_rtt_count, &other.upstream_rtt_count);
        merge_hists(&mut self.upstream_latency_hist, &other.upstream_latency_hist);
        add_points(&mut self.series, &other.series);
    }

    /// Records one completed query.
    pub fn record(
        &mut self,
        entry: &QueryLogEntry,
        rtt_us: Option<u64>,
        cap: usize,
        max: usize,
        anonymize: bool,
    )
        ensures
            recorded(old(self)@, final(self)@, entry@, rtt_us, cap, max, anonymize),
    {
        let blocked: bool = entry.is_blocked();
        let cached: bool = entry.cached();
        let chars: Vec<char> = chars_of(entry.question.as_str());
        let domain: String = string_of(trim_end_char(chars.as_slice(), '.'));
        let up_us: u64 = match rtt_us {
            Some(us) => us,
            None => entry.elapsed_us,
        };
        let error: bool = match &entry.action {
            QueryAction::Error => true,
            _ => false,
        };
        let rewritten: bool = match &entry.action {
            QueryAction::Rewritten { .. } => true,
            _ => false,
        };
        self.total = plus(self.total, 1);
        self.cached = count_if(self.cached, cached);
        self.rewritten = count_if(self.rewritten, rewritten);
        self.errors = count_if(self.errors, error);
        self.blocked = count_if(self.blocked, blocked);
        if !error {
            self.proc_time_hist.record(entry.elapsed_us);
        }
        if blocked {
            self.blocked_domains.bump(domain.as_str(), 1, cap);
        } else {
            self.resolved_domains.bump(domain.as_str(), 1, cap);
        }
        if !anonymize {
            self.clients.bump(entry.client_ip.as_str(), 1, cap);
        }
        if let QueryAction::Forwarded { upstream } = &entry.action {
            let up: &str = upstream.as_str();
            bump(&mut self.upstreams, up, cap);
            raise(&mut self.upstream_rtt_sum, up, up_us);
            raise(&mut self.upstream_rtt_count, up, 1);
            time(&mut self.upstream_latency_hist, up, up_us);
        }
        let point = SeriesPoint {
            hour: hour(entry.time_ms),
            total: 1,
            blocked: if blocked {
                1
            } else {
                0
            },
            cached: if cached {
                1
            } else {
                0
            },
        };
        let n: usize = self.series.len();
        if n > 0 && self.series[n - 1].hour == point.hour {
            let ghost before = self.series@;
            let sum: SeriesPoint = sum_points(self.series[n - 1], point);
            self.series[n - 1] = sum;
            assert(self.series@ =~= before.drop_last().push(sum));
        } else {
            self.series.push(point);
            keep_latest(&mut self.series, max);
        }
    }
}

/// How many shards there are for so many processors: the least power of two that is
/// no less, up to 64.
pub open spec fn shards_for(cpus: usize, n: nat) -> nat
    decreases
        (if n < MAX_SHARDS {
            MAX_SHARDS - n
        } else {
            0
        }),
{
    if n == 0 || n >= MAX_SHARDS || n >= cpus {
        n
    } else {
        shards_for(cpus, n * 2)
    }
}

/// Number of shards: one per CPU, rounded up to a power of two, and clamped to a
/// sane range.
pub fn shard_count(cpus: usize) -> (r: usize)
    ensures
        r == shards_for(cpus, 1),
        1 <= r <= MAX_SHARDS,
{
    let mut n: usize = 1;
    while n < MAX_SHARDS && n < cpus
        invariant
            n == 1 || n == 2 || n == 4 || n == 8 || n == 16 || n == 32 || n == 64,
            shards_for(cpus, 1) == shards_for(cpus, n as nat),
        decreases MAX_SHARDS - n,
    {
        n = n * 2;
    }
    n
}

/// How many keys each of so many shards retains.
pub open spec fn keys_for(shards: nat) -> int {
    if TOPK_KEYS as int / shards as int <= MIN_SHARD_KEYS {
        MIN_SHARD_KEYS as int
    } else {
        TOPK_KEYS as int / shards as int
    }
}

/// How many points of the series are retained for so many days.
pub open spec fn points_for(days: u32) -> int {
    (if days == 0 {
        1int
    } else {
        days as int
    }) * 24
}

/// Aggregated statistics.
pub struct Stats {
    shards: Vec<StatsInner>,
    /// Per-shard distinct-key cap for the top-N maps.
    key_cap: usize,
    enabled: bool,
    /// When set, per-client counts are not recorded.
    anonymize: bool,
    max_buckets: usize,
}

/// What a [`Stats`] says.
pub struct ShardsView {
    pub shards: Seq<StatsView>,
    pub key_cap: usize,
    pub enabled: bool,
    pub anonymize: bool,
    pub max_buckets: usize,
}

pub open spec fn inner_views(v: Seq<StatsInner>) -> Seq<StatsView> {
    v.map_values(|s: StatsInner| s@)
}

impl View for Stats {
    type V = ShardsView;

    closed spec fn view(&self) -> ShardsView {
        ShardsView {
            shards: inner_views(self.shards@),
            key_cap: self.key_cap,
            enabled: self.enabled,
            anonymize: self.anonymize,
            max_buckets: self.max_buckets,
        }
    }
}

/// The sums of shards.
pub open spec fn merged_all(shards: Seq<StatsView>) -> StatsView
    decreases shards.len(),
{
    if shards.len() == 0 {
        no_stats()
    } else {
        merged_stats(merged_all(shards.drop_last()), shards.last())
    }
}

/// All shards in one, with the last points of the series.
pub open spec fn merged_view(s: ShardsView) -> StatsView {
    let all = merged_all(s.shards);
    StatsView { series: series::latest(all.series, s.max_buckets), ..all }
}

/// The average round-trip time of each upstream.
pub open spec fn averages(names: Seq<Seq<char>>, sums: Counts, counts: Counts) -> Counts {
    Map::new(
        |k: Seq<char>| names.contains(k),
        |k: Seq<char>|
            if counts[k] > 0 && sums.contains_key(k) {
                (sums[k] / counts[k]) as u64
            } else {
                0
            },
    )
}

fn average_rtts(sums: &Table<u64>, counts: &Table<u64>) -> (r: Table<u64>)
    ensures
        r@.dom() == counts@.dom(),
        forall|k: Seq<char>| #[trigger]
            r@.contains_key(k) ==> r@[k] == if counts@[k] > 0 && sums@.contains_key(k) {
                sums@[k] / counts@[k]
            } else {
                0
            },
{
    let n: usize = counts.len();
    let ghost names = counts.names();
    let mut out: Table<u64> = Table::new();
    let mut i: usize = 0;
    assert(out@ =~= averages(names.take(0), sums@, counts@));
    while i < n
        invariant
            i <= n,
            n == names.len(),
            names == counts.names(),
            out@ == averages(names.take(i as int), sums@, counts@),
        decreases n - i,
    {
        let (name, count): (&str, &u64) = counts.at(i);
        let value: u64 = match sums.get(name) {
            Some(sum) => {
                if *count > 0 {
                    *sum / *count
                } else {
                    0
                }
            },
            None => 0,
        };
        out.set(name, value);
        proof {
            let prefix = names.take(i as int);
            assert(names.take(i + 1) =~= prefix.push(name@));
            lemma_contains_push(prefix, name@);
            assert(out@ =~= averages(names.take(i + 1), sums@, counts@));
        }
        i = i + 1;
    }
    proof {
        assert(names.take(i as int) =~= names);
        assert forall|k: Seq<char>| out@.contains_key(k) == counts@.contains_key(k) by {
            assert(names.to_set().contains(k) == counts@.dom().contains(k));
        }
        assert(out@.dom() =~= counts@.dom());
    }
    out
}

proof fn lemma_contains_push(s: Seq<Seq<char>>, x: Seq<char>)
    ensures
        forall|k: Seq<char>| #[trigger] s.push(x).contains(k) == (s.contains(k) || k == x),
{
    assert forall|k: Seq<char>| #[trigger] s.push(x).contains(k) == (s.contains(k) || k == x) by {
        let t = s.push(x);
        if t.contains(k) {
            let i = choose|i: int| 0 <= i < t.len() && t[i] == k;
            if i < s.len() {
                assert(s[i] == k);
            }
        }
        if s.contains(k) {
            let i = choose|i: int| 0 <= i < s.len() && s[i] == k;
            assert(t[i] == k);
        }
        assert(t[s.len() as int] == x);
    }
}

fn percentile_table(hists: &Table<Histogram>) -> (r: Table<LatencyPercentiles>)
    ensures
        r@.dom() == hists@.dom(),
        forall|k: Seq<char>| #[trigger]
            r@.contains_key(k) ==> r@[k] == histogram::percentiles_of(hists@[k]),
{
    let n: usize = hists.len();
    let ghost names = hists.names();
    let mut out: Table<LatencyPercentiles> = Table::new();
    let mut i: usize = 0;
    while i < n
        invariant
            i <= n,
            n == names.len(),
            names == hists.names(),
            forall|k: Seq<char>| #[trigger]
                out@.contains_key(k) == names.take(i as int).contains(k),
            forall|k: Seq<char>| #[trigger]
                out@.contains_key(k) ==> out@[k] == histogram::percentiles_of(hists@[k]),
        decreases n - i,
    {
        let (name, hist): (&str, &Histogram) = hists.at(i);
        out.set(name, hist.percentiles());
        proof {
            let prefix = names.take(i as int);
            assert(names.take(i + 1) =~= prefix.push(name@));
            lemma_contains_push(prefix, name@);
        }
        i = i + 1;
    }
    proof {
        assert(names.take(i as int) =~= names);
        assert forall|k: Seq<char>| out@.contains_key(k) == hists@.contains_key(k) by {
            assert(names.to_set().contains(k) == hists@.dom().contains(k));
        }
        assert(out@.dom() =~= hists@.dom());
    }
    out
}

/// The name that a client address is shown by: the configured one, or the address.
pub open spec fn label_of(m: MatcherView, ip: Seq<char>) -> Seq<char> {
    match net::ip_of_text(ip) {
        Some(addr) => match clients::name_behind(m, addr) {
            Some(name) => name,
            None => ip,
        },
        None => ip,
    }
}

/// The counts of addresses, summed by the name they are shown by.
pub open spec fn by_label(ips: Seq<Seq<char>>, counts: Counts, m: MatcherView) -> Counts
    decreases ips.len(),
{
    if ips.len() == 0 {
        Map::empty()
    } else {
        counts::raised(
            by_label(ips.drop_last(), counts, m),
            label_of(m, ips.last()),
            counts[ips.last()],
        )
    }
}

/// The top-N client list from IP-keyed counts, resolving each IP to its current
/// configured name and aggregating per name.
fn top_clients_resolved(counts: &Table<u64>, matcher: &ClientMatcher, n: usize) -> (r: Vec<
    TopEntry,
>)
    ensures
        ranking::is_top(
            ranking::top_views(r@),
            by_label(counts.names(), counts@, matcher@),
            n as nat,
        ),
{
    let len: usize = counts.len();
    let ghost names = counts.names();
    let mut labelled: Table<u64> = Table::new();
    let mut i: usize = 0;
    assert(names.take(0) =~= Seq::empty());
    while i < len
        invariant
            i <= len,
            len == names.len(),
            names == counts.names(),
            labelled@ == by_label(names.take(i as int), counts@, matcher@),
        decreases len - i,
    {
        let (ip, count): (&str, &u64) = counts.at(i);
        assert(names.take(i + 1).drop_last() =~= names.take(i as int));
        assert(names.take(i + 1).last() == names[i as int]);
        match matcher.name_for_str(ip) {
            Some(label) => raise(&mut labelled, label, *count),
            None => raise(&mut labelled, ip, *count),
        }
        i = i + 1;
    }
    assert(names.take(i as int) =~= names);
    top_n_of(&labelled, n)
}

/// A snapshot of statistics for the API.
pub struct StatsSummary {
    pub total: u64,
    pub blocked: u64,
    pub cached: u64,
    pub rewritten: u64,
    pub errors: u64,
    /// p95 of successful-query processing latency (microseconds). Excludes errored
    /// queries and ignores the top 5% tail, so transient upstream failures don't
    /// skew it.
    pub p95_processing_us: u64,
    /// Most-resolved (non-blocked) query names.
    pub top_resolved_domains: Vec<TopEntry>,
    pub top_blocked_domains: Vec<TopEntry>,
    pub top_clients: Vec<TopEntry>,
    pub top_upstreams: Vec<TopEntry>,
    pub upstream_avg_rtt_us: Table<u64>,
    pub upstream_latency_pct: Table<LatencyPercentiles>,
    pub series: Vec<SeriesPoint>,
}

/// Whether a summary says what statistics do. The addresses of clients come in some
/// order, each once.
pub open spec fn summarizes(
    r: StatsSummary,
    s: StatsView,
    top_n: nat,
    m: MatcherView,
    ips: Seq<Seq<char>>,
) -> bool {
    &&& r.total == s.total
    &&& r.blocked == s.blocked
    &&& r.cached == s.cached
    &&& r.rewritten == s.rewritten
    &&& r.errors == s.errors
    &&& r.p95_processing_us == histogram::quantile_of(s.proc_time_hist, 95)
    &&& ranking::is_top(
        ranking::top_views(r.top_resolved_domains@),
        s.resolved_domains,
        top_n,
    )
    &&& ranking::is_top(ranking::top_views(r.top_blocked_domains@), s.blocked_domains, top_n)
    &&& ips.no_duplicates()
    &&& ips.to_set() == s.clients.dom()
    &&& ranking::is_top(ranking::top_views(r.top_clients@), by_label(ips, s.clients, m), top_n)
    &&& ranking::is_top(ranking::top_views(r.top_upstreams@), s.upstreams, top_n)
    &&& r.upstream_avg_rtt_us@.dom() == s.upstream_rtt_count.dom()
    &&& forall|k: Seq<char>| #[trigger]
        r.upstream_avg_rtt_us@.contains_key(k) ==> r.upstream_avg_rtt_us@[k] == if (
        s.upstream_rtt_count[k] > 0 && s.upstream_rtt_sum.contains_key(k)) {
            s.upstream_rtt_sum[k] / s.upstream_rtt_count[k]
        } else {
            0
        }
    &&& r.upstream_latency_pct@.dom() == s.upstream_latency_hist.dom()
    &&& forall|k: Seq<char>| #[trigger]
        r.upstream_latency_pct@.contains_key(k) ==> r.upstream_latency_pct@[k]
            == histogram::percentiles_of(s.upstream_latency_hist[k])
    &&& r.series@ == s.series
}

impl Stats {
    #[verifier::type_invariant]
    closed spec fn wf(self) -> bool {
        self.shards@.len() > 0
    }

    /// Statistics in so many shards as there are for so many processors.
    pub fn new(enabled: bool, retention_days: u32, anonymize: bool, cpus: usize) -> (r: Stats)
        requires
            retention_days <= u32::MAX / 24,
        ensures
            ({
                let n = shards_for(cpus, 1);
                &&& r@.shards == Seq::new(n, |i: int| no_stats())
                &&& r@.key_cap == keys_for(n)
                &&& r@.enabled == enabled
                &&& r@.anonymize == anonymize
                &&& r@.max_buckets == points_for(retention_days)
            }),
    {
        let n: usize = shard_count(cpus);
        let mut shards: Vec<StatsInner> = Vec::new();
        let mut i: usize = 0;
        while i < n
            invariant
                i <= n,
                shards@.len() == i,
                forall|k: int| 0 <= k < i ==> (#[trigger] shards@[k])@ == no_stats(),
            decreases n - i,
        {
            shards.push(StatsInner::default());
            i = i + 1;
        }
        let keys: usize = TOPK_KEYS / n;
        assert(inner_views(shards@) =~= Seq::new(n as nat, |i: int| no_stats()));
        Stats {
            shards,
            key_cap: if keys < MIN_SHARD_KEYS {
                MIN_SHARD_KEYS
            } else {
                keys
            },
            enabled,
            anonymize,
            max_buckets: points(retention_days),
        }
    }

    pub fn reconfigure(&mut self, enabled: bool, retention_days: u32, anonymize: bool)
        requires
            retention_days <= u32::MAX / 24,
        ensures
            final(self)@ == (ShardsView {
                shards: old(self)@.shards.map_values(
                    |s: StatsView| trimmed(s, points_for(retention_days) as usize),
                ),
                key_cap: old(self)@.key_cap,
                enabled,
                anonymize,
                max_buckets: points_for(retention_days) as usize,
            }),
    {
        proof {
            use_type_invariant(&*self);
        }
        let max: usize = points(retention_days);
        let ghost before = self.shards@;
        let mut shards: Vec<StatsInner> = vec![StatsInner::default()];
        std::mem::swap(&mut shards, &mut self.shards);
        let mut i: usize = 0;
        while i < shards.len()
            invariant
                i <= shards@.len() == before.len(),
                forall|k: int| 0 <= k < i ==> (#[trigger] shards@[k])@ == trimmed(before[k]@, max),
                forall|k: int| i <= k < shards@.len() ==> #[trigger] shards@[k] == before[k],
            decreases shards@.len() - i,
        {
            keep_latest(&mut shards[i].series, max);
            i = i + 1;
        }
        *self = Stats { shards, key_cap: self.key_cap, enabled, anonymize, max_buckets: max };
        assert(self@.shards =~= old(self)@.shards.map_values(
            |s: StatsView| trimmed(s, points_for(retention_days) as usize),
        ));
    }

    pub fn is_enabled(&self) -> (r: bool)
        ensures
            r == self@.enabled,
    {
        self.enabled
    }

    /// How many shards there are.
    pub fn shards(&self) -> (r: usize)
        ensures
            r == self@.shards.len(),
            r > 0,
    {
        proof {
            use_type_invariant(self);
        }
        self.shards.len()
    }

    /// Record one completed query in the shard of the calling thread. `rtt_us` is
    /// the answering upstream's own round-trip time; it should be `None` for
    /// queries that weren't forwarded.
    pub fn record(&mut self, slot: usize, entry: &QueryLogEntry, rtt_us: Option<u64>)
        ensures
            if !old(self)@.enabled {
                final(self)@ == old(self)@
            } else {
                let s = old(self)@;
                let at = (slot as int) % (s.shards.len() as int);
                &&& 0 <= at < s.shards.len()
                &&& final(self)@ == (ShardsView {
                    shards: s.shards.update(at, final(self)@.shards[at]),
                    ..s
                })
                &&& recorded(
                    s.shards[at],
                    final(self)@.shards[at],
                    entry@,
                    rtt_us,
                    s.key_cap,
                    s.max_buckets,
                    s.anonymize,
                )
            },
    {
        proof {
            use_type_invariant(&*self);
        }
        if !self.enabled {
            return;
        }
        let at: usize = slot % self.shards.len();
        let ghost before = self.shards@;
        let mut shards: Vec<StatsInner> = vec![StatsInner::default()];
        std::mem::swap(&mut shards, &mut self.shards);
        shards[at].record(entry, rtt_us, self.key_cap, self.max_buckets, self.anonymize);
        self.shards = shards;
        assert(self@.shards =~= old(self)@.shards.update(at as int, self@.shards[at as int]));
    }

    /// Reset all statistics.
    pub fn reset(&mut self)
        ensures
            final(self)@ == (ShardsView {
                shards: Seq::new(old(self)@.shards.len(), |i: int| no_stats()),
                ..old(self)@
            }),
    {
        self.fill(StatsInner::default());
        assert(self@.shards =~= Seq::new(old(self)@.shards.len(), |i: int| no_stats()));
    }

    /// Puts a state in the first shard, and clears the others.
    fn fill(&mut self, first: StatsInner)
        ensures
            final(self)@ == (ShardsView {
                shards: Seq::new(
                    old(self)@.shards.len(),
                    |i: int|
                        if i == 0 {
                            first@
                        } else {
                            no_stats()
                        },
                ),
                ..old(self)@
            }),
    {
        proof {
            use_type_invariant(&*self);
        }
        let n: usize = self.shards.len();
        let ghost state = first@;
        let mut shards: Vec<StatsInner> = Vec::new();
        shards.push(first);
        let mut i: usize = 1;
        while i < n
            invariant
                1 <= i <= n,
                shards@.len() == i,
                shards@[0]@ == state,
                forall|k: int| 1 <= k < i ==> (#[trigger] shards@[k])@ == no_stats(),
            decreases n - i,
        {
            shards.push(StatsInner::default());
            i = i + 1;
        }
        self.shards = shards;
        assert(self@.shards =~= Seq::new(
            old(self)@.shards.len(),
            |i: int|
                if i == 0 {
                    state
                } else {
                    no_stats()
                },
        ));
    }

    /// Merge every shard into a single view.
    fn merged(&self) -> (r: StatsInner)
        ensures
            r@ == merged_view(self@),
    {
        let mut acc: StatsInner = StatsInner::default();
        let ghost all = inner_views(self.shards@);
        let mut i: usize = 0;
        assert(all.take(0) =~= Seq::empty());
        while i < self.shards.len()
            invariant
                i <= self.shards@.len(),
                all == inner_views(self.shards@),
                acc@ == merged_all(all.take(i as int)),
            decreases self.shards@.len() - i,
        {
            proof {
                assert(all.take(i + 1).drop_last() =~= all.take(i as int));
                assert(all.take(i + 1).last() == self.shards@[i as int]@);
            }
            acc.merge_from(&self.shards[i]);
            i = i + 1;
        }
        assert(all.take(i as int) =~= all);
        keep_latest(&mut acc.series, self.max_buckets);
        acc
    }

    /// Build a snapshot for the API/UI. `matcher` is the current client matcher,
    /// used to resolve the IP-keyed client counts to friendly names at read time.
    pub fn snapshot(&self, top_n: usize, matcher: &ClientMatcher) -> (r: StatsSummary)
        ensures
            exists|ips: Seq<Seq<char>>| #[trigger]
                summarizes(r, merged_view(self@), top_n as nat, matcher@, ips),
    {
        let s: StatsInner = self.merged();
        let clients: &Table<u64> = s.clients.counts();
        let _ = clients.len();
        let r = StatsSummary {
            total: s.total,
            blocked: s.blocked,
            cached: s.cached,
            rewritten: s.rewritten,
            errors: s.errors,
            p95_processing_us: s.proc_time_hist.quantile(95),
            top_resolved_domains: top_n_of(s.resolved_domains.counts(), top_n),
            top_blocked_domains: top_n_of(s.blocked_domains.counts(), top_n),
            top_clients: top_clients_resolved(clients, matcher, top_n),
            top_upstreams: top_n_of(&s.upstreams, top_n),
            upstream_avg_rtt_us: average_rtts(&s.upstream_rtt_sum, &s.upstream_rtt_count),
            upstream_latency_pct: percentile_table(&s.upstream_latency_hist),
            series: s.series,
        };
        assert(summarizes(
            r,
            merged_view(self@),
            top_n as nat,
            matcher@,
            clients.names(),
        ));
        r
    }

    /// The state to persist. The cache's lifetime counters live on the cache, so
    /// the caller passes them to be stamped into it.
    pub fn export(&self, cache: CacheCounters) -> (r: StatsInner)
        ensures
            r@ == (StatsView { cache, ..merged_view(self@) }),
    {
        let mut merged: StatsInner = self.merged();
        merged.cache = cache;
        merged
    }

    /// Load persisted state. Everything is loaded into a single shard; the rest are
    /// cleared. Returns the cache counters that it carried, so the caller can seed
    /// the DNS cache.
    pub fn import(&mut self, loaded: StatsInner) -> (r: CacheCounters)
        ensures
            r == loaded@.cache,
            final(self)@ == (ShardsView {
                shards: Seq::new(
                    old(self)@.shards.len(),
                    |i: int|
                        if i == 0 {
                            loaded@
                        } else {
                            no_stats()
                        },
                ),
                ..old(self)@
            }),
    {
        let cache: CacheCounters = loaded.cache;
        self.fill(loaded);
        cache
    }
}

/// With the last points of the series alone.
pub open spec fn trimmed(s: StatsView, max: usize) -> StatsView {
    StatsView { series: series::latest(s.series, max), ..s }
}

/// How many points of the series are retained for so many days.
fn points(days: u32) -> (r: usize)
    requires
        days <= u32::MAX / 24,
    ensures
        r == points_for(days),
{
    let days: u32 = if days == 0 {
        1
    } else {
        days
    };
    (days * 24) as usize
}

/// A query that is recorded counts once in the merged statistics, whichever shard it
/// is recorded in.
pub proof fn law_recorded_once(
    shards: Seq<StatsView>,
    at: int,
    after: StatsView,
    e: querylog::EntryView,
    rtt_us: Option<u64>,
    cap: usize,
    max: usize,
    anonymize: bool,
)
    requires
        0 <= at < shards.len(),
        recorded(shards[at], after, e, rtt_us, cap, max, anonymize),
    ensures
        ({
            let before = merged_all(shards);
            let now = merged_all(shards.update(at, after));
            &&& now.total == histogram::sum64(before.total, 1)
            &&& now.blocked == plus_if(before.blocked, e.blocked())
            &&& now.cached == plus_if(before.cached, e.action is Cached)
            &&& now.rewritten == plus_if(before.rewritten, e.action is Rewritten)
            &&& now.errors == plus_if(before.errors, e.action is Error)
        }),
    decreases shards.len(),
{
    let init = shards.drop_last();
    let changed = shards.update(at, after);
    if at == shards.len() - 1 {
        assert(changed.drop_last() =~= init);
        assert(changed.last() == after);
    } else {
        law_recorded_once(init, at, after, e, rtt_us, cap, max, anonymize);
        assert(changed.drop_last() =~= init.update(at, after));
        assert(changed.last() == shards.last());
    }
}

proof fn lemma_series_from_none(s: Seq<SeriesPoint>)
    requires
        series::in_order(s),
    ensures
        series::with_points(Seq::empty(), s) == s,
    decreases s.len(),
{
    if s.len() > 0 {
        let init = s.drop_last();
        assert forall|i: int, j: int| 0 <= i < j < init.len() implies (#[trigger] init[i]).hour < (
        #[trigger] init[j]).hour by {
            assert(s[i].hour < s[j].hour);
        }
        lemma_series_from_none(init);
        if init.len() > 0 {
            assert(init.last() == s[s.len() - 2]);
            assert(s[s.len() - 2].hour < s[s.len() - 1].hour);
        }
        assert(init.push(s.last()) =~= s);
    } else {
        assert(s =~= Seq::empty());
    }
}

proof fn lemma_merge_into_none(s: StatsView)
    requires
        s.proc_time_hist.len() == histogram::BUCKETS,
        series::in_order(s.series),
    ensures
        merged_stats(no_stats(), s) == (StatsView { cache: cache::no_counts(), ..s }),
{
    let none = no_stats();
    let m = merged_stats(none, s);
    lemma_series_from_none(s.series);
    assert(m.proc_time_hist =~= s.proc_time_hist);
    assert(m.resolved_domains =~= s.resolved_domains);
    assert(m.blocked_domains =~= s.blocked_domains);
    assert(m.clients =~= s.clients);
    assert(m.upstreams =~= s.upstreams);
    assert(m.upstream_rtt_sum =~= s.upstream_rtt_sum);
    assert(m.upstream_rtt_count =~= s.upstream_rtt_count);
    assert(m.upstream_latency_hist =~= s.upstream_latency_hist);
}

proof fn lemma_merge_none(s: StatsView)
    requires
        s.proc_time_hist.len() == histogram::BUCKETS,
    ensures
        merged_stats(s, no_stats()) == s,
{
    let m = merged_stats(s, no_stats());
    assert(m.proc_time_hist =~= s.proc_time_hist);
    assert(m.resolved_domains =~= s.resolved_domains);
    assert(m.blocked_domains =~= s.blocked_domains);
    assert(m.clients =~= s.clients);
    assert(m.upstreams =~= s.upstreams);
    assert(m.upstream_rtt_sum =~= s.upstream_rtt_sum);
    assert(m.upstream_rtt_count =~= s.upstream_rtt_count);
    assert(m.upstream_latency_hist =~= s.upstream_latency_hist);
    assert(m.series =~= s.series);
}

proof fn lemma_merge_one(shards: Seq<StatsView>, s: StatsView)
    requires
        shards.len() > 0,
        s.proc_time_hist.len() == histogram::BUCKETS,
        series::in_order(s.series),
        shards[0] == s,
        forall|i: int| 1 <= i < shards.len() ==> #[trigger] shards[i] == no_stats(),
    ensures
        merged_all(shards) == (StatsView { cache: cache::no_counts(), ..s }),
    decreases shards.len(),
{
    let init = shards.drop_last();
    if shards.len() == 1 {
        assert(merged_all(init) == no_stats());
        lemma_merge_into_none(s);
        assert(shards.last() == s);
    } else {
        lemma_merge_one(init, s);
        assert(shards.last() == no_stats());
        lemma_merge_none(StatsView { cache: cache::no_counts(), ..s });
    }
}

/// What is exported is well kept, and so what is imported again reads as it did.
pub proof fn law_export_import(s: ShardsView, fresh: ShardsView, counters: CacheCounters)
    requires
        s.shards.len() > 0,
        fresh.shards.len() > 0,
        s.max_buckets <= fresh.max_buckets,
        forall|i: int|
            0 <= i < s.shards.len() ==> (#[trigger] s.shards[i]).proc_time_hist.len()
                == histogram::BUCKETS,
    ensures
        ({
            let exported = StatsView { cache: counters, ..merged_view(s) };
            let imported = ShardsView {
                shards: Seq::new(
                    fresh.shards.len(),
                    |i: int|
                        if i == 0 {
                            exported
                        } else {
                            no_stats()
                        },
                ),
                ..fresh
            };
            merged_view(imported) == (StatsView {
                cache: cache::no_counts(),
                ..merged_view(s)
            })
        }),
{
    let exported = StatsView { cache: counters, ..merged_view(s) };
    let shards = Seq::new(
        fresh.shards.len(),
        |i: int|
            if i == 0 {
                exported
            } else {
                no_stats()
            },
    );
    lemma_merged_kept(s.shards);
    assert(series::in_order(exported.series));
    lemma_merge_one(shards, exported);
}

proof fn lemma_merged_kept(shards: Seq<StatsView>)
    requires
        forall|i: int|
            0 <= i < shards.len() ==> (#[trigger] shards[i]).proc_time_hist.len()
                == histogram::BUCKETS,
    ensures
        series::in_order(merged_all(shards).series),
        merged_all(shards).proc_time_hist.len() == histogram::BUCKETS,
    decreases shards.len(),
{
    if shards.len() > 0 {
        let init = shards.drop_last();
        assert forall|i: int| 0 <= i < init.len() implies (#[trigger] init[i]).proc_time_hist.len()
            == histogram::BUCKETS by {
            assert(init[i] == shards[i]);
        }
        lemma_merged_kept(init);
        series::law_series_in_order(merged_all(init).series, shards.last().series);
    }
}

} // verus!
