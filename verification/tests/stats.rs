//! Statistics.

use bulwark::config::settings::ClientConfig;
use bulwark::engine::cache::CacheCounters;
use bulwark::engine::clients::ClientMatcher;
use bulwark::engine::counts::HeavyHitters;
use bulwark::engine::histogram::{hist_index, Histogram};
use bulwark::engine::querylog::{QueryAction, QueryLogEntry};
use bulwark::engine::ranking::{top_n_of, TopEntry};
use bulwark::engine::series::{add_point, SeriesPoint};
use bulwark::engine::stats::{shard_count, Stats, StatsInner, TOPK_KEYS};
use bulwark::engine::table::Table;

fn entry(q: &str, action: QueryAction, us: u64) -> QueryLogEntry {
    QueryLogEntry {
        id: 0,
        time_ms: 1_700_000_000_000,
        client_ip: "10.0.0.1".to_string(),
        question: q.to_string(),
        qtype: "A".to_string(),
        action,
        allowlisted: false,
        rcode: "NOERROR".to_string(),
        answers: vec![],
        elapsed_us: us,
    }
}

fn blocked() -> QueryAction {
    QueryAction::Blocked {
        rule: "||ads^".to_string(),
        list_id: 0,
    }
}

fn forwarded(up: &str) -> QueryAction {
    QueryAction::Forwarded {
        upstream: up.to_string(),
    }
}

fn entry_ip(ip: &str, action: QueryAction) -> QueryLogEntry {
    QueryLogEntry {
        client_ip: ip.to_string(),
        ..entry("x.com.", action, 1_000)
    }
}

fn pairs(v: &[TopEntry]) -> Vec<(&str, u64)> {
    v.iter().map(|t| (t.name.as_str(), t.count)).collect()
}

#[test]
fn counts_and_top_n() {
    let mut s = Stats::new(true, 30, false, 4);
    s.record(0, &entry("ads.com.", blocked(), 500), None);
    s.record(0, &entry("ads.com.", blocked(), 500), None);
    s.record(0, &entry("good.com.", forwarded("1.1.1.1"), 12_000), Some(12_000));
    s.record(0, &entry("good.com.", QueryAction::Cached, 100), None);

    let snap = s.snapshot(10, &ClientMatcher::default());
    assert_eq!(snap.total, 4);
    assert_eq!(snap.blocked, 2);
    assert_eq!(snap.cached, 1);
    assert_eq!(snap.top_resolved_domains[0].name, "good.com");
    assert_eq!(snap.top_resolved_domains[0].count, 2);
    assert!(snap.top_resolved_domains.iter().all(|t| t.name != "ads.com"));
    assert_eq!(snap.top_blocked_domains[0].count, 2);
    assert!(snap.upstream_avg_rtt_us.get("1.1.1.1").is_some());
}

#[test]
fn top_clients_resolve_names_retroactively() {
    let mut s = Stats::new(true, 30, false, 4);
    s.record(0, &entry_ip("10.0.0.1", forwarded("u")), None);
    s.record(1, &entry_ip("10.0.0.2", forwarded("u")), None);
    s.record(2, &entry_ip("10.0.0.2", forwarded("u")), None);
    s.record(3, &entry_ip("192.168.1.5", forwarded("u")), None);

    let bare = s.snapshot(10, &ClientMatcher::default());
    assert_eq!(bare.top_clients.len(), 3);

    let m = ClientMatcher::build(&[ClientConfig {
        id: "lan".to_string(),
        name: "lan".to_string(),
        ids: vec!["10.0.0.0/24".to_string()],
        tags: vec![],
        filtering_enabled: true,
    }]);
    let named = s.snapshot(10, &m);
    assert_eq!(named.top_clients.len(), 2);
    let lan = named
        .top_clients
        .iter()
        .find(|t| t.name == "lan")
        .expect("named row present");
    assert_eq!(lan.count, 3);
    assert!(named.top_clients.iter().any(|t| t.name == "192.168.1.5"));
}

#[test]
fn anonymize_skips_client_counts() {
    let mut s = Stats::new(true, 30, true, 4);
    s.record(0, &entry_ip("10.0.0.1", forwarded("u")), None);
    s.record(0, &entry_ip("10.0.0.2", forwarded("u")), None);
    let snap = s.snapshot(10, &ClientMatcher::default());
    assert_eq!(snap.total, 2, "queries are still counted");
    assert!(
        snap.top_clients.is_empty(),
        "no client IP is retained when anonymizing"
    );
}

#[test]
fn export_import_roundtrip() {
    let mut s = Stats::new(true, 30, false, 4);
    s.record(0, &entry("x.com.", forwarded("8.8.8.8"), 3_000), Some(3_000));
    let dump = s.export(CacheCounters::default());
    let mut s2 = Stats::new(true, 30, false, 4);
    s2.import(dump);
    assert_eq!(s2.snapshot(10, &ClientMatcher::default()).total, 1);
}

#[test]
fn cache_counters_survive_export_import() {
    let s = Stats::new(true, 30, false, 4);
    let counters = CacheCounters {
        hits: 900,
        misses: 100,
        stale_hits: 120,
        refreshes: 118,
        refresh_failures: 4,
    };
    let dump = s.export(counters);

    let mut s2 = Stats::new(true, 30, false, 4);
    let restored = s2.import(dump);
    assert_eq!(restored.hits, 900);
    assert_eq!(restored.misses, 100);
    assert_eq!(restored.stale_hits, 120);
    assert_eq!(restored.refreshes, 118);
    assert_eq!(restored.refresh_failures, 4);
}

#[test]
fn import_of_legacy_blob_without_cache_counters_is_zero() {
    let mut s = Stats::new(true, 30, false, 4);
    let legacy = StatsInner {
        total: 5,
        blocked: 1,
        cached: 2,
        ..StatsInner::default()
    };
    let restored = s.import(legacy);
    assert_eq!(restored.hits, 0);
    assert_eq!(restored.refreshes, 0);
    assert_eq!(s.snapshot(10, &ClientMatcher::default()).total, 5);
}

#[test]
fn per_upstream_percentiles() {
    let mut s = Stats::new(true, 30, false, 4);
    for _ in 0..95 {
        s.record(0, &entry("a.com.", forwarded("up"), 5_000), Some(5_000));
    }
    for _ in 0..5 {
        s.record(0, &entry("a.com.", forwarded("up"), 300_000), Some(300_000));
    }
    let snap = s.snapshot(10, &ClientMatcher::default());
    let p = snap.upstream_latency_pct.get("up").expect("upstream present");
    assert!(p.p50 <= 5_000, "p50 = {}", p.p50);
    assert!(p.p90 <= 5_000, "p90 = {}", p.p90);
    assert!(p.p99 > 200_000, "p99 = {}", p.p99);
    assert_eq!(*snap.upstream_avg_rtt_us.get("up").unwrap(), 19_750);
}

#[test]
fn per_upstream_latency_ignores_failover_wall_clock() {
    let mut s = Stats::new(true, 30, false, 4);
    for _ in 0..100 {
        s.record(0, &entry("a.com.", forwarded("fast"), 1_010_000), Some(5_000));
    }
    let snap = s.snapshot(10, &ClientMatcher::default());
    let p = snap.upstream_latency_pct.get("fast").expect("upstream present");
    assert!(
        p.p99 <= 5_000,
        "p99 = {} (should track RTT, not timeout)",
        p.p99
    );
    let avg = *snap.upstream_avg_rtt_us.get("fast").unwrap();
    assert!(avg <= 5_000, "avg = {avg}");
    assert!(
        snap.p95_processing_us >= 1_000_000,
        "p95_proc = {}",
        snap.p95_processing_us
    );
}

#[test]
fn errored_queries_excluded_from_processing_latency() {
    let mut s = Stats::new(true, 30, false, 4);
    for _ in 0..100 {
        s.record(0, &entry("ok.com.", forwarded("1.1.1.1"), 3_000), Some(3_000));
    }
    for _ in 0..10 {
        s.record(0, &entry("dead.com.", QueryAction::Error, 5_000_000), None);
    }
    let snap = s.snapshot(10, &ClientMatcher::default());
    assert_eq!(snap.errors, 10);
    assert!(
        snap.p95_processing_us <= 5_000,
        "p95 should ignore errored timeouts, got {}",
        snap.p95_processing_us
    );
}

#[test]
fn time_series_buckets_by_hour() {
    let mut s = Stats::new(true, 1, false, 4);
    s.record(0, &entry("x.com.", forwarded("1.1.1.1"), 1_000), Some(1_000));
    s.record(0, &entry("y.com.", blocked(), 1_000), None);
    let snap = s.snapshot(10, &ClientMatcher::default());
    assert_eq!(snap.series.len(), 1);
    assert_eq!(snap.series[0].total, 2);
    assert_eq!(snap.series[0].blocked, 1);
    assert_eq!(snap.series[0].hour, 1_700_000_000 / 3600);
}

#[test]
fn heavy_hitters_bound_memory_under_high_cardinality() {
    let mut s = Stats::new(true, 30, false, 16);
    for i in 0..200_000u32 {
        let name = format!("h{i}.example.");
        s.record(0, &entry(&name, forwarded("u"), 1_000), Some(1_000));
    }
    let held = s.export(CacheCounters::default()).resolved_domains.counts().len();
    assert!(held <= TOPK_KEYS / 16, "held {held} keys");
}

#[test]
fn late_heavy_hitter_still_ranks() {
    let mut s = Stats::new(true, 30, false, 16);
    for i in 0..(TOPK_KEYS * 4) {
        s.record(0, &entry(&format!("noise{i}.example."), forwarded("u"), 1_000), Some(1_000));
    }
    for _ in 0..500 {
        s.record(0, &entry("late-popular.example.", forwarded("u"), 1_000), Some(1_000));
    }
    let snap = s.snapshot(10, &ClientMatcher::default());
    assert!(
        snap.top_resolved_domains
            .iter()
            .any(|t| t.name == "late-popular.example"),
        "late heavy hitter missing from top-N"
    );
}

#[test]
fn heavy_hitters_rebuild_index_after_serde_round_trip() {
    let cap = 4;
    let mut h = HeavyHitters::new();
    h.bump("a", 5, cap);
    h.bump("b", 1, cap);
    h.bump("c", 3, cap);
    h.bump("hot", 10, cap);

    let mut bare: Vec<(String, u64)> = vec![];
    for i in 0..h.counts().len() {
        let (name, count) = h.counts().at(i);
        bare.push((name.to_string(), *count));
    }
    assert!(bare.contains(&("hot".to_string(), 10)));
    assert_eq!(bare.len(), 4);

    let mut reloaded = HeavyHitters::from_counts(&bare);
    assert_eq!(reloaded.counts().len(), 4, "index and counts must agree");
    reloaded.bump("new", 1, cap);
    assert!(reloaded.counts().get("b").is_none(), "min entry must be evicted");
    assert_eq!(reloaded.counts().get("new"), Some(&2), "newcomer inherits min + 1");
    for (k, v) in [("a", 5), ("c", 3), ("hot", 10)] {
        assert_eq!(reloaded.counts().get(k), Some(&v), "{k} must be untouched");
    }
    assert_eq!(reloaded.counts().len(), 4, "index stays in step after evict");
}

#[test]
fn frequent_names_outlast_a_stream_of_rare_ones() {
    let mut h = HeavyHitters::new();
    for i in 0..1_000 {
        h.bump(&format!("rare{i}"), 1, 8);
        if i % 4 == 0 {
            h.bump("frequent", 1, 8);
        }
    }
    assert_eq!(h.counts().len(), 8);
    let count = *h.counts().get("frequent").expect("a frequent name is held");
    assert!((250..=1_250).contains(&count));
}

#[test]
fn aggregates_across_shards() {
    let mut s = Stats::new(true, 30, false, 16);
    for slot in 0..16 {
        for _ in 0..1000 {
            s.record(slot, &entry("ads.com.", blocked(), 500), None);
        }
    }
    let snap = s.snapshot(10, &ClientMatcher::default());
    assert_eq!(snap.total, 16_000);
    assert_eq!(snap.blocked, 16_000);
    assert_eq!(snap.top_blocked_domains[0].count, 16_000);
}

#[test]
fn disabled_stats_record_nothing() {
    let mut s = Stats::new(false, 30, false, 4);
    s.record(0, &entry("a.com.", blocked(), 500), None);
    assert!(!s.is_enabled());
    assert_eq!(s.snapshot(10, &ClientMatcher::default()).total, 0);
    s.reconfigure(true, 30, false);
    s.record(0, &entry("a.com.", blocked(), 500), None);
    assert_eq!(s.snapshot(10, &ClientMatcher::default()).total, 1);
    s.reset();
    assert_eq!(s.snapshot(10, &ClientMatcher::default()).total, 0);
}

#[test]
fn old_points_go() {
    let mut s = Stats::new(true, 2, false, 1);
    let mut e = entry("a.com.", QueryAction::Cached, 500);
    for hour in 0..60 {
        e.time_ms = hour * 3_600_000;
        s.record(0, &e, None);
    }
    let snap = s.snapshot(10, &ClientMatcher::default());
    assert_eq!(snap.series.len(), 48);
    assert_eq!((snap.series[0].hour, snap.series[47].hour), (12, 59));
    s.reconfigure(true, 0, false);
    let snap = s.snapshot(10, &ClientMatcher::default());
    assert_eq!(snap.series.len(), 24, "at least a day");
}

#[test]
fn points_merge_in_order() {
    let point = |hour, total| SeriesPoint {
        hour,
        total,
        blocked: 0,
        cached: 1,
    };
    let mut s = vec![point(1, 1), point(5, 1)];
    add_point(&mut s, point(3, 7));
    add_point(&mut s, point(5, 2));
    assert_eq!(s.iter().map(|p| (p.hour, p.total)).collect::<Vec<_>>(), [(1, 1), (3, 7), (5, 3)]);
    assert_eq!(s[2].cached, 2);
}

#[test]
fn shards_are_a_power_of_two() {
    let counts: Vec<usize> = [0, 1, 2, 3, 5, 16, 17, 63, 200].iter().map(|&n| shard_count(n)).collect();
    assert_eq!(counts, [1, 1, 2, 4, 8, 16, 32, 64, 64]);
}

#[test]
fn latency_buckets() {
    assert_eq!(hist_index(0), 0);
    assert_eq!(hist_index(1_000), 0);
    assert_eq!(hist_index(1_001), 1);
    assert_eq!(hist_index(1_000_000), 9);
    assert_eq!(hist_index(1_000_001), 10);
}

#[test]
fn quantiles_interpolate() {
    let mut h = Histogram::new();
    assert_eq!(h.quantile(95), 0);
    for _ in 0..10 {
        h.record(8_000);
    }
    assert_eq!(h.quantile(50), 7_500, "halfway through 5 to 10 ms");
    assert_eq!(h.quantile(100), 10_000);
    h.record(2_000_000);
    assert_eq!(h.quantile(100), 1_000_000, "the last bucket pins to its lower bound");
    assert_eq!(Histogram::from_counts(&vec![1, 2]).count(1), 2);
    assert_eq!(Histogram::from_matching_counts(&vec![1, 2]).count(1), 0);
    assert_eq!(Histogram::from_matching_counts(&vec![3; 11]).count(10), 3);
}

#[test]
fn ranks_by_count_then_name() {
    let mut t: Table<u64> = Table::new();
    for (name, count) in [("b", 2), ("a", 2), ("c", 9), ("d", 1)] {
        t.set(name, count);
    }
    assert_eq!(pairs(&top_n_of(&t, 3)), [("c", 9), ("a", 2), ("b", 2)]);
    assert_eq!(top_n_of(&t, 0).len(), 0);
    assert_eq!(top_n_of(&t, 10).len(), 4);
}

#[test]
fn counting_adds_to_the_sum() {
    let mut h = HeavyHitters::new();
    let mut sum = 0;
    for (name, by) in [("a", 5), ("b", 1), ("c", 2), ("b", 4), ("d", 3)] {
        h.bump(name, by, 2);
        sum += by;
        let t = h.counts();
        assert_eq!((0..t.len()).map(|i| *t.at(i).1).sum::<u64>(), sum);
        assert!(t.get(name).is_some() && t.len() <= 2);
    }
}
