//! The response cache and its snapshots.

use bulwark::engine::cache::{
    adjust_ttls, cacheable_ttl, negative_ttl, shard_cap, shard_count, shards_used, summarize_answers,
    CacheConfig, CacheCounters, CachedResponse, DnsCache, HitFreshness,
};
use bulwark::engine::lru_store::{Outcome, ResponseVerdict};
use bulwark::engine::snapshot::{read_snapshot, wire_matches_key};
use bulwark::filter::engine::MatchInfo;
use bulwark::message::{
    new_record, read_message, write_message, DnsMessage, CLASS_IN, NO_ERROR, NX_DOMAIN, OP_QUERY,
    SERV_FAIL, TYPE_A,
};
use bulwark::upstream::transport::QueryKey;
use hickory_proto::op::Query;
use hickory_proto::rr::rdata::{A, OPT, SOA};
use hickory_proto::rr::{DNSClass, Name, RData, RecordType};

/// When the entries of these tests are stored, by the cache's clock in milliseconds
/// and by the wall clock in seconds.
const T: u64 = 100_000_000;
const UNIX: u64 = 1_700_000_000;

fn name(s: &str) -> Name {
    s.parse().unwrap()
}

fn key(name: &str) -> QueryKey {
    QueryKey {
        name: name.to_string(),
        rtype: TYPE_A,
        class: CLASS_IN,
        dnssec_ok: false,
        checking_disabled: false,
    }
}

fn answer(host: &str, ttl: u32) -> DnsMessage {
    let mut m = DnsMessage::new(1, true, OP_QUERY);
    let mut q = Query::query(name(host), RecordType::A);
    q.set_query_class(DNSClass::IN);
    m.queries.push(q);
    m.answers
        .push(new_record(name(host), ttl, RData::A(A::new(1, 2, 3, 4))));
    m
}

#[test]
fn caches_and_returns_with_decreasing_ttl() {
    let mut cache = DnsCache::new(100, 0, 0, 0);
    cache.insert(key("a.com."), &answer("a.com.", 100), T);
    let hit = cache.get(&key("a.com."), 0, T).unwrap();
    assert!(!hit.freshness.requires_refresh());
    let m = hit.response.into_message();
    assert!(m.answers[0].ttl <= 100);
    assert!(m.answers[0].ttl >= 99);
    let later = cache.get(&key("a.com."), 0x4242, T + 40_000).unwrap();
    let m = later.response.into_message();
    assert_eq!(m.answers[0].ttl, 60);
    assert_eq!(m.id, 0x4242);
}

#[test]
fn min_ttl_clamp_raises_short_ttls() {
    let mut cache = DnsCache::new(100, 60, 0, 0);
    cache.insert(key("b.com."), &answer("b.com.", 5), T);
    let hit = cache.get(&key("b.com."), 0, T).unwrap();
    assert!(hit.response.into_message().answers[0].ttl >= 59);
}

#[test]
fn max_ttl_clamp_caps_long_ttls() {
    let mut cache = DnsCache::new(100, 0, 100, 0);
    cache.insert(key("c.com."), &answer("c.com.", 100_000), T);
    let hit = cache.get(&key("c.com."), 0, T).unwrap();
    assert!(hit.response.into_message().answers[0].ttl <= 100);
}

#[test]
fn expired_entry_is_a_miss_without_optimistic() {
    let mut cache = DnsCache::new(100, 0, 0, 0);
    cache.insert(key("d.com."), &answer("d.com.", 1), T);
    assert!(cache.get(&key("missing.com."), 0, T).is_none());
    assert!(cache.get(&key("d.com."), 0, T + 1_000).is_none());
    assert!(cache.is_empty(), "the dead entry goes");
}

#[test]
fn does_not_cache_servfail() {
    let mut cache = DnsCache::new(100, 0, 0, 0);
    let mut m = answer("e.com.", 100);
    m.answers.clear();
    m.response_code = SERV_FAIL;
    cache.insert(key("e.com."), &m, T);
    assert!(cache.get(&key("e.com."), 0, T).is_none());
}

#[test]
fn negative_response_uses_default_ttl() {
    let mut cache = DnsCache::new(100, 0, 0, 0);
    let mut m = answer("f.com.", 100);
    m.answers.clear();
    m.response_code = NX_DOMAIN;
    cache.insert(key("f.com."), &m, T);
    assert!(cache.get(&key("f.com."), 0, T).is_some());
    assert!(cache.get(&key("f.com."), 0, T + 29_000).is_some());
    assert!(cache.get(&key("f.com."), 0, T + 30_000).is_none());
}

#[test]
fn negative_ttl_is_the_lesser_of_minimum_and_ttl() {
    let mut m = answer("f.com.", 100);
    m.answers.clear();
    let soa = |minimum| {
        RData::SOA(SOA::new(name("ns.f.com."), name("h.f.com."), 1, 2, 3, 4, minimum))
    };
    assert_eq!(negative_ttl(&m), 30);
    m.authorities.push(new_record(name("f.com."), 500, RData::A(A::new(1, 1, 1, 1))));
    m.authorities.push(new_record(name("f.com."), 500, soa(90)));
    assert_eq!(negative_ttl(&m), 90);
    m.authorities[1].ttl = 20;
    assert_eq!(negative_ttl(&m), 20);
    m.authorities[1].ttl = 0;
    assert_eq!(negative_ttl(&m), 1, "at least a second");
}

#[test]
fn cacheable_ttls() {
    let cfg = CacheConfig {
        enabled: true,
        min_ttl: 0,
        max_ttl: 0,
        stale_max_age: 0,
        store_summaries: true,
    };
    let mut m = answer("a.com.", 300);
    m.answers.push(new_record(name("a.com."), 60, RData::A(A::new(5, 6, 7, 8))));
    assert_eq!(cacheable_ttl(&cfg, &m), Some(60), "the least of the answers");
    m.answers[1].ttl = 0;
    assert_eq!(cacheable_ttl(&cfg, &m), None, "a TTL of zero");
    m.answers[1].ttl = 60;
    m.truncation = true;
    assert_eq!(cacheable_ttl(&cfg, &m), None, "truncated");
}

#[test]
fn reconfigure_disables_and_clears() {
    let mut cache = DnsCache::new(100, 0, 0, 0);
    cache.insert(key("g.com."), &answer("g.com.", 100), T);
    assert_eq!(cache.len(), 1);
    cache.reconfigure(false, 100, 0, 0, 0);
    assert!(cache.get(&key("g.com."), 0, T).is_none());
    assert_eq!(cache.len(), 0);
    assert!(!cache.is_enabled());
}

#[test]
fn reconfigure_shrinks() {
    let mut cache = DnsCache::new(3, 0, 0, 0);
    for n in ["a.", "b.", "c."] {
        cache.insert(key(n), &answer(n, 100), T);
    }
    assert!(cache.get(&key("a."), 0, T).is_some());
    cache.reconfigure(true, 2, 0, 0, 0);
    assert_eq!(cache.len(), 2);
    assert!(cache.get(&key("b."), 0, T).is_none(), "used least recently");
    assert!(cache.get(&key("a."), 0, T).is_some());
    assert!(cache.get(&key("c."), 0, T).is_some());
}

#[test]
fn the_least_recently_used_goes_first() {
    let mut cache = DnsCache::new(2, 0, 0, 0);
    cache.insert(key("a."), &answer("a.", 100), T);
    cache.insert(key("b."), &answer("b.", 100), T);
    assert!(cache.get(&key("a."), 0, T).is_some());
    cache.insert(key("c."), &answer("c.", 100), T);
    assert!(cache.get(&key("b."), 0, T).is_none());
    assert!(cache.get(&key("a."), 0, T).is_some());
    assert_eq!(cache.len(), 2);
    cache.clear();
    assert!(cache.is_empty());
}

#[test]
fn optimistic_serves_stale_within_window() {
    let mut cache = DnsCache::new(100, 0, 0, 3600);
    cache.insert(key("h.com."), &answer("h.com.", 1), T);
    let hit = cache.get(&key("h.com."), 0, T + 10_000).expect("stale hit");
    assert!(hit.freshness.requires_refresh());
    assert_eq!(hit.freshness, HitFreshness::Stale);
    assert_eq!(hit.response.into_message().answers[0].ttl, 1);

    cache.insert(key("h.com."), &answer("h.com.", 1), T);
    assert!(cache.get(&key("h.com."), 0, T + 7_200_000).is_none());
}

#[test]
fn counters_split_fresh_from_stale_and_track_refreshes() {
    let mut cache = DnsCache::new(100, 0, 0, 3600);
    cache.insert(key("c.com."), &answer("c.com.", 1), T);

    cache.get(&key("c.com."), 0, T).expect("fresh hit");
    assert_eq!(cache.hit_count(), 1);
    assert_eq!(cache.stale_hit_count(), 0);

    assert!(cache
        .get(&key("c.com."), 0, T + 10_000)
        .expect("stale hit")
        .freshness
        .requires_refresh());
    assert_eq!(cache.hit_count(), 2, "stale serve still counts as a hit");
    assert_eq!(cache.stale_hit_count(), 1, "...and as a stale hit");

    assert!(cache.get(&key("absent.com."), 0, T).is_none());
    assert_eq!(cache.miss_count(), 1);

    cache.note_refresh_started();
    cache.note_refresh_started();
    cache.note_refresh_failed();
    let c = cache.counters();
    assert_eq!(c.refreshes, 2);
    assert_eq!(c.refresh_failures, 1);
    assert_eq!(c.hits, 2);
    assert_eq!(c.stale_hits, 1);
    assert_eq!((cache.refresh_count(), cache.refresh_failure_count()), (2, 1));
    cache.reset_counters();
    assert_eq!(cache.counters(), CacheCounters::default());
    cache.seed_counters(c);
    assert_eq!(cache.counters(), c);
}

#[test]
fn snapshot_roundtrips_fresh_entry() {
    let mut cache = DnsCache::new(100, 0, 0, 0);
    cache.insert(key("a.com."), &answer("a.com.", 100), T);
    let blob = cache.export_snapshot(UNIX, T + 2_000);

    let mut restored = DnsCache::new(100, 0, 0, 0);
    assert_eq!(restored.import_snapshot(&blob, UNIX + 1, 50_000), 1);
    let hit = restored.get(&key("a.com."), 0, 50_000).expect("restored hit");
    assert!(!hit.freshness.requires_refresh());
    let m = hit.response.into_message();
    assert!(m.answers[0].ttl <= 100 && m.answers[0].ttl >= 95);
    assert_eq!(m.answers[0].ttl, 97, "aged before and between");
}

#[test]
fn snapshot_preserves_answers_and_rcode_for_logging() {
    let mut cache = DnsCache::new(100, 0, 0, 0);
    cache.insert(key("a.com."), &answer("a.com.", 100), T);
    let blob = cache.export_snapshot(UNIX, T);

    let mut restored = DnsCache::new(100, 0, 0, 0);
    restored.import_snapshot(&blob, UNIX, T);
    match restored.get(&key("a.com."), 0, T).unwrap().response {
        CachedResponse::Wire { rcode, answers, .. } => {
            assert_eq!(rcode, NO_ERROR);
            assert_eq!(answers, ["A 1.2.3.4".to_string()]);
        }
        CachedResponse::Message(_) => panic!("expected wire form"),
    }
}

#[test]
fn snapshot_keeps_stale_servable_entry() {
    let mut cache = DnsCache::new(100, 0, 0, 3600);
    cache.insert(key("h.com."), &answer("h.com.", 1), T);
    let blob = cache.export_snapshot(UNIX, T + 10_000);

    let mut restored = DnsCache::new(100, 0, 0, 3600);
    assert_eq!(restored.import_snapshot(&blob, UNIX, T), 1);
    assert!(restored
        .get(&key("h.com."), 0, T)
        .expect("stale hit")
        .freshness
        .requires_refresh());
}

#[test]
fn snapshot_drops_dead_entry() {
    let mut cache = DnsCache::new(100, 0, 0, 5);
    cache.insert(key("d.com."), &answer("d.com.", 1), T);
    let blob = cache.export_snapshot(UNIX, T + 60_000);

    let mut restored = DnsCache::new(100, 0, 0, 5);
    assert_eq!(restored.import_snapshot(&blob, UNIX, T), 0);
}

#[test]
fn import_ignores_garbage() {
    let mut cache = DnsCache::new(100, 0, 0, 0);
    assert_eq!(cache.import_snapshot(b"", UNIX, T), 0);
    assert_eq!(cache.import_snapshot(b"not a snapshot at all", UNIX, T), 0);
    let mut blob = b"BLWKCSN2".to_vec();
    blob.extend_from_slice(&UNIX.to_le_bytes());
    blob.extend_from_slice(&5u32.to_le_bytes());
    assert_eq!(cache.import_snapshot(&blob, UNIX, T), 0);
}

#[test]
fn import_drops_what_died_meanwhile() {
    let mut cache = DnsCache::new(100, 0, 0, 0);
    cache.insert(key("a.com."), &answer("a.com.", 100), T);
    cache.insert(key("b.com."), &answer("b.com.", 1000), T);
    let blob = cache.export_snapshot(UNIX, T);
    let mut restored = DnsCache::new(100, 0, 0, 0);
    assert_eq!(restored.import_snapshot(&blob, UNIX + 100, T), 1);
    assert!(restored.get(&key("a.com."), 0, T).is_none());
    assert!(restored.get(&key("b.com."), 0, T).is_some());
    let mut young = DnsCache::new(100, 0, 0, 0);
    assert_eq!(young.import_snapshot(&blob, UNIX + 50, 20_000), 0, "older than the clock");
}

#[test]
fn import_keeps_what_comes_before_a_corrupt_tail() {
    let mut cache = DnsCache::new(100, 0, 0, 0);
    cache.insert(key("a.com."), &answer("a.com.", 100), T);
    cache.insert(key("b.com."), &answer("b.com.", 100), T);
    let mut blob = cache.export_snapshot(UNIX, T);
    blob.pop();
    let snapshot = read_snapshot(&blob).unwrap();
    assert_eq!(snapshot.unix, UNIX);
    assert_eq!(snapshot.records.len(), 1);
    assert_eq!(snapshot.records[0].key.name, "b.com.", "the latest first");
    assert_eq!((snapshot.records[0].age, snapshot.records[0].ttl), (0, 100));
}

#[test]
fn snapshot_text_that_is_not_utf8_is_replaced() {
    let mut blob = b"BLWKCSN2".to_vec();
    blob.extend_from_slice(&UNIX.to_le_bytes());
    blob.extend_from_slice(&1u32.to_le_bytes());
    let good = write_message(&answer("a.com.", 60)).unwrap();
    blob.extend_from_slice(&6u16.to_le_bytes());
    blob.extend_from_slice(b"A.COM.");
    blob.extend_from_slice(&TYPE_A.to_le_bytes());
    blob.extend_from_slice(&CLASS_IN.to_le_bytes());
    blob.push(0);
    blob.extend_from_slice(&0u32.to_le_bytes());
    blob.extend_from_slice(&60u32.to_le_bytes());
    blob.extend_from_slice(&NO_ERROR.to_le_bytes());
    blob.extend_from_slice(&1u16.to_le_bytes());
    blob.extend_from_slice(&2u16.to_le_bytes());
    blob.extend_from_slice(&[b'x', 0xff]);
    blob.extend_from_slice(&(good.len() as u32).to_le_bytes());
    blob.extend_from_slice(&good);
    blob.extend_from_slice(&0u32.to_le_bytes());
    let snapshot = read_snapshot(&blob).unwrap();
    assert_eq!(snapshot.records[0].answers, ["x\u{fffd}"]);
}

#[test]
fn stale_window_zero_disables_serve_stale() {
    let mut cache = DnsCache::new(100, 0, 0, 0);
    cache.insert(key("i.com."), &answer("i.com.", 1), T);
    assert!(cache.get(&key("i.com."), 0, T + 10_000).is_none());
}

#[test]
fn dnssec_do_query_does_not_reuse_non_do_entry() {
    let mut cache = DnsCache::new(100, 0, 0, 0);
    let plain = key("dnssec.test.");
    let with_do = QueryKey {
        dnssec_ok: true,
        ..key("dnssec.test.")
    };
    cache.insert(plain.copied(), &answer("dnssec.test.", 60), T);
    assert!(cache.get(&plain, 0, T).is_some());
    assert!(
        cache.get(&with_do, 0, T).is_none(),
        "a DO query must not be served the non-DO cache entry"
    );
}

#[test]
fn snapshot_record_rejects_mismatched_or_corrupt_wire() {
    let wire = write_message(&answer("good.test.", 60)).unwrap();
    assert!(wire_matches_key(&wire, &key("good.test.")));
    assert!(!wire_matches_key(&wire, &key("evil.test.")));
    assert!(!wire_matches_key(b"not a dns message", &key("good.test.")));
}

#[test]
fn snapshot_roundtrips_dnssec_flags() {
    let mut cache = DnsCache::new(100, 0, 0, 0);
    let k = QueryKey {
        dnssec_ok: true,
        checking_disabled: true,
        ..key("flags.test.")
    };
    cache.insert(k.copied(), &answer("flags.test.", 60), T);
    let blob = cache.export_snapshot(UNIX, T);

    let mut restored = DnsCache::new(100, 0, 0, 0);
    assert_eq!(restored.import_snapshot(&blob, UNIX, T), 1);
    assert!(restored.get(&key("flags.test."), 0, T).is_none());
    assert!(restored.get(&k, 0, T).is_some());
}

#[test]
fn verdicts_come_back_but_not_from_a_snapshot() {
    let mut cache = DnsCache::new(100, 0, 0, 0);
    let info = MatchInfo {
        rule: "||a.com^".to_string(),
        list_id: 3,
        rule_id: 9,
    };
    let verdict = ResponseVerdict::block(info.clone(), 77);
    cache.insert_with_verdict(key("a.com."), &answer("a.com.", 60), Some(verdict), T);
    let got = cache.get(&key("a.com."), 0, T).unwrap().verdict.unwrap();
    assert_eq!(got.generation, 77);
    assert!(matches!(got.outcome, Outcome::Block(i) if i == info));
    let blob = cache.export_snapshot(UNIX, T);
    let mut restored = DnsCache::new(100, 0, 0, 0);
    restored.import_snapshot(&blob, UNIX, T);
    assert!(restored.get(&key("a.com."), 0, T).unwrap().verdict.is_none());
}

#[test]
fn insertion_hands_out_the_encoded_response() {
    let mut cache = DnsCache::new(100, 0, 0, 0);
    let m = answer("a.com.", 60);
    let w = cache
        .insert_returning(key("a.com."), &m, None, T)
        .expect("encoded");
    assert_eq!(w.bytes, write_message(&m).unwrap());
    assert_eq!((w.rcode, w.answers), (NO_ERROR, vec!["A 1.2.3.4".to_string()]));
    cache.set_store_summaries(false);
    let w = cache.insert_returning(key("b.com."), &m, None, T).unwrap();
    assert!(w.answers.is_empty());
    let mut bad = answer("c.com.", 60);
    bad.response_code = SERV_FAIL;
    assert!(cache.insert_returning(key("c.com."), &bad, None, T).is_none());
}

#[test]
fn ttls_are_set_everywhere() {
    let mut m = answer("a.com.", 60);
    m.authorities.push(new_record(name("a.com."), 7, RData::A(A::new(1, 1, 1, 1))));
    m.additionals.push(new_record(name("a.com."), 8, RData::A(A::new(1, 1, 1, 1))));
    let r = adjust_ttls(&m, 3);
    assert_eq!((r.answers[0].ttl, r.authorities[0].ttl, r.additionals[0].ttl), (3, 3, 3));
    assert_eq!(m.answers[0].ttl, 60);
}

#[test]
fn cached_responses_decode() {
    let junk = CachedResponse::Wire {
        bytes: vec![1, 2, 3],
        rcode: 0,
        answers: vec![],
    };
    assert!(junk.cached_answers().is_empty());
    let m = junk.into_message();
    assert!(m.response && m.id == 0 && m.queries.is_empty());
    let whole = CachedResponse::Message(answer("a.com.", 60));
    assert_eq!(whole.cached_answers().len(), 1);
    assert_eq!(read_message(&write_message(&whole.into_message()).unwrap()).unwrap().id, 1);
}

#[test]
fn capacity_is_shared_and_never_zero() {
    assert_eq!(shard_cap(10_000, 16), 625);
    assert_eq!(shard_cap(3, 16), 1);
}

#[test]
fn shards_follow_the_processors() {
    for (cpus, shards) in [(0, 8), (1, 8), (8, 8), (9, 16), (17, 32), (33, 64), (500, 64)] {
        assert_eq!(shard_count(cpus), shards);
    }
}

#[test]
fn shards_never_hold_more_than_the_total() {
    for (total, shards, used) in [(1, 8, 1), (3, 16, 3), (16, 16, 16), (10_001, 16, 16)] {
        assert_eq!(shards_used(total, shards), used);
        assert!(used * shard_cap(total, used) <= total);
    }
}

#[test]
fn an_entry_ages_by_whole_seconds_of_its_own() {
    let mut cache = DnsCache::new(100, 0, 0, 0);
    cache.insert(key("a.com."), &answer("a.com.", 1), T + 950);
    assert!(cache.get(&key("a.com."), 0, T + 1_050).is_some());
    assert!(cache.get(&key("a.com."), 0, T + 1_949).is_some());
    assert!(cache.get(&key("a.com."), 0, T + 1_950).is_none());
}

#[test]
fn records_without_a_text_are_summarized_by_their_type() {
    let mut m = answer("a.com.", 60);
    m.answers.push(new_record(name("."), 60, RData::OPT(OPT::new(vec![]))));
    assert_eq!(summarize_answers(&m.answers), ["A 1.2.3.4", "OPT "]);
}

#[test]
fn a_snapshot_read_at_once_gives_everything_back() {
    let mut cache = DnsCache::new(100, 0, 0, 3_600);
    for (i, host) in ["a.com.", "b.com.", "c.com."].iter().enumerate() {
        cache.insert(key(host), &answer(host, 60), T + 700 * i as u64);
    }
    let now = T + 20_500;
    let blob = cache.export_snapshot(UNIX, now);
    let mut restored = DnsCache::new(100, 0, 0, 3_600);
    assert_eq!(restored.import_snapshot(&blob, UNIX, now), 3);
    for host in ["a.com.", "b.com.", "c.com."] {
        let was = cache.get(&key(host), 7, now).unwrap();
        let is = restored.get(&key(host), 7, now).unwrap();
        assert_eq!(was.freshness, is.freshness);
        let (was, is) = (was.response.into_message(), is.response.into_message());
        assert_eq!(was.answers[0].ttl, is.answers[0].ttl);
        assert_eq!(write_message(&was).unwrap(), write_message(&is).unwrap());
    }
}
