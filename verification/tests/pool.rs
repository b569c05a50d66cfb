//! The upstream pool: selection, failover, coalescing, probing and reloads.

use bulwark::message::{
    new_record, DnsMessage, NO_ERROR, NX_DOMAIN, OP_QUERY, REFUSED, SERV_FAIL,
};
use bulwark::net::IpAddr;
use bulwark::upstream::bootstrap::{extract_ips, Bootstrap, LookupStep};
use bulwark::upstream::error::UpstreamError;
use bulwark::upstream::failover::{
    check_query, classify, probe_query, test_query, upstream_query, Failover, Inflight, Progress,
    Reply, Resolved, Usability,
};
use bulwark::upstream::health::{retry_backoff, STARTUP_PROBE_SPREAD};
use bulwark::upstream::pool::{PoolEntry, PoolSettings, UpstreamPool};
use bulwark::upstream::probe::{finish_probe, probe_event, probe_shot, ProbeReport, Shot};
use bulwark::upstream::probe_log::{ProbeErrorKind, ProbeEvent, ProbeLog, ProbeOutcome};
use bulwark::upstream::spec::{Host, TransportKind, UpstreamSpec};
use bulwark::upstream::transport::QueryKey;
use hickory_proto::op::Query;
use hickory_proto::rr::rdata::{A, AAAA};
use hickory_proto::rr::{DNSClass, Name, RData, RecordType};

#[derive(Clone, Copy)]
enum Behaviour {
    /// Answers after so many microseconds.
    Answer(u64),
    Code(u16),
    Drop,
    SlowFirst(u64),
    ColdShotOnly,
}

/// Upstreams that behave as told, and how many queries each of them got.
struct World {
    behaviours: Vec<Behaviour>,
    received: Vec<u64>,
    now: u64,
}

impl World {
    fn new(behaviours: &[Behaviour]) -> World {
        World {
            behaviours: behaviours.to_vec(),
            received: vec![0; behaviours.len()],
            now: 1_000_000,
        }
    }

    fn ask(&mut self, at: usize, query: &DnsMessage) -> (Reply, u64) {
        self.received[at] += 1;
        let mut resp = query.copied();
        resp.response = true;
        resp.recursion_available = true;
        let rtt = match self.behaviours[at] {
            Behaviour::Drop => return (Reply::TimedOut, 400_000),
            Behaviour::Code(rcode) => {
                resp.response_code = rcode;
                return (Reply::Response(resp), 1_000);
            }
            Behaviour::Answer(us) => us,
            Behaviour::SlowFirst(us) => {
                if self.received[at] > 1 {
                    1_000
                } else {
                    us
                }
            }
            Behaviour::ColdShotOnly => {
                if self.received[at] % 2 == 0 {
                    return (Reply::TimedOut, 400_000);
                }
                1_000
            }
        };
        let name = query.queries[0].name().clone();
        resp.answers.push(new_record(name, 60, RData::A(A::new(1, 2, 3, 4))));
        (Reply::Response(resp), rtt)
    }

    fn resolve(
        &mut self,
        pool: &mut UpstreamPool,
        query: &DnsMessage,
    ) -> Result<Resolved, UpstreamError> {
        check_query(pool, query)?;
        let sent = upstream_query(query);
        let mut going = Failover::new(pool.ordered());
        while let Some(at) = going.current() {
            let (reply, rtt) = self.ask(at, &sent);
            let blend = (pool.upstreams[at].health.live_ewma_us + rtt) / 2;
            going = match going.take_reply(pool, reply, rtt, blend, self.now) {
                Progress::Settled(r) => return Ok(r.for_caller(query.id)),
                Progress::Going(f) => f,
            };
        }
        going.finish().map(|r| r.for_caller(query.id))
    }

    fn shoot(&mut self, at: usize) -> Shot {
        let (reply, rtt) = self.ask(at, &probe_query());
        probe_shot(reply, rtt)
    }

    fn probe(&mut self, pool: &mut UpstreamPool, at: usize) -> ProbeReport {
        let first = self.shoot(at);
        let second = if first.wants_second() {
            Some(self.shoot(at))
        } else {
            None
        };
        let warm = match &second {
            Some(Shot::Answered(us)) => *us,
            _ => 0,
        };
        let blend = (pool.upstreams[at].health.probe_ewma_us + warm) / 2;
        let threshold = pool.settings.failure_threshold;
        finish_probe(&mut pool.upstreams[at], first, second, blend, threshold, self.now)
    }

    fn probe_logged(&mut self, pool: &mut UpstreamPool) -> ProbeEvent {
        let report = self.probe(pool, 0);
        probe_event(&pool.upstreams[0], &report, 5)
    }

    fn probe_all(&mut self, pool: &mut UpstreamPool) {
        for at in 0..pool.upstreams.len() {
            self.probe(pool, at);
        }
    }
}

fn make_query(name: &str) -> DnsMessage {
    let mut msg = DnsMessage::new(0x4242, false, OP_QUERY);
    msg.recursion_desired = true;
    let mut q = Query::query(name.parse::<Name>().unwrap(), RecordType::A);
    q.set_query_class(DNSClass::IN);
    msg.queries.push(q);
    msg
}

fn settings() -> PoolSettings {
    PoolSettings {
        query_timeout_ms: 400,
        failure_threshold: 1,
    }
}

fn entry(spec: &str) -> PoolEntry {
    PoolEntry {
        spec: spec.to_string(),
        name: None,
    }
}

fn pool(n: usize) -> UpstreamPool {
    let entries: Vec<PoolEntry> = (0..n)
        .map(|i| entry(&format!("udp://127.0.0.1:{}", 1000 + i)))
        .collect();
    UpstreamPool::build(&entries, settings()).unwrap()
}

fn set_latency(pool: &mut UpstreamPool, at: usize, us: u64) {
    let h = &mut pool.upstreams[at].health;
    h.probe_ewma_us = us;
    h.probe_samples = 1;
    h.up = true;
    h.consecutive_failures = 0;
}

#[test]
fn resolves_via_udp_and_restores_id() {
    let mut world = World::new(&[Behaviour::Answer(1_000)]);
    let mut pool = pool(1);
    let resp = world.resolve(&mut pool, &make_query("example.com.")).unwrap();
    assert_eq!(resp.message.id, 0x4242);
    assert_eq!(resp.message.answers.len(), 1);
    assert_eq!(resp.upstream, "udp://127.0.0.1:1000");
    assert_eq!(world.received[0], 1);
}

#[test]
fn successful_probe_emits_telemetry_event() {
    let mut world = World::new(&[Behaviour::Answer(1_000)]);
    let mut pool = pool(1);
    let ev = world.probe_logged(&mut pool);
    assert_eq!(ev.outcome, ProbeOutcome::Answer);
    assert_eq!(ev.upstream, "udp://127.0.0.1:1000");
    assert!(ev.rtt_us.is_some());
    assert!(
        ev.first_rtt_us.is_some(),
        "both shots answered, so both are recorded"
    );
    assert_eq!(
        world.received[0], 2,
        "one probe is two queries: warm the connection, then measure on it"
    );
    assert!(
        ev.ewma_us.is_some(),
        "first successful probe seeds the routing EWMA"
    );
    assert!(ev.up);
    assert_eq!(ev.consecutive_failures, 0);
    assert!(ev.detail.is_none(), "a clean answer carries no detail");
    assert!(
        ev.error_kind.is_none(),
        "a clean answer carries no error kind"
    );
    assert!(ev.live_ewma_us.is_none(), "no live queries, no live EWMA");
    assert_eq!(ev.live_queries, 0);
    assert!(ev.rank.is_none(), "no selection has run yet");
    assert!(!ev.lead_held);
}

#[test]
fn probe_event_captures_live_traffic_and_rank() {
    let mut world = World::new(&[Behaviour::Answer(1_000)]);
    let mut pool = pool(1);
    world.resolve(&mut pool, &make_query("a.test.")).unwrap();
    let ev = world.probe_logged(&mut pool);
    assert!(
        ev.live_ewma_us.is_some(),
        "probe captures the live-query EWMA once real traffic has flowed"
    );
    assert_eq!(ev.live_queries, 1);
    assert_eq!(ev.live_failures, 0);
    assert_eq!(ev.rank, Some(0), "the sole upstream ranks first");
    assert!(
        !ev.lead_held,
        "a raw-fastest leader isn't a hysteresis hold"
    );
}

#[test]
fn failed_probe_emits_failure_event() {
    let mut world = World::new(&[Behaviour::Drop]);
    let mut pool = pool(1);
    let ev = world.probe_logged(&mut pool);
    assert_eq!(ev.outcome, ProbeOutcome::Timeout);
    assert!(ev.rtt_us.is_none(), "a failed probe has no RTT");
    assert!(
        ev.first_rtt_us.is_none(),
        "the failed shot has no RTT either"
    );
    assert_eq!(
        world.received[0], 1,
        "a first shot that fails is the whole probe: no second shot is sent"
    );
    assert!(
        ev.ewma_us.is_none(),
        "no successful probe yet, no routing latency"
    );
    assert!(ev.detail.is_some());
    assert_eq!(ev.error_kind, Some(ProbeErrorKind::Timeout));
    assert!(!ev.up);
    assert_eq!(ev.consecutive_failures, 1);
}

#[test]
fn warm_shot_failure_leaves_liveness_alone() {
    let mut world = World::new(&[Behaviour::ColdShotOnly]);
    let mut pool = pool(1);
    let ev = world.probe_logged(&mut pool);
    assert_eq!(ev.outcome, ProbeOutcome::MeasureFail);
    assert!(
        ev.first_rtt_us.is_some(),
        "the cold shot answered and proved reachability"
    );
    assert!(ev.rtt_us.is_none(), "the warm shot produced no sample");
    assert!(
        ev.ewma_us.is_none(),
        "an unusable cycle must not seed the routing EWMA"
    );
    assert!(ev.up, "a reachable upstream stays up");
    assert_eq!(
        ev.consecutive_failures, 0,
        "the cold shot answered, so nothing counts against liveness"
    );
    assert!(
        ev.detail.is_some(),
        "the warm-shot error is still reported for diagnostics"
    );
}

#[test]
fn repeated_warm_shot_failures_never_mark_an_upstream_down() {
    let mut world = World::new(&[Behaviour::ColdShotOnly]);
    let mut pool = pool(1);
    for _ in 0..3 {
        world.probe_all(&mut pool);
    }
    let stat = &pool.stats()[0];
    assert!(stat.up, "warm-shot failures alone never demote an upstream");
    assert!(
        stat.avg_rtt_us.is_none(),
        "no cycle yielded a usable latency sample"
    );
}

#[test]
fn probe_routes_on_the_second_shot_not_the_connection_setup() {
    let setup_us = 200_000;
    let mut world = World::new(&[Behaviour::SlowFirst(setup_us)]);
    let mut pool = pool(1);
    let ev = world.probe_logged(&mut pool);
    assert_eq!(ev.outcome, ProbeOutcome::Answer);
    let first = ev.first_rtt_us.expect("the setup shot answered");
    let rtt = ev.rtt_us.expect("the measured shot answered");
    assert!(
        first >= setup_us,
        "the first shot pays the setup cost: {first}us"
    );
    assert!(
        rtt < setup_us / 2,
        "the routing figure skips it: {rtt}us"
    );
    assert_eq!(
        ev.ewma_us,
        Some(rtt),
        "the first successful probe seeds the routing EWMA from the second shot"
    );
}

#[test]
fn single_flight_coalesces_identical_queries() {
    let mut world = World::new(&[Behaviour::Answer(150_000)]);
    let mut pool = pool(1);
    let mut inflight = Inflight::new();
    let query = make_query("dedup.test.");
    let key = QueryKey::from_message(&query).unwrap();
    let mut waiting = 0;
    let mut leads = 0;
    for _ in 0..16 {
        if inflight.join(&key) {
            leads += 1;
        } else {
            waiting += 1;
        }
    }
    assert_eq!((leads, waiting), (1, 15));
    let shared = world.resolve(&mut pool, &query).unwrap();
    inflight.leave(&key);
    for id in 0..15 {
        assert_eq!(shared.for_caller(id).message.id, id);
    }
    assert_eq!(world.received[0], 1);
    assert!(inflight.join(&key), "the next one leads again");
}

#[test]
fn sequential_failover_to_healthy_upstream() {
    let mut world = World::new(&[Behaviour::Drop, Behaviour::Answer(1_000)]);
    let mut pool = pool(2);
    let resp = world.resolve(&mut pool, &make_query("failover.test.")).unwrap();
    assert_eq!(resp.message.answers.len(), 1);
    assert!(world.received[1] >= 1);
}

#[test]
fn dead_from_start_upstream_is_demoted() {
    let mut world = World::new(&[Behaviour::Drop, Behaviour::Answer(1_000)]);
    let mut pool = pool(2);
    let r1 = world.resolve(&mut pool, &make_query("a.test.")).unwrap();
    assert_eq!(r1.upstream, "udp://127.0.0.1:1001");
    assert!(
        !pool.stats()[0].up,
        "a dead-from-start upstream must be marked down"
    );
    let before = world.received[0];
    let r2 = world.resolve(&mut pool, &make_query("b.test.")).unwrap();
    assert_eq!(r2.upstream, "udp://127.0.0.1:1001");
    assert_eq!(
        world.received[0], before,
        "the demoted upstream should receive no further queries"
    );
}

#[test]
fn prefers_fastest_upstream_after_probing() {
    let mut world = World::new(&[Behaviour::Answer(120_000), Behaviour::Answer(1_000)]);
    let mut pool = pool(2);
    world.probe_all(&mut pool);
    let (slow, fast) = (world.received[0], world.received[1]);
    for _ in 0..3 {
        world.resolve(&mut pool, &make_query("speed.test.")).unwrap();
    }
    assert_eq!(world.received[0], slow);
    assert_eq!(world.received[1], fast + 3);
    assert!(pool.stats()[1].avg_rtt_us.unwrap() < 50_000);
}

#[test]
fn known_leader_preferred_over_freshly_added_unknown() {
    let mut world = World::new(&[Behaviour::Answer(1_000)]);
    let mut old = UpstreamPool::build(&[entry("udp://127.0.0.1:2000")], settings()).unwrap();
    world.probe_all(&mut old);

    let mut world = World::new(&[Behaviour::Answer(1_000), Behaviour::Answer(1_000)]);
    let entries = [entry("udp://127.0.0.1:3000"), entry("udp://127.0.0.1:2000")];
    let mut new = UpstreamPool::build(&entries, settings()).unwrap();
    new.adopt_health_from(&old);

    let resp = world.resolve(&mut new, &make_query("live.test.")).unwrap();
    assert_eq!(
        resp.upstream, "udp://127.0.0.1:2000",
        "a sampled leader must be preferred over an unsampled newcomer"
    );
    assert_eq!(
        world.received[0], 0,
        "the unsampled newcomer must not receive the live query"
    );
    assert_eq!(world.received[1], 1);
}

#[test]
fn leadership_is_sticky_within_the_switch_margin() {
    let mut pool = pool(2);
    set_latency(&mut pool, 0, 15_000);
    set_latency(&mut pool, 1, 24_000);
    assert_eq!(pool.ordered()[0], 0);
    set_latency(&mut pool, 0, 24_000);
    set_latency(&mut pool, 1, 23_000);
    assert_eq!(
        pool.ordered()[0],
        0,
        "incumbent held while the challenger leads by less than the switch margin"
    );
    assert!(pool.upstreams[0].health.lead_held);
    set_latency(&mut pool, 0, 24_000);
    set_latency(&mut pool, 1, 15_000);
    assert_eq!(
        pool.ordered()[0],
        1,
        "a challenger past the switch margin takes leadership"
    );
    set_latency(&mut pool, 0, 14_000);
    set_latency(&mut pool, 1, 15_000);
    assert_eq!(
        pool.ordered()[0],
        1,
        "the new incumbent is itself held within the margin"
    );
}

#[test]
fn recent_hard_failure_yields_leadership_then_reclaims_on_recovery() {
    let mut pool = pool(2);
    set_latency(&mut pool, 0, 15_000);
    set_latency(&mut pool, 1, 17_000);
    assert_eq!(pool.ordered()[0], 0, "clean fast upstream leads");
    pool.upstreams[0].health.consecutive_failures = 1;
    set_latency(&mut pool, 1, 17_000);
    assert_eq!(
        pool.ordered()[0],
        1,
        "an upstream on probation must not be held as leader over a clean peer"
    );
    set_latency(&mut pool, 0, 15_000);
    assert_eq!(
        pool.ordered()[0],
        1,
        "a recovered-but-near-tied upstream doesn't reclaim; the incumbent is held"
    );
    set_latency(&mut pool, 0, 5_000);
    assert_eq!(
        pool.ordered()[0],
        0,
        "a recovered upstream that clears the switch margin reclaims leadership"
    );
}

#[test]
fn per_upstream_probe_fires_once_then_defers() {
    let mut world = World::new(&[Behaviour::Answer(1_000)]);
    let mut pool = pool(1);
    pool.upstreams[0].health.schedule_first_probe(world.now);
    let wait = pool.upstreams[0].health.probe_due_in(world.now).unwrap_or(0);
    assert!(wait <= STARTUP_PROBE_SPREAD);
    world.now += wait;
    assert_eq!(pool.upstreams[0].health.probe_due_in(world.now), None, "due");
    world.probe_all(&mut pool);
    assert_eq!(
        world.received[0], 2,
        "a never-sampled upstream is probed once on start (two shots)"
    );
    world.now += 300;
    assert!(
        pool.upstreams[0].health.probe_due_in(world.now).is_some(),
        "a freshly-probed (healthy) upstream is not re-probed within the window"
    );
}

#[test]
fn reload_carries_upstream_stats() {
    let mut world = World::new(&[Behaviour::Answer(1_000)]);
    let mut old = UpstreamPool::build(&[entry("udp://127.0.0.1:2000")], settings()).unwrap();
    world.resolve(&mut old, &make_query("stats.test.")).unwrap();
    assert_eq!(old.stats()[0].total_queries, 1);
    let entries = [entry("udp://127.0.0.1:2000"), entry("udp://127.0.0.1:3000")];
    let mut new = UpstreamPool::build(&entries, settings()).unwrap();
    new.adopt_health_from(&old);
    let stats = new.stats();
    assert_eq!(
        stats[0].total_queries, 1,
        "an unchanged upstream keeps its stats across reload"
    );
    assert_eq!(
        stats[1].total_queries, 0,
        "a newly added upstream starts with blank stats"
    );
}

#[test]
fn reload_matches_upstreams_by_endpoint_not_spelling() {
    let mut world = World::new(&[Behaviour::Answer(1_000)]);
    let mut old = UpstreamPool::build(&[entry("udp://127.0.0.1:2000")], settings()).unwrap();
    world.resolve(&mut old, &make_query("respell.test.")).unwrap();
    let mut new = UpstreamPool::build(&[entry("127.0.0.1:2000")], settings()).unwrap();
    new.adopt_health_from(&old);
    assert_eq!(
        new.stats()[0].total_queries,
        1,
        "a re-spelled upstream is recognized as the same and keeps its stats"
    );
}

#[test]
fn probing_runs_regardless_of_live_traffic() {
    let mut world = World::new(&[Behaviour::Answer(1_000)]);
    let mut pool = pool(1);
    world.resolve(&mut pool, &make_query("fresh.test.")).unwrap();
    assert!(
        pool.upstreams[0].health.probe_due_in(world.now).is_none(),
        "live traffic does not put off a probe"
    );
    let after_query = world.received[0];
    world.probe_all(&mut pool);
    assert!(world.received[0] > after_query);
}

#[test]
fn all_upstreams_down_errors() {
    let mut world = World::new(&[Behaviour::Drop]);
    let mut pool = pool(1);
    let err = world.resolve(&mut pool, &make_query("nope.test."));
    assert!(err.is_err());
    assert!(matches!(
        err,
        Err(UpstreamError::AllFailed(last)) if matches!(*last, UpstreamError::Timeout)
    ));
}

#[test]
fn fails_over_past_a_fast_servfail() {
    let mut world = World::new(&[Behaviour::Code(SERV_FAIL), Behaviour::Answer(1_000)]);
    let mut pool = pool(2);
    let resp = world.resolve(&mut pool, &make_query("sf.test.")).unwrap();
    assert_eq!(resp.message.response_code, NO_ERROR);
    assert_eq!(resp.message.answers.len(), 1);
    assert_eq!(resp.upstream, "udp://127.0.0.1:1001");
    assert!(world.received[0] >= 1);
    let stat = &pool.stats()[0];
    assert!(stat.up, "a SERVFAIL must not mark the upstream down");
    assert!(
        stat.avg_rtt_us.is_none(),
        "a SERVFAIL must not be recorded as a latency sample"
    );
}

#[test]
fn refused_upstream_is_marked_down() {
    let mut world = World::new(&[Behaviour::Code(REFUSED), Behaviour::Answer(1_000)]);
    let mut pool = pool(2);
    let resp = world.resolve(&mut pool, &make_query("ref.test.")).unwrap();
    assert_eq!(resp.upstream, "udp://127.0.0.1:1001");
    assert!(!pool.stats()[0].up, "a REFUSED upstream must be marked down");
}

#[test]
fn all_servfail_returns_the_servfail() {
    let mut world = World::new(&[Behaviour::Code(SERV_FAIL)]);
    let mut pool = pool(1);
    let resp = world.resolve(&mut pool, &make_query("allsf.test.")).unwrap();
    assert_eq!(resp.message.response_code, SERV_FAIL);
    assert_eq!(resp.message.id, 0x4242, "caller id is restored");
}

#[test]
fn spec_parsing_smoke() {
    assert!(UpstreamSpec::parse("https://dns.google/dns-query").is_ok());
    assert!(UpstreamSpec::parse("garbage://x").is_err());
}

#[test]
fn parse_plain_ip() {
    let s = UpstreamSpec::parse("8.8.8.8").unwrap();
    assert_eq!(s.kind, TransportKind::Udp);
    assert!(matches!(s.host, Host::Ip(ip) if ip == IpAddr::parse("8.8.8.8").unwrap()));
    assert_eq!(s.port, 53);
}

#[test]
fn parse_ip_with_port() {
    let s = UpstreamSpec::parse("8.8.8.8:5353").unwrap();
    assert_eq!(s.port, 5353);
}

#[test]
fn parse_dot() {
    let s = UpstreamSpec::parse("tls://dns.google").unwrap();
    assert_eq!(s.kind, TransportKind::Tls);
    assert!(matches!(&s.host, Host::Name(n) if n == "dns.google"));
    assert_eq!(s.port, 853);
}

#[test]
fn parse_doh_with_path() {
    let s = UpstreamSpec::parse("https://dns.google/dns-query").unwrap();
    assert_eq!(s.kind, TransportKind::Https);
    assert_eq!(s.port, 443);
    assert_eq!(s.path, "/dns-query");
}

#[test]
fn parse_doq() {
    let s = UpstreamSpec::parse("quic://dns.adguard.com").unwrap();
    assert_eq!(s.kind, TransportKind::Quic);
    assert_eq!(s.port, 853);
}

#[test]
fn parse_ipv6_bracketed() {
    let s = UpstreamSpec::parse("[2606:4700:4700::1111]:853").unwrap();
    assert_eq!(s.port, 853);
    assert!(
        matches!(s.host, Host::Ip(ip) if ip == IpAddr::parse("2606:4700:4700::1111").unwrap())
    );
}

#[test]
fn parse_ipv6_bare() {
    let s = UpstreamSpec::parse("2606:4700:4700::1111").unwrap();
    assert!(
        matches!(s.host, Host::Ip(ip) if ip == IpAddr::parse("2606:4700:4700::1111").unwrap())
    );
    assert_eq!(s.port, 53);
}

#[test]
fn forced_http3() {
    let s = UpstreamSpec::parse("h3://dns.google/q").unwrap();
    assert_eq!(s.kind, TransportKind::Https);
    assert!(s.force_http3);
    assert_eq!((s.port, s.path.as_str()), (443, "/q"));
}

#[test]
fn pools_need_readable_specs() {
    assert!(UpstreamPool::build(&[entry("garbage://x")], settings()).is_err());
    let mut world = World::new(&[]);
    let mut none = pool(0);
    assert!(matches!(
        world.resolve(&mut none, &make_query("a.test.")),
        Err(UpstreamError::NoUpstreams)
    ));
    let mut empty = make_query("a.test.");
    empty.queries.clear();
    assert!(matches!(check_query(&pool(1), &empty), Err(UpstreamError::Proto(_))));
}

#[test]
fn responses_are_worth_what_their_code_says() {
    let mut m = make_query("a.test.");
    for (code, worth) in [
        (NO_ERROR, Usability::Answer),
        (NX_DOMAIN, Usability::Answer),
        (REFUSED, Usability::Reject),
        (SERV_FAIL, Usability::SoftFail),
    ] {
        m.response_code = code;
        assert_eq!(classify(&m), worth);
    }
}

#[test]
fn an_upstream_that_stays_down_is_probed_less_and_less() {
    let mut world = World::new(&[Behaviour::Drop]);
    let mut pool = pool(1);
    let mut last = 0;
    for n in 1..6 {
        world.probe_all(&mut pool);
        let wait = pool.upstreams[0].health.probe_due_in(world.now).unwrap();
        let base = retry_backoff(n);
        assert!(4 * wait <= 5 * base && 4 * wait + 3 >= 3 * base);
        assert!(wait > last / 2);
        last = wait;
    }
}

#[test]
fn the_queries_of_probes_and_tests() {
    let p = probe_query();
    assert_eq!(p.queries[0].name().to_ascii(), ".");
    assert_eq!(p.queries[0].query_type(), RecordType::NS);
    assert!(p.recursion_desired && !p.response);
    let t = test_query().unwrap();
    assert_eq!(t.queries[0].name().to_ascii(), "example.com.");
    assert_eq!(t.queries[0].query_type(), RecordType::A);
}

fn sample() -> ProbeEvent {
    let mut world = World::new(&[Behaviour::Answer(1_000)]);
    let mut one = UpstreamPool::build(&[entry("udp://1.1.1.1:53")], settings()).unwrap();
    world.probe_logged(&mut one)
}

#[test]
fn enabled_without_sink_is_noop() {
    let log = ProbeLog::new(true);
    assert!(log.is_enabled());
    assert!(log.push(sample()).is_none());
}

#[test]
fn disabled_drops_even_with_sink() {
    let mut log = ProbeLog::new(false);
    log.set_sink();
    assert!(!log.is_enabled());
    assert!(log.push(sample()).is_none(), "a disabled log drops the event");
    log.reconfigure(true);
    assert!(log.push(sample()).is_some(), "reconfigure(true) takes effect live");
}

#[test]
fn enabled_forwards_when_sink_attached() {
    let mut log = ProbeLog::new(true);
    log.set_sink();
    let got = log.push(sample()).expect("event forwarded");
    assert_eq!(got.upstream, "udp://1.1.1.1:53");
    assert_eq!(got.outcome, ProbeOutcome::Answer);
}

#[test]
fn bootstrap_answers_are_addresses() {
    let mut m = make_query("dns.test.");
    let name = m.queries[0].name().clone();
    m.answers.push(new_record(name.clone(), 60, RData::A(A::new(9, 9, 9, 9))));
    m.answers.push(new_record(
        name,
        60,
        RData::AAAA(AAAA("2620:fe::fe".parse().unwrap())),
    ));
    let shown: Vec<String> = extract_ips(&m).iter().map(|ip| ip.text()).collect();
    assert_eq!(shown, ["9.9.9.9", "2620:fe::fe"]);
}

fn texts(ips: &[IpAddr]) -> Vec<String> {
    ips.iter().map(|ip| ip.text()).collect()
}

#[test]
fn bootstrap_asks_servers_in_turn_and_keeps_what_it_found() {
    let mut boot = Bootstrap::new(vec![]);
    assert_eq!(texts(&boot.cached("8.8.4.4", 0).unwrap()), ["8.8.4.4"]);
    assert!(boot.cached("dns.test", 0).is_none());
    let sent = boot.lookup_query("dns.test", 28).unwrap();
    assert_eq!(sent.queries[0].query_type(), RecordType::AAAA);
    assert_eq!(sent.queries[0].name().to_ascii(), "dns.test.");

    let look = boot.lookup("dns.test");
    assert_eq!(look.current(&boot).unwrap().ip.text(), "1.1.1.1");
    let LookupStep::Going(look) = look.reply(&Reply::TimedOut) else {
        panic!("a silent server leaves the lookup going")
    };
    assert_eq!(look.current(&boot).unwrap().ip.text(), "8.8.8.8");
    let mut m = make_query("dns.test.");
    let name = m.queries[0].name().clone();
    m.answers.push(new_record(name, 60, RData::A(A::new(9, 9, 9, 9))));
    let LookupStep::Found(v4) = look.reply(&Reply::Response(m)) else {
        panic!("an address ends the lookup")
    };
    let found = boot.finish("dns.test", v4, vec![], 7).unwrap();
    assert_eq!(texts(&found), ["9.9.9.9"]);
    assert_eq!(texts(&boot.cached("dns.test", 8).unwrap()), ["9.9.9.9"]);
    assert!(boot.cached("dns.test", 7 + 300_000).is_none());
    assert!(matches!(
        boot.finish("gone.test", vec![], vec![], 9),
        Err(UpstreamError::Bootstrap(_))
    ));
}

#[test]
fn errors_in_words() {
    let why = || "why".to_string();
    for (error, words) in [
        (UpstreamError::Timeout, "timed out"),
        (UpstreamError::Rcode("Refused".to_string()), "Refused"),
        (UpstreamError::Io(why()), "i/o error: why"),
        (UpstreamError::Proto(why()), "dns protocol error: why"),
        (UpstreamError::Tls(why()), "tls error: why"),
        (UpstreamError::Quic(why()), "quic error: why"),
        (UpstreamError::Http(why()), "http error: why"),
        (UpstreamError::Bootstrap(why()), "bootstrap failed to resolve why"),
        (UpstreamError::NoUpstreams, "no upstreams configured"),
        (UpstreamError::InvalidSpec(why()), "invalid upstream spec: why"),
    ] {
        assert_eq!(error.message(), words);
        let all = UpstreamError::AllFailed(Box::new(error.copied()));
        assert_eq!(all.message(), format!("all upstreams failed; last error: {words}"));
    }
}

#[test]
fn specs_that_make_no_sense() {
    for (spec, why) in [
        ("", "empty"),
        ("ftp://x", "unknown scheme ftp"),
        ("[::1", "unterminated [ in [::1"),
        ("[x]:53", "bad IPv6 x"),
        ("1.1.1.1:port", "bad port port"),
    ] {
        let e = UpstreamSpec::parse(spec).unwrap_err();
        assert_eq!(e.message(), format!("invalid upstream spec: {why}"));
    }
    let ok = UpstreamSpec::parse("tls://dns.test").unwrap();
    assert_eq!(ok.host.as_ip(), None);
    assert_eq!(ok.server_name(), "dns.test");
    let ip = UpstreamSpec::parse("tls://9.9.9.9").unwrap();
    assert_eq!(ip.host.as_ip(), IpAddr::parse("9.9.9.9"));
}
