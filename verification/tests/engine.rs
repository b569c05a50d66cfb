//! The whole pipeline (filter, cache, upstream) against mock upstreams, and the
//! replies that go back to clients.

use bulwark::config::settings::{BlockingMode, ClientConfig};
use bulwark::engine::cache::DnsCache;
use bulwark::engine::clients::ClientMatcher;
use bulwark::engine::ingress::{
    encode_udp, rcode_label, rtype_label, tcp_reply, udp_reply, EngineResponse, Ingress,
};
use bulwark::engine::pipeline::{
    consult, finish_alias, forward, refresh, settle, start, Consulted, EngineState, Finished, Start,
};
use bulwark::engine::querylog::{QueryAction, QueryLog, QueryLogEntry};
use bulwark::engine::stats::Stats;
use bulwark::filter::list::compile_one;
use bulwark::message::{
    new_record, read_message, write_message, DnsMessage, FORM_ERR, NO_ERROR, NX_DOMAIN, OP_QUERY,
    SERV_FAIL,
};
use bulwark::net::{IpAddr, Ipv4Addr, Ipv6Addr};
use bulwark::upstream::error::UpstreamError;
use bulwark::upstream::failover::Resolved;
use hickory_proto::op::{Edns, Query};
use hickory_proto::rr::rdata::svcb::{IpHint, SvcParamKey, SvcParamValue, SVCB};
use hickory_proto::rr::rdata::{A, AAAA, CNAME, HTTPS};
use hickory_proto::rr::{DNSClass, Name, RData, RecordType};

/// What a mock upstream answers a question with.
enum Mock {
    Address(A),
    Alias(Name, A),
    Hints(Vec<A>),
    Address6(AAAA),
    Dead,
}

struct Engine {
    state: EngineState,
    cache: DnsCache,
    log: QueryLog,
    stats: Stats,
    logged: Vec<QueryLogEntry>,
    upstream: Mock,
    asked: u64,
    now: u64,
}

impl Engine {
    fn resolve(&mut self, query: &DnsMessage) -> Result<Resolved, UpstreamError> {
        self.asked += 1;
        let mut resp = query.copied();
        resp.response = true;
        resp.response_code = NO_ERROR;
        let name = query.queries[0].name().clone();
        match &self.upstream {
            Mock::Dead => return Err(UpstreamError::AllFailed(Box::new(UpstreamError::Timeout))),
            Mock::Address(a) => resp.answers.push(new_record(name, 300, RData::A(*a))),
            Mock::Address6(a) => resp.answers.push(new_record(name, 300, RData::AAAA(*a))),
            Mock::Alias(target, a) => {
                let alias = RData::CNAME(CNAME(target.clone()));
                resp.answers.push(new_record(name, 300, alias));
                resp.answers.push(new_record(target.clone(), 300, RData::A(*a)));
            }
            Mock::Hints(hints) => {
                let svcb = SVCB::new(
                    1,
                    Name::root(),
                    vec![(
                        SvcParamKey::Ipv4Hint,
                        SvcParamValue::Ipv4Hint(IpHint(hints.clone())),
                    )],
                );
                resp.answers.push(new_record(name, 300, RData::HTTPS(HTTPS(svcb))));
            }
        }
        let wire = write_message(&resp).unwrap();
        Ok(Resolved {
            message: read_message(&wire).unwrap(),
            upstream: "mock".to_string(),
            rtt_us: 1_000,
        })
    }

    fn finished(&mut self, query: Ingress, from: IpAddr) -> Result<Finished, DnsMessage> {
        let pending = match start(&self.state, query, from) {
            Start::Malformed(m) => return Err(m),
            Start::Done(f) => return Ok(f),
            Start::Alias(work) => {
                let reply = self.resolve(&work.query);
                return Ok(finish_alias(work, reply));
            }
            Start::Lookup(p) => p,
        };
        let pending = match consult(&self.state, pending, &mut self.cache, self.now) {
            Consulted::Hit(f, None) => return Ok(f),
            Consulted::Hit(f, Some(job)) => {
                let reply = match job.lazy.into_message() {
                    Some(q) => Some(self.resolve(&q)),
                    None => None,
                };
                refresh(
                    &self.state.filter,
                    job.key,
                    job.keep_verdict,
                    reply,
                    &mut self.cache,
                    self.now,
                );
                return Ok(f);
            }
            Consulted::Miss(p) => p,
        };
        match forward(pending) {
            Err(f) => Ok(f),
            Ok(out) => {
                let reply = self.resolve(&out.query);
                Ok(settle(&self.state, out, reply, &mut self.cache, self.now))
            }
        }
    }

    fn handle(&mut self, query: Ingress, from: IpAddr) -> EngineResponse {
        let f = match self.finished(query, from) {
            Err(m) => return EngineResponse::Message(m),
            Ok(f) => f,
        };
        let rtt = f.log.upstream_rtt_us;
        let (resp, entry) = f.record(
            self.stats.is_enabled(),
            self.log.is_enabled(),
            1_700_000_000_000,
            250,
        );
        if let Some(e) = entry {
            self.stats.record(0, &e, rtt);
            self.logged.extend(self.log.push(e));
        }
        resp
    }

    fn ask(&mut self, name: &str, rtype: RecordType) -> DnsMessage {
        self.handle(ingest(query(name, rtype)), local()).into_message()
    }
}

fn state_with(rules: &str, clients: ClientMatcher) -> EngineState {
    EngineState {
        filter: compile_one(rules),
        clients,
        filtering_enabled: true,
        blocking_mode: BlockingMode::NxDomain,
        block_v4: Ipv4Addr::new(0, 0, 0, 0),
        block_v6: Ipv6Addr { bits: 0 },
        blocked_ttl: 10,
    }
}

fn make_engine(rules: &str, upstream: Mock) -> Engine {
    let mut log = QueryLog::new(true, false);
    log.set_sink();
    Engine {
        state: state_with(rules, ClientMatcher::build(&[])),
        cache: DnsCache::new(100, 0, 0, 0),
        log,
        stats: Stats::new(true, 1, false, 4),
        logged: vec![],
        upstream,
        asked: 0,
        now: 50_000_000,
    }
}

fn query(name: &str, rtype: RecordType) -> DnsMessage {
    let mut m = DnsMessage::new(0xABCD, false, OP_QUERY);
    m.recursion_desired = true;
    let mut q = Query::query(name.parse::<Name>().unwrap(), rtype);
    q.set_query_class(DNSClass::IN);
    m.queries.push(q);
    m
}

fn local() -> IpAddr {
    IpAddr::parse("127.0.0.1").unwrap()
}

fn ingest(m: DnsMessage) -> Ingress {
    Ingress::parse(&write_message(&m).unwrap()).expect("query should be decodable")
}

fn name(s: &str) -> Name {
    s.parse().unwrap()
}

fn cloaked() -> Mock {
    Mock::Alias(name("tracker.evil.net."), A::new(1, 2, 3, 4))
}

#[test]
fn forwards_and_caches() {
    let mut engine = make_engine("", Mock::Address(A::new(1, 2, 3, 4)));
    let r1 = engine.ask("good.com.", RecordType::A);
    assert_eq!(r1.response_code, NO_ERROR);
    assert_eq!(r1.answers.len(), 1);
    assert_eq!(r1.id, 0xABCD);
    let r2 = engine.ask("good.com.", RecordType::A);
    assert_eq!(r2.answers.len(), 1);
    assert_eq!(engine.asked, 1);
    assert_eq!(engine.cache.hit_count(), 1);
}

#[test]
fn cache_hit_serves_patched_wire() {
    let mut engine = make_engine("", Mock::Address(A::new(9, 8, 7, 6)));
    engine.ask("hit.com.", RecordType::A);
    let mut q = query("hit.com.", RecordType::A);
    q.id = 0x4242;
    let r = engine.handle(ingest(q), local()).into_message();
    assert_eq!(engine.asked, 1, "cache hit must not touch upstream");
    assert_eq!(r.id, 0x4242, "id must be patched to the new query");
    assert!(r.response);
    assert_eq!(r.answers.len(), 1);
    assert!(matches!(&r.answers[0].data, RData::A(a) if *a == A::new(9, 8, 7, 6)));
    assert!(r.answers[0].ttl >= 1 && r.answers[0].ttl <= 300);
}

#[test]
fn forwarded_miss_serves_wire_without_reencoding() {
    let mut engine = make_engine("", Mock::Address(A::new(5, 6, 7, 8)));
    let resp = engine.handle(ingest(query("fresh.com.", RecordType::A)), local());
    let bytes = match resp {
        EngineResponse::Wire(b) => b,
        EngineResponse::Message(_) => panic!("forwarded miss should serve wire bytes"),
    };
    let decoded = read_message(&bytes).expect("served wire decodes");
    assert_eq!(decoded.id, 0xABCD);
    assert_eq!(decoded.response_code, NO_ERROR);
    assert_eq!(decoded.answers.len(), 1);
    assert!(matches!(&decoded.answers[0].data, RData::A(a) if *a == A::new(5, 6, 7, 8)));
}

#[test]
fn blocks_filtered_domain() {
    let mut engine = make_engine("||ads.example.com^", Mock::Address(A::new(1, 2, 3, 4)));
    let r = engine.ask("ads.example.com.", RecordType::A);
    assert_eq!(r.response_code, NX_DOMAIN);
    assert_eq!(engine.asked, 0);
    let entry = engine.logged.pop().expect("blocked query logged");
    assert!(matches!(entry.action, QueryAction::Blocked { .. }));
    assert!(entry.is_blocked());
}

#[test]
fn uncloaks_blocked_cname_target() {
    let mut engine = make_engine("||tracker.evil.net^", cloaked());
    let r = engine.ask("data.brand.com.", RecordType::A);
    assert_eq!(
        r.response_code, NX_DOMAIN,
        "a blocked CNAME target should turn the whole response into a block"
    );
    let entry = engine.logged.pop().expect("uncloaked query logged");
    assert!(matches!(entry.action, QueryAction::Blocked { .. }));
}

#[test]
fn uncloak_block_is_cached() {
    let mut engine = make_engine("||tracker.evil.net^", cloaked());
    let r1 = engine.ask("data.brand.com.", RecordType::A);
    assert_eq!(r1.response_code, NX_DOMAIN);
    let r2 = engine.ask("data.brand.com.", RecordType::A);
    assert_eq!(r2.response_code, NX_DOMAIN);
    assert_eq!(
        engine.cache.hit_count(),
        1,
        "the second query must hit the cached block, not re-resolve"
    );
}

#[test]
fn blocks_response_by_resolved_ip() {
    let mut engine = make_engine("||9.9.9.9^", Mock::Address(A::new(9, 9, 9, 9)));
    let r = engine.ask("sneaky.com.", RecordType::A);
    assert_eq!(
        r.response_code, NX_DOMAIN,
        "an answer resolving to a blocked IP should be blocked"
    );
}

#[test]
fn blocks_response_on_blocked_https_hint() {
    let hints = Mock::Hints(vec![A::new(1, 1, 1, 1), A::new(6, 6, 6, 6)]);
    let mut engine = make_engine("||6.6.6.6^", hints);
    let r = engine.ask("site.com.", RecordType::HTTPS);
    assert_eq!(
        r.response_code, NX_DOMAIN,
        "a blocked ipv4hint should block the whole response"
    );
}

#[test]
fn aaaa_answer_is_forwarded_untouched() {
    let v6 = AAAA::new(0x2606, 0x4700, 0, 0, 0, 0, 0, 0x1111);
    let mut engine = make_engine("||tracker.evil.net^", Mock::Address6(v6));
    let r = engine.ask("ipv6.example.com.", RecordType::AAAA);
    assert_eq!(r.response_code, NO_ERROR);
    assert_eq!(r.answers.len(), 1);
    assert!(matches!(&r.answers[0].data, RData::AAAA(a) if *a == v6));
}

#[test]
fn blocks_response_by_resolved_ipv6() {
    let v6 = AAAA::new(0x1234, 0, 0, 0, 0, 0, 0, 0xcdef);
    let mut engine = make_engine("1234::cdef", Mock::Address6(v6));
    let r = engine.ask("sneaky6.com.", RecordType::AAAA);
    assert_eq!(
        r.response_code, NX_DOMAIN,
        "an answer resolving to a blocked v6 address should be blocked"
    );
}

#[test]
fn clean_https_hint_is_forwarded() {
    let mut engine = make_engine("||6.6.6.6^", Mock::Hints(vec![A::new(1, 1, 1, 1)]));
    let r = engine.ask("site.com.", RecordType::HTTPS);
    assert_eq!(r.response_code, NO_ERROR);
    assert_eq!(r.answers.len(), 1, "the HTTPS record should pass through");
    assert!(matches!(&r.answers[0].data, RData::HTTPS(_)));
}

#[test]
fn clean_cname_chain_is_forwarded() {
    let up = Mock::Alias(name("cdn.good.net."), A::new(5, 6, 7, 8));
    let mut engine = make_engine("||tracker.evil.net^", up);
    let r = engine.ask("www.brand.com.", RecordType::A);
    assert_eq!(r.response_code, NO_ERROR);
    assert_eq!(r.answers.len(), 2);
    assert!(r
        .answers
        .iter()
        .any(|a| matches!(&a.data, RData::A(ip) if *ip == A::new(5, 6, 7, 8))));
}

#[test]
fn rewrites_to_custom_ip() {
    let up = Mock::Address(A::new(1, 2, 3, 4));
    let mut engine = make_engine("||router.lan^$dnsrewrite=10.0.0.1", up);
    let r = engine.ask("router.lan.", RecordType::A);
    assert_eq!(r.answers.len(), 1);
    assert!(matches!(&r.answers[0].data, RData::A(a) if *a == A::new(10, 0, 0, 1)));
    assert_eq!(engine.asked, 0);
}

#[test]
fn records_statistics() {
    let mut engine = make_engine("||bad.com^", Mock::Address(A::new(1, 2, 3, 4)));
    engine.ask("bad.com.", RecordType::A);
    engine.ask("good.com.", RecordType::A);
    let snap = engine.stats.snapshot(10, &engine.state.clients);
    assert_eq!(snap.total, 2);
    assert_eq!(snap.blocked, 1);
    assert!(snap.top_blocked_domains.iter().any(|t| t.name == "bad.com"));
    assert!(snap.top_upstreams.iter().any(|t| t.name == "mock"));
}

#[test]
fn servfail_when_no_upstream_answers() {
    let mut engine = make_engine("", Mock::Dead);
    let r = engine.ask("anything.com.", RecordType::A);
    assert_eq!(r.response_code, SERV_FAIL);
    assert!(matches!(engine.logged[0].action, QueryAction::Error));
}

#[test]
fn reload_unblocks_cached_cloaked_answer() {
    let mut engine = make_engine("||tracker.evil.net^", cloaked());
    let r1 = engine.ask("data.brand.com.", RecordType::A);
    assert_eq!(r1.response_code, NX_DOMAIN, "blocked while the rule is active");
    engine.state = state_with("", ClientMatcher::build(&[]));
    let r2 = engine.ask("data.brand.com.", RecordType::A);
    assert_eq!(
        r2.response_code, NO_ERROR,
        "the reload must un-block the cached answer"
    );
    assert!(
        r2.answers
            .iter()
            .any(|a| matches!(&a.data, RData::A(ip) if *ip == A::new(1, 2, 3, 4))),
        "the previously-cloaked raw answer is served straight from cache"
    );
    assert_eq!(
        engine.cache.hit_count(),
        1,
        "served from the cached raw answer, not re-resolved upstream"
    );
}

#[test]
fn reload_blocks_cached_clean_answer() {
    let mut engine = make_engine("", cloaked());
    let r1 = engine.ask("data.brand.com.", RecordType::A);
    assert_eq!(r1.response_code, NO_ERROR, "clean while no rule matches");
    engine.state = state_with("||tracker.evil.net^", ClientMatcher::build(&[]));
    let r2 = engine.ask("data.brand.com.", RecordType::A);
    assert_eq!(
        r2.response_code, NX_DOMAIN,
        "the reload must block the now-matching cached answer"
    );
    assert_eq!(
        engine.cache.hit_count(),
        1,
        "decided from the cached raw answer, no re-resolve"
    );
}

#[test]
fn unfiltered_client_cache_does_not_leak_to_filtered_client() {
    let mut engine = make_engine("||tracker.evil.net^", cloaked());
    let clients = ClientMatcher::build(&[ClientConfig {
        id: "nofilter".to_string(),
        name: "nofilter".to_string(),
        ids: vec!["127.0.0.2".to_string()],
        tags: vec![],
        filtering_enabled: false,
    }]);
    engine.state = state_with("||tracker.evil.net^", clients);
    let unfiltered = IpAddr::parse("127.0.0.2").unwrap();
    let rb = engine
        .handle(ingest(query("data.brand.com.", RecordType::A)), unfiltered)
        .into_message();
    assert_eq!(
        rb.response_code, NO_ERROR,
        "the unfiltered client is not filtered"
    );
    let ra = engine.ask("data.brand.com.", RecordType::A);
    assert_eq!(
        ra.response_code, NX_DOMAIN,
        "the filtered client must be blocked despite the cached raw answer"
    );
    assert_eq!(
        engine.cache.hit_count(),
        1,
        "the filtered client decided from cache, with no second upstream round-trip"
    );
}

#[test]
fn the_target_of_a_rewrite_is_resolved() {
    let up = Mock::Address(A::new(4, 3, 2, 1));
    let mut engine = make_engine("||old.lan^$dnsrewrite=new.lan", up);
    let r = engine.ask("old.lan.", RecordType::A);
    assert_eq!(engine.asked, 1);
    assert_eq!(r.answers.len(), 2);
    assert!(matches!(&r.answers[0].data, RData::CNAME(c) if c.0 == name("new.lan")));
    assert!(matches!(&r.answers[1].data, RData::A(a) if *a == A::new(4, 3, 2, 1)));
    assert!(matches!(engine.logged[0].action, QueryAction::Rewritten { .. }));
}

#[test]
fn a_stale_answer_is_served_and_refreshed() {
    let mut engine = make_engine("", Mock::Address(A::new(1, 2, 3, 4)));
    engine.cache = DnsCache::new(100, 0, 0, 3_600);
    engine.ask("stale.com.", RecordType::A);
    engine.now += 400_000;
    engine.upstream = Mock::Address(A::new(5, 5, 5, 5));
    let old = engine.ask("stale.com.", RecordType::A);
    assert!(matches!(&old.answers[0].data, RData::A(a) if *a == A::new(1, 2, 3, 4)));
    assert_eq!(engine.cache.stale_hit_count(), 1);
    assert_eq!(engine.asked, 2);
    let new = engine.ask("stale.com.", RecordType::A);
    assert!(matches!(&new.answers[0].data, RData::A(a) if *a == A::new(5, 5, 5, 5)));
    assert_eq!(engine.asked, 2);
}

#[test]
fn a_message_without_a_question_is_malformed() {
    let mut engine = make_engine("", Mock::Dead);
    let m = DnsMessage::new(7, false, OP_QUERY);
    let r = engine.handle(Ingress::Full(m), local()).into_message();
    assert_eq!((r.id, r.response_code), (7, FORM_ERR));
    assert!(engine.logged.is_empty());
    assert_eq!(engine.stats.snapshot(1, &engine.state.clients).total, 0);
}

#[test]
fn filtering_can_be_turned_off() {
    let mut engine = make_engine("||ads.example.com^", Mock::Address(A::new(1, 2, 3, 4)));
    engine.state.filtering_enabled = false;
    let r = engine.ask("ads.example.com.", RecordType::A);
    assert_eq!(r.response_code, NO_ERROR);
    assert_eq!(engine.asked, 1);
}

#[test]
fn exceptions_are_marked_in_the_log() {
    let rules = "||example.com^\n@@||ok.example.com^";
    let mut engine = make_engine(rules, Mock::Address(A::new(1, 2, 3, 4)));
    let r = engine.ask("ok.example.com.", RecordType::A);
    assert_eq!(r.response_code, NO_ERROR);
    assert!(engine.logged[0].allowlisted);
    assert_eq!(engine.logged[0].upstream(), Some("mock"));
    assert_eq!(engine.logged[0].question, "ok.example.com.");
    assert_eq!(engine.logged[0].rcode, "NOERROR");
    assert_eq!(engine.logged[0].answers, ["A 1.2.3.4"]);
}

#[test]
fn nothing_is_recorded_where_nobody_wants_it() {
    let mut engine = make_engine("", Mock::Address(A::new(1, 2, 3, 4)));
    engine.stats = Stats::new(false, 1, false, 4);
    engine.log = QueryLog::new(false, false);
    engine.ask("quiet.com.", RecordType::A);
    assert!(engine.logged.is_empty());
    assert_eq!(engine.stats.snapshot(1, &engine.state.clients).total, 0);
}

fn many_answers(n: usize) -> DnsMessage {
    let mut m = query("big.com.", RecordType::A);
    m.response = true;
    m.recursion_available = true;
    for i in 0..n {
        let a = A::new(10, 0, (i / 256) as u8, (i % 256) as u8);
        m.answers.push(new_record(name("big.com."), 60, RData::A(a)));
    }
    m
}

#[test]
fn udp_replies_fit_or_are_truncated() {
    let small = write_message(&many_answers(1)).unwrap();
    assert_eq!(encode_udp(&many_answers(1), 512), small);
    let cut = read_message(&encode_udp(&many_answers(100), 512)).unwrap();
    assert!(cut.truncation && cut.answers.is_empty());
    assert_eq!((cut.id, cut.queries.len()), (0xABCD, 1));
    let big = write_message(&many_answers(100)).unwrap();
    let whole = udp_reply(EngineResponse::Wire(big.clone()), 4096);
    assert_eq!(whole, big);
    let cut = read_message(&udp_reply(EngineResponse::Wire(big), 512)).unwrap();
    assert!(cut.truncation);
}

#[test]
fn tcp_replies_are_framed() {
    let wire = write_message(&many_answers(1)).unwrap();
    let framed = tcp_reply(EngineResponse::Message(many_answers(1))).unwrap();
    assert_eq!(framed[..2], [0, wire.len() as u8]);
    assert_eq!(framed[2..], wire);
    assert!(tcp_reply(EngineResponse::Wire(vec![0; 65_536])).is_none());
}

#[test]
fn clients_say_how_much_they_take() {
    let plain = ingest(query("a.com.", RecordType::A));
    assert_eq!(plain.udp_max_payload(), 512);
    let mut m = query("a.com.", RecordType::A);
    let mut edns = Edns::new();
    edns.set_max_payload(1232);
    m.edns = Some(edns);
    assert_eq!(ingest(m).udp_max_payload(), 1232);
    assert!(Ingress::parse(&[1, 2, 3]).is_none());
}

#[test]
fn labels_of_codes_and_types() {
    assert_eq!(rcode_label(NX_DOMAIN), "NXDOMAIN");
    assert_eq!(rcode_label(6), "YXDOMAIN");
    assert_eq!(rtype_label(65), "HTTPS");
    assert_eq!(rtype_label(13), "HINFO");
}
