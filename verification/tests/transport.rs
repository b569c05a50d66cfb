//! What all transports share.

use bulwark::message::{DnsMessage, OP_QUERY};
use bulwark::net::{IpAddr, SocketAddr};
use bulwark::upstream::connect::{after_exchange, describe, plain_addr, After, Dialing};
use bulwark::upstream::error::UpstreamError;
use bulwark::upstream::spec::{TransportKind, UpstreamSpec};
use bulwark::upstream::transport::{
    accept_doh, accept_doq, accept_response, decode, encode, encode_with_id, frame, frame_len,
    matches_query, normalize_upstream_edns, PendingState, QueryKey, MAX_UDP_PAYLOAD,
};
use hickory_proto::op::{Edns, Query};
use hickory_proto::rr::rdata::opt::{ClientSubnet, EdnsOption};
use hickory_proto::rr::{DNSClass, Name, RecordType};

fn query(id: u16, host: &str, fqdn: bool, rtype: RecordType) -> DnsMessage {
    let mut name: Name = host.parse().unwrap();
    name.set_fqdn(fqdn);
    let mut msg = DnsMessage::new(id, false, OP_QUERY);
    let mut q = Query::query(name, rtype);
    q.set_query_class(DNSClass::IN);
    msg.queries.push(q);
    msg
}

fn wire_roundtrip(msg: &DnsMessage) -> DnsMessage {
    decode(&encode(msg).unwrap()).unwrap()
}

fn answer_for(q: &DnsMessage) -> DnsMessage {
    let mut resp = q.copied();
    resp.response = true;
    resp
}

#[test]
fn bootstrap_relative_query_matches_fqdn_response() {
    let q = query(0x1234, "cloudflare-dns.com", false, RecordType::A);
    assert!(!q.queries[0].name().is_fqdn(), "query should be relative");
    let resp = wire_roundtrip(&q);
    assert!(resp.queries[0].name().is_fqdn(), "wire response is FQDN");
    assert!(matches_query(&q, &resp));
}

#[test]
fn fqdn_query_matches_fqdn_response() {
    let q = query(0x1234, "cloudflare-dns.com", true, RecordType::A);
    let resp = wire_roundtrip(&q);
    assert!(matches_query(&q, &resp));
}

#[test]
fn case_insensitive_name_match() {
    let q = query(0x1234, "Cloudflare-DNS.com", false, RecordType::A);
    let resp = wire_roundtrip(&query(0x1234, "cloudflare-dns.com", true, RecordType::A));
    assert!(matches_query(&q, &resp));
}

#[test]
fn rejects_mismatched_id() {
    let q = query(0x1234, "cloudflare-dns.com", false, RecordType::A);
    let resp = wire_roundtrip(&query(0x5678, "cloudflare-dns.com", true, RecordType::A));
    assert!(!matches_query(&q, &resp));
}

#[test]
fn rejects_mismatched_name() {
    let q = query(0x1234, "cloudflare-dns.com", false, RecordType::A);
    let resp = wire_roundtrip(&query(0x1234, "dns.google", true, RecordType::A));
    assert!(!matches_query(&q, &resp));
}

#[test]
fn normalize_strips_options_but_keeps_do_and_payload() {
    let mut msg = query(1, "a.com", true, RecordType::A);
    let mut edns = Edns::new();
    edns.set_version(0);
    edns.set_max_payload(1232);
    edns.set_dnssec_ok(true);
    edns.options_mut()
        .insert(EdnsOption::Subnet(ClientSubnet::new(
            "192.0.2.0".parse().unwrap(),
            24,
            0,
        )));
    edns.options_mut()
        .insert(EdnsOption::Unknown(10, vec![1, 2, 3, 4, 5, 6, 7, 8]));
    msg.edns = Some(edns);
    assert!(!msg.edns.as_ref().unwrap().options().options.is_empty());

    normalize_upstream_edns(&mut msg);

    let e = msg.edns.as_ref().expect("EDNS envelope is kept");
    assert!(
        e.options().options.is_empty(),
        "client options must be stripped"
    );
    assert!(e.flags().dnssec_ok, "the DO bit must be preserved");
    assert_eq!(e.max_payload(), 1232, "payload size must be preserved");
}

#[test]
fn normalize_is_a_noop_without_edns() {
    let mut msg = query(1, "a.com", true, RecordType::A);
    assert!(msg.edns.is_none());
    normalize_upstream_edns(&mut msg);
    assert!(
        msg.edns.is_none(),
        "a query with no OPT record is untouched"
    );
}

#[test]
fn normalize_clamps_oversized_payload_even_without_options() {
    let mut msg = query(1, "a.com", true, RecordType::A);
    let mut edns = Edns::new();
    edns.set_version(0);
    edns.set_max_payload(u16::MAX);
    edns.set_dnssec_ok(true);
    msg.edns = Some(edns);

    normalize_upstream_edns(&mut msg);

    let e = msg.edns.as_ref().expect("EDNS envelope is kept");
    assert_eq!(
        e.max_payload(),
        MAX_UDP_PAYLOAD,
        "oversized payload is clamped"
    );
    assert!(e.flags().dnssec_ok, "the DO bit must be preserved");
}

#[test]
fn rejects_mismatched_type() {
    let q = query(0x1234, "cloudflare-dns.com", false, RecordType::A);
    let resp = wire_roundtrip(&query(0x1234, "cloudflare-dns.com", true, RecordType::AAAA));
    assert!(!matches_query(&q, &resp));
}

#[test]
fn answer_round_trips() {
    let q = query(0x4242, "rt.test.", true, RecordType::A);
    let resp = answer_for(&q);
    let wire = encode(&resp).unwrap();
    assert_eq!(decode(&wire).unwrap().id, 0x4242);
}

#[test]
fn pipelines_concurrent_queries_out_of_order() {
    let mut conn = PendingState::new();
    let qa = query(0x1111, "a.test.", true, RecordType::A);
    let qb = query(0x2222, "b.test.", true, RecordType::A);
    let ia = conn.begin(10).unwrap();
    let ib = conn.begin(20).unwrap();
    assert_ne!(ia, ib);
    let sent_a = decode(&encode_with_id(&qa, ia).unwrap()).unwrap();
    let sent_b = decode(&encode_with_id(&qb, ib).unwrap()).unwrap();

    let back_b = answer_for(&sent_b);
    assert_eq!(conn.route(back_b.id), Some(20));
    let rb = accept_response(&qb, back_b, "mismatch").unwrap();
    let back_a = answer_for(&sent_a);
    assert_eq!(conn.route(back_a.id), Some(10));
    let ra = accept_response(&qa, back_a, "mismatch").unwrap();

    assert_eq!(ra.id, 0x1111);
    assert_eq!(ra.queries[0].name().to_ascii(), "a.test.");
    assert_eq!(rb.id, 0x2222);
    assert_eq!(rb.queries[0].name().to_ascii(), "b.test.");
}

#[test]
fn second_query_not_blocked_by_first() {
    let mut conn = PendingState::new();
    let first = conn.begin(1).unwrap();
    let second = conn.begin(2).unwrap();
    assert_eq!(conn.route(second), Some(2));
    assert_eq!(conn.route(first), Some(1));
    assert_eq!(conn.route(first), None, "a response is routed once");
}

#[test]
fn connection_close_wakes_waiters() {
    let mut conn = PendingState::new();
    let id = conn.begin(7).unwrap();
    conn.close();
    assert_eq!(conn.route(id), None, "nobody waits any more");
    assert!(conn.is_dead(), "the connection should be marked dead");
    assert_eq!(conn.begin(8), None);
}

#[test]
fn rejects_mismatched_response() {
    let q = query(5, "good.test.", true, RecordType::A);
    let evil = answer_for(&query(0, "evil.test.", true, RecordType::A));
    let r = accept_response(&q, evil, "DoT response does not match query");
    assert!(matches!(r, Err(UpstreamError::Proto(_))));
}

#[test]
fn udp_socket_idle_closes_then_redials() {
    let mut conn = PendingState::new();
    let id = conn.begin(1).unwrap();
    assert!(!conn.idle(), "a query in flight keeps the socket");
    assert_eq!(conn.route(id), Some(1));
    assert!(conn.idle(), "an idle socket closes");
    assert!(conn.is_dead());
    assert_eq!(conn.begin(2), None, "a query on it has to dial again");
    let mut fresh = PendingState::new();
    assert!(fresh.begin(2).is_some());
}

#[test]
fn cancelled_queries_are_forgotten() {
    let mut conn = PendingState::new();
    let id = conn.begin(1).unwrap();
    conn.cancel(id);
    assert_eq!(conn.route(id), None);
    assert!(conn.idle());
}

#[test]
fn frames_hold_a_length() {
    let framed = frame(&[7; 300], "too large").unwrap();
    assert_eq!(framed.len(), 302);
    assert_eq!(frame_len(framed[0], framed[1]), 300);
    assert!(matches!(
        frame(&[0; 65_536], "too large"),
        Err(UpstreamError::Proto(why)) if why == "too large"
    ));
}

#[test]
fn quic_and_https_bodies() {
    let q = query(0x77, "a.test.", true, RecordType::A);
    let mut zero = q.copied();
    zero.id = 0;
    let body = encode(&answer_for(&zero)).unwrap();
    let mut stream = vec![0, 0];
    stream.extend_from_slice(&body);
    assert_eq!(accept_doq(&q, &stream).unwrap().id, 0x77);
    assert!(matches!(accept_doq(&q, &[1]), Err(UpstreamError::Proto(_))));
    assert_eq!(accept_doh(&zero, 0x77, &body).unwrap().id, 0x77);
    let other = encode(&answer_for(&query(0, "b.test.", true, RecordType::A))).unwrap();
    assert!(matches!(accept_doh(&zero, 0x77, &other), Err(UpstreamError::Http(_))));
    assert!(matches!(accept_doh(&zero, 0x77, b"junk"), Err(UpstreamError::Proto(_))));
}

#[test]
fn keys_tell_questions_apart() {
    let mut q = query(1, "A.Test.", true, RecordType::A);
    let key = QueryKey::from_message(&q).unwrap();
    assert_eq!(key.name, "a.test.");
    assert_eq!((key.rtype, key.class), (1, 1));
    assert!(!key.dnssec_ok && !key.checking_disabled);
    let mut edns = Edns::new();
    edns.set_dnssec_ok(true);
    q.edns = Some(edns);
    q.checking_disabled = true;
    let key = QueryKey::from_message(&q).unwrap();
    assert!(key.dnssec_ok && key.checking_disabled);
    q.queries.clear();
    assert!(QueryKey::from_message(&q).is_none());
}

#[test]
fn plain_addresses() {
    let by_ip = UpstreamSpec::parse("1.2.3.4:5353").unwrap();
    let at = plain_addr(&by_ip, &vec![]).unwrap();
    assert_eq!(describe(&by_ip, at), "udp://1.2.3.4:5353");
    let by_name = UpstreamSpec::parse("tcp://dns.test").unwrap();
    let v6 = IpAddr::parse("2001:db8::1").unwrap();
    let at = plain_addr(&by_name, &vec![v6]).unwrap();
    assert_eq!(at, SocketAddr { ip: v6, port: 53 });
    assert_eq!(describe(&by_name, at), "tcp://[2001:db8::1]:53");
    assert!(matches!(
        plain_addr(&by_name, &vec![]),
        Err(UpstreamError::Bootstrap(name)) if name == "dns.test"
    ));
    let tls = UpstreamSpec::parse("tls://dns.google").unwrap();
    assert_eq!(describe(&tls, at), "tls://dns.google");
    let quic = UpstreamSpec::parse("quic://dns.adguard.com").unwrap();
    assert_eq!(describe(&quic, at), "quic://dns.adguard.com");
    let doh = UpstreamSpec::parse("https://dns.google/dns-query").unwrap();
    assert_eq!(describe(&doh, at), "https://dns.google:443/dns-query");
}

#[test]
fn dialing_tries_each_address() {
    let spec = UpstreamSpec::parse("tls://dns.test").unwrap();
    let a = IpAddr::parse("10.0.0.1").unwrap();
    let b = IpAddr::parse("10.0.0.2").unwrap();
    let mut d = Dialing::new(&spec, vec![a, b]);
    assert_eq!(d.current(), Some(SocketAddr { ip: a, port: 853 }));
    d.failed(UpstreamError::Io("refused".to_string()));
    assert_eq!(d.current(), Some(SocketAddr { ip: b, port: 853 }));
    d.failed(UpstreamError::Tls("bad certificate".to_string()));
    assert_eq!(d.current(), None);
    assert!(matches!(d.into_error(), UpstreamError::Tls(_)));
    let none = Dialing::new(&spec, vec![]);
    assert!(matches!(none.into_error(), UpstreamError::Bootstrap(name) if name == "dns.test"));
}

#[test]
fn broken_connections_are_retried_once() {
    let fail = || Err(UpstreamError::Io("closed".to_string()));
    assert!(matches!(after_exchange(TransportKind::Tls, false, fail()), After::Retry));
    assert!(matches!(after_exchange(TransportKind::Tls, true, fail()), After::Fail(_)));
    assert!(matches!(after_exchange(TransportKind::Quic, false, fail()), After::Fail(_)));
    let mut m = query(1, "a.test.", true, RecordType::A);
    m.truncation = true;
    assert!(matches!(
        after_exchange(TransportKind::Udp, false, Ok(m.copied())),
        After::OverTcp
    ));
    assert!(matches!(after_exchange(TransportKind::Tls, false, Ok(m)), After::Answer(_)));
}
