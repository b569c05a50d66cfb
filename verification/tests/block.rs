//! Synthesized responses.

use bulwark::config::settings::BlockingMode;
use bulwark::engine::block::{block_response, error_response, formerr, rewrite_response, Rewritten};
use bulwark::filter::rule::{RewriteData, RewriteRcode};
use bulwark::message::{DnsMessage, FORM_ERR, NO_ERROR, NX_DOMAIN, OP_QUERY, REFUSED, SERV_FAIL};
use bulwark::net::{Ipv4Addr, Ipv6Addr};
use hickory_proto::op::Query;
use hickory_proto::rr::rdata::{A, AAAA, MX, PTR};
use hickory_proto::rr::{DNSClass, Name, RData, RecordType};

fn query(name: &str, rtype: RecordType) -> DnsMessage {
    let mut m = DnsMessage::new(7, false, OP_QUERY);
    let mut q = Query::query(name.parse::<Name>().unwrap(), rtype);
    q.set_query_class(DNSClass::IN);
    m.queries.push(q);
    m
}

fn no_v4() -> Ipv4Addr {
    Ipv4Addr::new(0, 0, 0, 0)
}

fn no_v6() -> Ipv6Addr {
    Ipv6Addr { bits: 0 }
}

fn block(rtype: RecordType, mode: BlockingMode, ttl: u32) -> DnsMessage {
    block_response(&query("a.com.", rtype), mode, no_v4(), no_v6(), ttl)
}

#[test]
fn nxdomain_block() {
    let r = block(RecordType::A, BlockingMode::NxDomain, 10);
    assert_eq!(r.response_code, NX_DOMAIN);
    assert_eq!(r.id, 7);
}

#[test]
fn nxdomain_and_nodata_carry_soa_for_negative_caching() {
    for mode in [BlockingMode::NxDomain, BlockingMode::NoData] {
        let r = block(RecordType::A, mode, 42);
        assert_eq!(r.authorities.len(), 1, "{mode:?} should carry an SOA");
        match &r.authorities[0].data {
            RData::SOA(soa) => assert_eq!(
                soa.minimum, 42,
                "SOA minimum drives the negative-cache TTL"
            ),
            other => panic!("expected SOA authority, got {other:?}"),
        }
        assert_eq!(r.authorities[0].ttl, 42);
    }
}

#[test]
fn soa_fields() {
    let r = block(RecordType::A, BlockingMode::NxDomain, 4_000_000_000);
    match &r.authorities[0].data {
        RData::SOA(soa) => {
            assert_eq!(soa.mname.to_ascii(), "fake-for-negative-caching.bulwark.invalid.");
            assert_eq!(soa.rname.to_ascii(), "hostmaster.bulwark.invalid.");
            assert_eq!(soa.serial, 1);
            assert_eq!(soa.refresh, i32::MAX);
            assert_eq!(soa.expire, i32::MAX);
            assert_eq!(soa.minimum, 4_000_000_000);
        }
        other => panic!("expected SOA authority, got {other:?}"),
    }
}

#[test]
fn null_ip_block_a() {
    let r = block(RecordType::A, BlockingMode::NullIp, 10);
    assert_eq!(r.answers.len(), 1);
    assert!(matches!(&r.answers[0].data, RData::A(A(ip)) if ip.is_unspecified()));
}

#[test]
fn null_ip_block_aaaa_for_a_query_is_nodata() {
    let r = block(RecordType::HTTPS, BlockingMode::NullIp, 10);
    assert!(r.answers.is_empty());
    assert_eq!(r.response_code, NO_ERROR);
}

#[test]
fn custom_ip_block() {
    let r = block_response(
        &query("a.com.", RecordType::AAAA),
        BlockingMode::CustomIp,
        Ipv4Addr::new(10, 1, 1, 1),
        Ipv6Addr { bits: 0xfd00 },
        10,
    );
    assert_eq!(r.answers.len(), 1);
    assert_eq!(r.answers[0].name.to_ascii(), "a.com.");
    assert!(matches!(&r.answers[0].data, RData::AAAA(AAAA(ip)) if u128::from(*ip) == 0xfd00));
}

#[test]
fn refused_block_is_bare() {
    let r = block(RecordType::A, BlockingMode::Refused, 10);
    assert_eq!(r.response_code, REFUSED);
    assert!(r.answers.is_empty() && r.authorities.is_empty());
    assert!(r.response && r.recursion_available);
    assert_eq!(r.queries.len(), 1);
}

#[test]
fn rewrite_a() {
    let data = RewriteData::A(Ipv4Addr::new(1, 2, 3, 4));
    match rewrite_response(&query("a.com.", RecordType::A), &data, 30) {
        Rewritten::Done(m) => assert_eq!(m.answers.len(), 1),
        _ => panic!("expected done"),
    }
}

#[test]
fn rewrite_cname_requests_resolution() {
    let data = RewriteData::Cname("target.example.net.".to_string());
    match rewrite_response(&query("a.com.", RecordType::A), &data, 30) {
        Rewritten::ResolveCname { target, .. } => {
            assert_eq!(target.to_ascii(), "target.example.net.")
        }
        _ => panic!("expected cname resolution"),
    }
}

#[test]
fn rewrite_other_types() {
    let mx = RewriteData::Mx {
        preference: 10,
        exchange: "mail.a.com.".to_string(),
    };
    match rewrite_response(&query("a.com.", RecordType::MX), &mx, 30) {
        Rewritten::Done(m) => assert!(matches!(
            &m.answers[0].data,
            RData::MX(MX { preference: 10, exchange, .. }) if exchange.to_ascii() == "mail.a.com."
        )),
        _ => panic!("expected done"),
    }
    let ptr = RewriteData::Ptr("host.a.com.".to_string());
    match rewrite_response(&query("1.0.0.10.in-addr.arpa.", RecordType::PTR), &ptr, 30) {
        Rewritten::Done(m) => assert!(matches!(
            &m.answers[0].data,
            RData::PTR(PTR(name)) if name.to_ascii() == "host.a.com."
        )),
        _ => panic!("expected done"),
    }
    let txt = RewriteData::Txt("hello".to_string());
    match rewrite_response(&query("a.com.", RecordType::TXT), &txt, 30) {
        Rewritten::Done(m) => assert_eq!(m.answers[0].data.to_string(), "hello"),
        _ => panic!("expected done"),
    }
    match rewrite_response(&query("a.com.", RecordType::A), &txt, 30) {
        Rewritten::Done(m) => assert!(m.answers.is_empty(), "another type gives NODATA"),
        _ => panic!("expected done"),
    }
    let code = RewriteData::Rcode(RewriteRcode::Refused);
    match rewrite_response(&query("a.com.", RecordType::A), &code, 30) {
        Rewritten::Done(m) => assert_eq!(m.response_code, REFUSED),
        _ => panic!("expected done"),
    }
}

#[test]
fn errors() {
    let e = error_response(&query("a.com.", RecordType::A), SERV_FAIL);
    assert_eq!((e.id, e.response_code, e.queries.len()), (7, SERV_FAIL, 1));
    let f = formerr(9);
    assert_eq!((f.id, f.response_code, f.queries.len()), (9, FORM_ERR, 0));
}
