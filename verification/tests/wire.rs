//! Wire parsing and patching.

use std::str::FromStr;

use hickory_proto::op::{Edns, Message, MessageType, OpCode, Query, ResponseCode};
use hickory_proto::rr::rdata::{A, AAAA, SOA};
use hickory_proto::rr::{DNSClass, Name, RData, Record, RecordType};

use bulwark::engine::wire::{parse_query, patch, scan_ttl_offsets, TYPE_OPT};

fn response_with(answers: &[(u32, RData)], edns: bool) -> Message {
    let mut m = Message::new(0xABCD, MessageType::Response, OpCode::Query);
    m.metadata.response_code = ResponseCode::NoError;
    let mut q = Query::query(Name::from_str("example.com.").unwrap(), RecordType::A);
    q.set_query_class(DNSClass::IN);
    m.queries.push(q);
    for (ttl, data) in answers {
        m.answers.push(Record::from_rdata(
            Name::from_str("example.com.").unwrap(),
            *ttl,
            data.clone(),
        ));
    }
    if edns {
        m.edns = Some(Default::default());
    }
    m
}
#[test]
fn patches_all_answer_ttls() {
    let msg = response_with(
        &[
            (300, RData::A(A::new(1, 2, 3, 4))),
            (600, RData::A(A::new(5, 6, 7, 8))),
            (900, RData::AAAA(AAAA::new(0, 0, 0, 0, 0, 0, 0, 1))),
        ],
        false,
    );
    let mut wire = msg.to_vec().unwrap();
    let offsets = scan_ttl_offsets(&wire).expect("scan");
    assert_eq!(offsets.len(), 3);

    patch(&mut wire, 0x1234, 42, &offsets);
    let back = Message::from_vec(&wire).unwrap();
    assert_eq!(back.metadata.id, 0x1234);
    assert_eq!(back.answers.len(), 3);
    for r in &back.answers {
        assert_eq!(r.ttl, 42, "every answer TTL should be rewritten");
    }
}
#[test]
fn does_not_patch_opt_record() {
    let msg = response_with(&[(300, RData::A(A::new(1, 2, 3, 4)))], true);
    let mut wire = msg.to_vec().unwrap();
    let offsets = scan_ttl_offsets(&wire).expect("scan");
    assert_eq!(offsets.len(), 1, "OPT must be excluded");

    patch(&mut wire, 0x1111, 10, &offsets);
    let back = Message::from_vec(&wire).unwrap();
    assert_eq!(back.answers[0].ttl, 10);
    assert!(back.edns.is_some());
}
#[test]
fn patches_authority_soa() {
    let mut m = Message::new(7, MessageType::Response, OpCode::Query);
    m.metadata.response_code = ResponseCode::NXDomain;
    let mut q = Query::query(Name::from_str("nope.example.com.").unwrap(), RecordType::A);
    q.set_query_class(DNSClass::IN);
    m.queries.push(q);
    m.authorities.push(Record::from_rdata(
        Name::from_str("example.com.").unwrap(),
        3600,
        RData::SOA(SOA::new(
            Name::from_str("ns.example.com.").unwrap(),
            Name::from_str("hostmaster.example.com.").unwrap(),
            1,
            7200,
            3600,
            1209600,
            300,
        )),
    ));
    let mut wire = m.to_vec().unwrap();
    let offsets = scan_ttl_offsets(&wire).expect("scan");
    assert_eq!(offsets.len(), 1);
    patch(&mut wire, 9, 5, &offsets);
    let back = Message::from_vec(&wire).unwrap();
    assert_eq!(back.authorities[0].ttl, 5);
}
#[test]
fn empty_answers_ok() {
    let msg = response_with(&[], false);
    let mut wire = msg.to_vec().unwrap();
    let offsets = scan_ttl_offsets(&wire).expect("scan");
    assert!(offsets.is_empty());
    patch(&mut wire, 0x2222, 1, &offsets);
    assert_eq!(Message::from_vec(&wire).unwrap().metadata.id, 0x2222);
}
#[test]
fn malformed_returns_none() {
    assert!(scan_ttl_offsets(&[]).is_none());
    assert!(scan_ttl_offsets(&[0u8; 5]).is_none());
    let mut buf = vec![0u8; 12];
    buf[6] = 0; // ANCOUNT hi
    buf[7] = 1; // ANCOUNT lo
    assert!(scan_ttl_offsets(&buf).is_none());
}
fn query_msg(name: &str, rtype: RecordType, edns: Option<(u16, bool)>) -> Message {
    let mut m = Message::new(0x1234, MessageType::Query, OpCode::Query);
    m.metadata.recursion_desired = true;
    let mut q = Query::query(Name::from_str(name).unwrap(), rtype);
    q.set_query_class(DNSClass::IN);
    m.queries.push(q);
    if let Some((payload, dnssec_ok)) = edns {
        let mut e = Edns::new();
        e.set_max_payload(payload);
        e.set_dnssec_ok(dnssec_ok);
        m.set_edns(e);
    }
    m
}
#[test]
fn parse_query_matches_hickory() {
    let mut cases = vec![
        query_msg("example.com.", RecordType::A, None),
        query_msg(
            "a.b.c.deep-name.example.",
            RecordType::AAAA,
            Some((1232, true)),
        ),
        query_msg("EDNS-no-do.test.", RecordType::HTTPS, Some((4096, false))),
        query_msg(".", RecordType::NS, None), // root
    ];
    let mut cd = query_msg("cd.example.", RecordType::A, None);
    cd.metadata.recursion_desired = false;
    cd.metadata.checking_disabled = true;
    cases.push(cd);

    for m in &cases {
        let raw = m.to_vec().unwrap();
        let p = parse_query(&raw).expect("parse_query should succeed");
        let q = m.queries.first().unwrap();
        assert_eq!(p.id, m.metadata.id);
        assert_eq!(p.qname, q.name().to_ascii());
        assert_eq!(p.qtype, u16::from(q.query_type()));
        assert_eq!(p.qclass, u16::from(q.query_class()));
        assert_eq!(p.recursion_desired, m.metadata.recursion_desired);
        assert_eq!(p.checking_disabled, m.metadata.checking_disabled);
        assert_eq!(
            p.dnssec_ok,
            m.edns.as_ref().is_some_and(|e| e.flags().dnssec_ok)
        );
        assert_eq!(p.edns_payload, m.edns.as_ref().map(|e| e.max_payload()));
    }
}
#[test]
fn parse_query_preserves_case() {
    let mut m = Message::new(0x1234, MessageType::Query, OpCode::Query);
    m.metadata.recursion_desired = true;
    let mut q = Query::query(
        Name::from_ascii("MixedCase.Example.COM.").unwrap(),
        RecordType::A,
    );
    q.set_query_class(DNSClass::IN);
    m.queries.push(q);
    let raw = m.to_vec().unwrap();
    let p = parse_query(&raw).unwrap();
    assert_eq!(p.qname, "MixedCase.Example.COM.");
    assert_eq!(p.qname, m.queries[0].name().to_ascii());
}
#[test]
fn parse_query_rejects_malformed() {
    assert!(parse_query(&[]).is_none());
    assert!(parse_query(&[0u8; 8]).is_none());
    let mut buf = vec![0u8; 12];
    assert!(parse_query(&buf).is_none());
    buf[5] = 1;
    assert!(parse_query(&buf).is_none());
}
fn raw_query(name: Name) -> Option<Vec<u8>> {
    let mut m = Message::new(0x1234, MessageType::Query, OpCode::Query);
    let mut q = Query::query(name, RecordType::A);
    q.set_query_class(DNSClass::IN);
    m.queries.push(q);
    m.to_vec().ok()
}

fn raw_with_labels(labels: &[&[u8]]) -> Option<Vec<u8>> {
    let name = Name::from_labels(labels.iter().map(|l| l.to_vec()).collect::<Vec<_>>()).ok()?;
    raw_query(name)
}
#[test]
fn parse_query_qname_never_diverges_from_to_ascii() {
    for b in 0u16..=255 {
        let b = b as u8;
        let cases: [Vec<Vec<u8>>; 3] = [
            vec![vec![b'a', b, b'z'], b"test".to_vec()],
            vec![vec![b, b'z'], b"test".to_vec()],
            vec![vec![b'z', b], b"test".to_vec()],
        ];
        for labels in cases {
            let Ok(name) = Name::from_labels(labels) else {
                continue;
            };
            let Some(raw) = raw_query(name) else { continue };
            let Ok(hp) = Message::from_vec(&raw) else {
                continue;
            };
            let expected = hp.queries[0].name().to_ascii();
            if let Some(p) = parse_query(&raw) {
                assert_eq!(p.qname, expected, "byte {b:#04x} diverged from to_ascii");
            }
        }
    }
}
#[test]
fn parse_query_bails_on_escaped_labels() {
    let raw = raw_with_labels(&[b"a!b", b"example"]).unwrap();
    assert!(parse_query(&raw).is_none());
    assert!(Message::from_vec(&raw).unwrap().queries[0]
        .name()
        .to_ascii()
        .contains('\\'));
    assert!(parse_query(&raw_with_labels(&[b"-lead", b"example"]).unwrap()).is_none());
    assert!(parse_query(&raw_with_labels(&[b"a*b", b"example"]).unwrap()).is_none());
    assert!(parse_query(&raw_with_labels(&[b"*", b"example"]).unwrap()).is_some());
    assert!(parse_query(&raw_with_labels(&[b"a_b-c", b"example"]).unwrap()).is_some());
}
#[test]
fn parse_query_bails_on_oversized_name() {
    let mut buf = vec![0u8; 12];
    buf[5] = 1; // QDCOUNT = 1
    for _ in 0..5 {
        buf.push(63);
        buf.extend(std::iter::repeat_n(b'a', 63));
    }
    buf.push(0); // root
    buf.extend_from_slice(&[0, 1, 0, 1]); // QTYPE=A, QCLASS=IN
    assert!(parse_query(&buf).is_none());
    assert!(Message::from_vec(&buf).is_err(), "hickory also rejects it");
}

fn header(an: u16, ns: u16, ar: u16) -> Vec<u8> {
    let mut h = vec![0u8; 12];
    h[5] = 1; // QDCOUNT = 1
    h[6..8].copy_from_slice(&an.to_be_bytes());
    h[8..10].copy_from_slice(&ns.to_be_bytes());
    h[10..12].copy_from_slice(&ar.to_be_bytes());
    h
}

fn question_wire() -> Vec<u8> {
    let mut q = vec![1, b'a', 4];
    q.extend_from_slice(b"test");
    q.push(0);
    q.extend_from_slice(&[0, 1, 0, 1]); // A, IN
    q
}

fn opt_record(payload: u16, dnssec_ok: bool) -> Vec<u8> {
    let mut r = vec![0u8]; // root owner name
    r.extend_from_slice(&TYPE_OPT.to_be_bytes());
    r.extend_from_slice(&payload.to_be_bytes()); // CLASS = UDP payload size
    r.extend_from_slice(&[0, 0, if dnssec_ok { 0x80 } else { 0 }, 0]);
    r.extend_from_slice(&0u16.to_be_bytes()); // RDLEN = 0
    r
}

#[test]
fn parse_query_edns_structural() {
    let mut ok = header(0, 0, 1);
    ok.extend(question_wire());
    ok.extend(opt_record(1232, true));
    let p = parse_query(&ok).expect("single additional OPT is valid");
    assert_eq!(p.edns_payload, Some(1232));
    assert!(p.dnssec_ok);
    assert!(Message::from_vec(&ok).is_ok());
    let mut dup = header(0, 0, 2);
    dup.extend(question_wire());
    dup.extend(opt_record(1232, false));
    dup.extend(opt_record(1232, false));
    assert!(parse_query(&dup).is_none());
    assert!(Message::from_vec(&dup).is_err());
    let mut misplaced = header(1, 0, 0);
    misplaced.extend(question_wire());
    misplaced.extend(opt_record(1232, false));
    assert!(parse_query(&misplaced).is_none());
}
#[test]
fn parse_query_bails_on_multi_question() {
    let mut buf = header(0, 0, 0);
    buf[5] = 2; // QDCOUNT = 2
    buf.extend(question_wire());
    buf.extend(question_wire());
    assert!(parse_query(&buf).is_none());
}
