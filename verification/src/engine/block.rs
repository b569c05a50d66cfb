//! Synthesis of blocked / rewritten / error DNS responses.

use vstd::prelude::*;

use crate::config::settings::BlockingMode;
use crate::filter::rule::{RewriteData, RewriteRcode, RewriteView};
use crate::message;
use crate::message::{
    a_data, aaaa_data, cname_data, copy_questions, mx_data, new_record, ptr_data, question_name,
    question_type, read_name, root_name, soa_data, txt_data, DataView, DnsMessage, MessageView,
    Record, RecordView, SoaView, CLASS_IN, FORM_ERR, NO_ERROR, NX_DOMAIN, OP_QUERY, REFUSED,
    SERV_FAIL, TYPE_A, TYPE_AAAA, TYPE_MX, TYPE_PTR, TYPE_TXT,
};
use crate::net::{Ipv4Addr, Ipv6Addr};

verus! {

/// A response shell that echoes a query's id, operation, questions and EDNS.
pub open spec fn shell(query: MessageView) -> MessageView {
    MessageView {
        recursion_desired: query.recursion_desired,
        recursion_available: true,
        queries: query.queries,
        edns: query.edns,
        ..message::bare(query.id, true, query.op_code)
    }
}

/// The type that a query asks for; A where it asks nothing.
pub open spec fn asked_type(query: MessageView) -> u16 {
    if query.queries.len() > 0 {
        message::question_of(query.queries[0]).rtype
    } else {
        TYPE_A
    }
}

/// The name that a query asks for; the root where it asks nothing.
pub open spec fn asked_name(query: MessageView) -> Seq<char> {
    if query.queries.len() > 0 {
        message::question_of(query.queries[0]).name
    } else {
        seq!['.']
    }
}

/// Build a response shell echoing the query's id, question, and EDNS.
fn base(query: &DnsMessage) -> (r: DnsMessage)
    ensures
        r@ == shell(query@),
{
    let mut m: DnsMessage = DnsMessage::new(query.id, true, query.op_code);
    m.recursion_desired = query.recursion_desired;
    m.recursion_available = true;
    m.queries = copy_questions(&query.queries);
    m.edns = match &query.edns {
        Some(e) => Some(e.clone()),
        None => None,
    };
    m
}

fn qtype(query: &DnsMessage) -> (r: u16)
    ensures
        r == asked_type(query@),
{
    if query.queries.len() > 0 {
        question_type(&query.queries[0])
    } else {
        TYPE_A
    }
}

fn qname(query: &DnsMessage) -> (r: hickory_proto::rr::Name)
    ensures
        message::name_text(r) == asked_name(query@),
{
    if query.queries.len() > 0 {
        question_name(&query.queries[0])
    } else {
        root_name()
    }
}

/// Records' contents.
pub open spec fn record_views(v: Seq<Record>) -> Seq<RecordView> {
    v.map_values(|r: Record| r@)
}

/// The name that a text gives; the root where it gives none.
pub open spec fn name_or_root(s: Seq<char>) -> Seq<char> {
    match message::name_of_text(s) {
        Some(name) => name,
        None => seq!['.'],
    }
}

fn name_from(s: &str) -> (r: hickory_proto::rr::Name)
    ensures
        message::name_text(r) == name_or_root(s@),
{
    match read_name(s) {
        Some(name) => name,
        None => root_name(),
    }
}

/// Seconds as a signed field holds them.
pub open spec fn signed_secs(ttl: u32) -> i32 {
    if ttl > i32::MAX {
        i32::MAX
    } else {
        ttl as i32
    }
}

/// Ten times as many seconds, as far as a signed field goes.
pub open spec fn tenfold(secs: i32) -> i32 {
    if secs * 10 > i32::MAX {
        i32::MAX
    } else {
        (secs * 10) as i32
    }
}

/// A synthetic SOA for the authority section so clients negative-cache a blocked
/// name for `ttl` seconds.
pub open spec fn negative_soa_view(name: Seq<char>, ttl: u32) -> RecordView {
    RecordView {
        name,
        class: CLASS_IN,
        ttl,
        data: DataView::Soa(
            SoaView {
                mname: name_or_root("fake-for-negative-caching.bulwark.invalid."@),
                rname: name_or_root("hostmaster.bulwark.invalid."@),
                serial: 1,
                refresh: signed_secs(ttl),
                retry: signed_secs(ttl),
                expire: tenfold(signed_secs(ttl)),
                minimum: ttl,
            },
        ),
    }
}

fn negative_soa(name: hickory_proto::rr::Name, ttl: u32) -> (r: Record)
    ensures
        r@ == negative_soa_view(message::name_text(name), ttl),
{
    let mname: hickory_proto::rr::Name = name_from("fake-for-negative-caching.bulwark.invalid.");
    let rname: hickory_proto::rr::Name = name_from("hostmaster.bulwark.invalid.");
    let secs: i32 = if ttl > i32::MAX as u32 {
        i32::MAX
    } else {
        ttl as i32
    };
    let expire: i32 = if secs > i32::MAX / 10 {
        i32::MAX
    } else {
        secs * 10
    };
    new_record(name, ttl, soa_data(mname, rname, 1, secs, secs, expire, ttl))
}

/// An answer for the Internet class.
pub open spec fn answer_view(name: Seq<char>, ttl: u32, data: DataView) -> RecordView {
    RecordView { name, class: CLASS_IN, ttl, data }
}

/// The address record that matches the query type, or none.
pub open spec fn address_answers(query: MessageView, ttl: u32, v4: Ipv4Addr, v6: Ipv6Addr) -> Seq<
    RecordView,
> {
    if asked_type(query) == TYPE_A {
        seq![answer_view(asked_name(query), ttl, DataView::A(v4))]
    } else if asked_type(query) == TYPE_AAAA {
        seq![answer_view(asked_name(query), ttl, DataView::Aaaa(v6))]
    } else {
        Seq::empty()
    }
}

/// A response with a code, answers and authorities, and else like its shell.
pub open spec fn is_response(
    m: MessageView,
    query: MessageView,
    code: u16,
    answers: Seq<RecordView>,
    authorities: Seq<RecordView>,
) -> bool {
    &&& m == (MessageView {
        response_code: code,
        answers: m.answers,
        authorities: m.authorities,
        ..shell(query)
    })
    &&& record_views(m.answers) == answers
    &&& record_views(m.authorities) == authorities
}

/// The code, the answers and the authorities of a blocked response.
pub open spec fn blocked_parts(
    query: MessageView,
    mode: BlockingMode,
    custom_v4: Ipv4Addr,
    custom_v6: Ipv6Addr,
    ttl: u32,
) -> (u16, Seq<RecordView>, Seq<RecordView>) {
    let soa = seq![negative_soa_view(asked_name(query), ttl)];
    match mode {
        BlockingMode::NxDomain => (NX_DOMAIN, Seq::empty(), soa),
        BlockingMode::Refused => (REFUSED, Seq::empty(), Seq::empty()),
        BlockingMode::NoData => (NO_ERROR, Seq::empty(), soa),
        BlockingMode::NullIp => (
            NO_ERROR,
            address_answers(query, ttl, Ipv4Addr { bits: 0 }, Ipv6Addr { bits: 0 }),
            Seq::empty(),
        ),
        BlockingMode::CustomIp => (
            NO_ERROR,
            address_answers(query, ttl, custom_v4, custom_v6),
            Seq::empty(),
        ),
    }
}

/// Push an A/AAAA record matching the query type, or leave NODATA otherwise.
fn push_ip(
    m: &mut DnsMessage,
    query: &DnsMessage,
    ttl: u32,
    v4: Ipv4Addr,
    v6: Ipv6Addr,
)
    requires
        old(m)@.answers.len() == 0,
    ensures
        final(m)@ == (MessageView { answers: final(m)@.answers, ..old(m)@ }),
        record_views(final(m)@.answers) == address_answers(query@, ttl, v4, v6),
{
    let name: hickory_proto::rr::Name = qname(query);
    let rtype: u16 = qtype(query);
    if rtype == TYPE_A {
        m.answers.push(new_record(name, ttl, a_data(v4)));
    } else if rtype == TYPE_AAAA {
        m.answers.push(new_record(name, ttl, aaaa_data(v6)));
    }
    assert(record_views(m.answers@) =~= address_answers(query@, ttl, v4, v6));
}

/// Synthesize a blocked response per the configured [`BlockingMode`].
pub fn block_response(
    query: &DnsMessage,
    mode: BlockingMode,
    custom_v4: Ipv4Addr,
    custom_v6: Ipv6Addr,
    ttl: u32,
) -> (r: DnsMessage)
    ensures
        ({
            let (code, answers, authorities) = blocked_parts(
                query@,
                mode,
                custom_v4,
                custom_v6,
                ttl,
            );
            is_response(r@, query@, code, answers, authorities)
        }),
{
    let mut m: DnsMessage = base(query);
    let name: hickory_proto::rr::Name = qname(query);
    assert(record_views(m.answers@) =~= Seq::<RecordView>::empty());
    assert(record_views(m.authorities@) =~= Seq::<RecordView>::empty());
    match mode {
        BlockingMode::NxDomain => {
            m.response_code = NX_DOMAIN;
            m.authorities.push(negative_soa(name, ttl));
            assert(record_views(m.authorities@) =~= seq![
                negative_soa_view(asked_name(query@), ttl),
            ]);
        },
        BlockingMode::Refused => {
            m.response_code = REFUSED;
        },
        BlockingMode::NoData => {
            m.authorities.push(negative_soa(name, ttl));
            assert(record_views(m.authorities@) =~= seq![
                negative_soa_view(asked_name(query@), ttl),
            ]);
        },
        BlockingMode::NullIp => push_ip(
            &mut m,
            query,
            ttl,
            Ipv4Addr { bits: 0 },
            Ipv6Addr { bits: 0 },
        ),
        BlockingMode::CustomIp => push_ip(&mut m, query, ttl, custom_v4, custom_v6),
    }
    m
}

/// The result of synthesizing a rewrite. `ResolveCname` indicates the pipeline
/// should resolve the target and append its addresses.
#[derive(Debug)]
pub enum Rewritten {
    /// A complete response is ready.
    Done(DnsMessage),
    /// A CNAME was inserted; resolve `target` and append A/AAAA answers.
    ResolveCname { message: DnsMessage, target: hickory_proto::rr::Name },
}

/// The answers to a query that is rewritten: one record where the query asks for
/// the type of the data, an alias whatever it asks for.
pub open spec fn rewritten_answers(query: MessageView, data: RewriteView, ttl: u32) -> Seq<
    RecordView,
> {
    let (name, rtype) = (asked_name(query), asked_type(query));
    match data {
        RewriteView::A(ip) => if rtype == TYPE_A {
            seq![answer_view(name, ttl, DataView::A(ip))]
        } else {
            Seq::empty()
        },
        RewriteView::Aaaa(ip) => if rtype == TYPE_AAAA {
            seq![answer_view(name, ttl, DataView::Aaaa(ip))]
        } else {
            Seq::empty()
        },
        RewriteView::Txt(s) => if rtype == TYPE_TXT {
            seq![answer_view(name, ttl, DataView::Txt(seq![s]))]
        } else {
            Seq::empty()
        },
        RewriteView::Mx(preference, exchange) => if rtype == TYPE_MX {
            seq![answer_view(name, ttl, DataView::Mx(preference as u16, name_or_root(exchange)))]
        } else {
            Seq::empty()
        },
        RewriteView::Ptr(target) => if rtype == TYPE_PTR {
            seq![answer_view(name, ttl, DataView::Ptr(name_or_root(target)))]
        } else {
            Seq::empty()
        },
        RewriteView::Cname(target) => seq![
            answer_view(name, ttl, DataView::Cname(name_or_root(target))),
        ],
        RewriteView::Rcode(_) => Seq::empty(),
    }
}

/// The response code of a query that is rewritten.
pub open spec fn rewritten_code(data: RewriteView) -> u16 {
    match data {
        RewriteView::Rcode(RewriteRcode::NxDomain) => NX_DOMAIN,
        RewriteView::Rcode(RewriteRcode::Refused) => REFUSED,
        RewriteView::Rcode(RewriteRcode::ServFail) => SERV_FAIL,
        _ => NO_ERROR,
    }
}

/// The alias whose addresses a rewritten response still needs, if any.
pub open spec fn unresolved_alias(query: MessageView, data: RewriteView) -> Option<Seq<char>> {
    match data {
        RewriteView::Cname(target) => if asked_type(query) == TYPE_A || asked_type(query)
            == TYPE_AAAA {
            Some(name_or_root(target))
        } else {
            None
        },
        _ => None,
    }
}

/// Synthesize a response for a `$dnsrewrite` / hosts rewrite.
pub fn rewrite_response(query: &DnsMessage, data: &RewriteData, ttl: u32) -> (r: Rewritten)
    ensures
        match r {
            Rewritten::Done(m) => unresolved_alias(query@, data@) is None && is_response(
                m@,
                query@,
                rewritten_code(data@),
                rewritten_answers(query@, data@, ttl),
                Seq::empty(),
            ),
            Rewritten::ResolveCname { message, target } => unresolved_alias(query@, data@) == Some(
                message::name_text(target),
            ) && is_response(
                message@,
                query@,
                rewritten_code(data@),
                rewritten_answers(query@, data@, ttl),
                Seq::empty(),
            ),
        },
{
    let mut m: DnsMessage = base(query);
    let name: hickory_proto::rr::Name = qname(query);
    let rtype: u16 = qtype(query);
    assert(record_views(m.answers@) =~= Seq::<RecordView>::empty());
    assert(record_views(m.authorities@) =~= Seq::<RecordView>::empty());
    let mut alias: Option<hickory_proto::rr::Name> = None;
    match data {
        RewriteData::A(ip) => {
            if rtype == TYPE_A {
                m.answers.push(new_record(name, ttl, a_data(*ip)));
            }
        },
        RewriteData::Aaaa(ip) => {
            if rtype == TYPE_AAAA {
                m.answers.push(new_record(name, ttl, aaaa_data(*ip)));
            }
        },
        RewriteData::Txt(s) => {
            if rtype == TYPE_TXT {
                m.answers.push(new_record(name, ttl, txt_data(s.as_str())));
            }
        },
        RewriteData::Mx { preference, exchange } => {
            if rtype == TYPE_MX {
                let to: hickory_proto::rr::Name = name_from(exchange.as_str());
                m.answers.push(new_record(name, ttl, mx_data(*preference, to)));
            }
        },
        RewriteData::Ptr(target) => {
            if rtype == TYPE_PTR {
                let to: hickory_proto::rr::Name = name_from(target.as_str());
                m.answers.push(new_record(name, ttl, ptr_data(to)));
            }
        },
        RewriteData::Rcode(rc) => {
            m.response_code = match rc {
                RewriteRcode::NoError => NO_ERROR,
                RewriteRcode::NxDomain => NX_DOMAIN,
                RewriteRcode::Refused => REFUSED,
                RewriteRcode::ServFail => SERV_FAIL,
            };
        },
        RewriteData::Cname(target) => {
            let to: hickory_proto::rr::Name = name_from(target.as_str());
            m.answers.push(new_record(name, ttl, cname_data(to.clone())));
            if rtype == TYPE_A || rtype == TYPE_AAAA {
                alias = Some(to);
            }
        },
    }
    assert(record_views(m.answers@) =~= rewritten_answers(query@, data@, ttl));
    match alias {
        Some(target) => Rewritten::ResolveCname { message: m, target },
        None => Rewritten::Done(m),
    }
}

/// A simple error response with the given response code.
pub fn error_response(query: &DnsMessage, rcode: u16) -> (r: DnsMessage)
    ensures
        r@ == (MessageView { response_code: rcode, ..shell(query@) }),
{
    let mut m: DnsMessage = base(query);
    m.response_code = rcode;
    m
}

/// Builds a header-only FORMERR response.
pub fn formerr(id: u16) -> (r: DnsMessage)
    ensures
        r@ == (MessageView { response_code: FORM_ERR, ..message::bare(id, true, OP_QUERY) }),
{
    let mut m: DnsMessage = DnsMessage::new(id, true, OP_QUERY);
    m.response_code = FORM_ERR;
    m
}

/// Whatever way a query is blocked, the response goes under the query's id to the
/// query's questions, and tells nothing of the blocked name: its answers are none
/// but the configured addresses.
pub proof fn law_blocked_response(
    m: MessageView,
    query: MessageView,
    mode: BlockingMode,
    v4: Ipv4Addr,
    v6: Ipv6Addr,
    ttl: u32,
)
    requires
        ({
            let (code, answers, authorities) = blocked_parts(query, mode, v4, v6, ttl);
            is_response(m, query, code, answers, authorities)
        }),
    ensures
        m.id == query.id,
        m.response,
        m.queries == query.queries,
        mode != BlockingMode::NullIp && mode != BlockingMode::CustomIp ==> m.answers.len() == 0,
        m.answers.len() <= 1,
        m.answers.len() == 1 ==> (m.answers[0]@.data is A || m.answers[0]@.data is Aaaa)
            && m.answers[0]@.ttl == ttl,
{
    let (code, answers, authorities) = blocked_parts(query, mode, v4, v6, ttl);
    assert(record_views(m.answers).len() == m.answers.len());
    assert(m.answers.len() > 0 ==> record_views(m.answers)[0] == m.answers[0]@);
}

/// What each blocking mode says. NXDOMAIN (3) and REFUSED (5) are said in the modes of
/// these names alone; every other mode says NOERROR (0). The name's absence is told
/// with one SOA that may be kept for the configured time in the modes for NXDOMAIN and
/// for no data. In the modes for addresses a query for an address gets the one of its
/// family (the unspecified or the configured one) under the name it asked for; a query
/// for anything else gets nothing.
pub proof fn law_blocking_modes(
    m: MessageView,
    query: MessageView,
    mode: BlockingMode,
    v4: Ipv4Addr,
    v6: Ipv6Addr,
    ttl: u32,
)
    requires
        query.queries.len() > 0,
        ({
            let (code, answers, authorities) = blocked_parts(query, mode, v4, v6, ttl);
            is_response(m, query, code, answers, authorities)
        }),
    ensures
        m.response_code == 3 <==> mode == BlockingMode::NxDomain,
        m.response_code == 5 <==> mode == BlockingMode::Refused,
        m.response_code == 0 || m.response_code == 3 || m.response_code == 5,
        m.additionals.len() == 0,
        !m.truncation,
        ({
            let asked = message::question_of(query.queries[0]);
            &&& mode == BlockingMode::NxDomain || mode == BlockingMode::NoData
                ==> m.authorities.len() == 1 && m.authorities[0]@.name == asked.name
                && m.authorities[0]@.ttl == ttl && (m.authorities[0]@.data matches DataView::Soa(soa)
                && soa.minimum == ttl)
            &&& mode != BlockingMode::NxDomain && mode != BlockingMode::NoData
                ==> m.authorities.len() == 0
            &&& mode != BlockingMode::NullIp && mode != BlockingMode::CustomIp
                ==> m.answers.len() == 0
            &&& mode == BlockingMode::NullIp || mode == BlockingMode::CustomIp ==> {
                &&& m.answers.len() == (if asked.rtype == 1 || asked.rtype == 28 { 1nat } else { 0 })
                &&& m.answers.len() == 1 ==> m.answers[0]@.name == asked.name
                    && m.answers[0]@.ttl == ttl && m.answers[0]@.class == 1
                &&& asked.rtype == 1 ==> (m.answers[0]@.data matches DataView::A(ip) && ip == (
                if mode == BlockingMode::CustomIp {
                    v4
                } else {
                    Ipv4Addr { bits: 0 }
                }))
                &&& asked.rtype == 28 ==> (m.answers[0]@.data matches DataView::Aaaa(ip) && ip == (
                if mode == BlockingMode::CustomIp {
                    v6
                } else {
                    Ipv6Addr { bits: 0 }
                }))
            }
        }),
{
    assert(record_views(m.answers).len() == m.answers.len());
    assert(m.answers.len() > 0 ==> record_views(m.answers)[0] == m.answers[0]@);
    assert(record_views(m.authorities).len() == m.authorities.len());
    assert(m.authorities.len() > 0 ==> record_views(m.authorities)[0] == m.authorities[0]@);
}

/// What a rewrite says. A response code keyword gives that code and no answer. Data of
/// one type answers queries for that type, with just that data under the name that was
/// asked for, and gives other queries nothing; an alias answers every query, and is
/// followed for queries for addresses alone.
pub proof fn law_rewrites(m: MessageView, query: MessageView, data: RewriteView, ttl: u32)
    requires
        query.queries.len() > 0,
        is_response(
            m,
            query,
            rewritten_code(data),
            rewritten_answers(query, data, ttl),
            Seq::empty(),
        ),
    ensures
        m.id == query.id && m.response && m.queries == query.queries,
        m.authorities.len() == 0 && m.additionals.len() == 0 && !m.truncation,
        m.response_code == (match data {
            RewriteView::Rcode(RewriteRcode::ServFail) => 2u16,
            RewriteView::Rcode(RewriteRcode::NxDomain) => 3,
            RewriteView::Rcode(RewriteRcode::Refused) => 5,
            _ => 0,
        }),
        ({
            let asked = message::question_of(query.queries[0]);
            &&& m.answers.len() <= 1
            &&& m.answers.len() == 1 ==> m.answers[0]@.name == asked.name && m.answers[0]@.ttl
                == ttl && m.answers[0]@.class == 1
            &&& match data {
                RewriteView::A(ip) => (m.answers.len() == 1) == (asked.rtype == 1) && (asked.rtype
                    == 1 ==> m.answers[0]@.data == DataView::A(ip)),
                RewriteView::Aaaa(ip) => (m.answers.len() == 1) == (asked.rtype == 28) && (
                asked.rtype == 28 ==> m.answers[0]@.data == DataView::Aaaa(ip)),
                RewriteView::Txt(s) => (m.answers.len() == 1) == (asked.rtype == 16) && (asked.rtype
                    == 16 ==> m.answers[0]@.data == DataView::Txt(seq![s])),
                RewriteView::Mx(pref, to) => (m.answers.len() == 1) == (asked.rtype == 15) && (
                asked.rtype == 15 ==> (m.answers[0]@.data matches DataView::Mx(p, t) && p
                    == pref as u16 && (message::name_of_text(to) matches Some(n) ==> t == n))),
                RewriteView::Ptr(to) => (m.answers.len() == 1) == (asked.rtype == 12) && (
                asked.rtype == 12 ==> (m.answers[0]@.data matches DataView::Ptr(t) && (
                message::name_of_text(to) matches Some(n) ==> t == n))),
                RewriteView::Cname(to) => m.answers.len() == 1 && (
                m.answers[0]@.data matches DataView::Cname(t) && (message::name_of_text(
                    to,
                ) matches Some(n) ==> t == n)),
                RewriteView::Rcode(_) => m.answers.len() == 0,
            }
            &&& unresolved_alias(query, data) is Some <==> (data is Cname && (asked.rtype == 1
                || asked.rtype == 28))
            &&& unresolved_alias(query, data) matches Some(alias) ==> m.answers[0]@.data
                == DataView::Cname(alias)
        }),
{
    assert(record_views(m.answers).len() == m.answers.len());
    assert(m.answers.len() > 0 ==> record_views(m.answers)[0] == m.answers[0]@);
    assert(record_views(m.authorities).len() == m.authorities.len());
}

} // verus!
