//! DNS messages: a header in plain values around the questions, records and
//! options of `hickory_proto`, which also reads and writes the wire format.

use std::fmt::Write;

use vstd::prelude::*;

use crate::net::{IpAddr, Ipv4Addr, Ipv6Addr};
use crate::text;

verus! {

#[verifier::external_type_specification]
#[verifier::external_body]
pub struct ExName(hickory_proto::rr::Name);

#[verifier::external_type_specification]
#[verifier::external_body]
pub struct ExQuery(hickory_proto::op::Query);

#[verifier::external_type_specification]
#[verifier::external_body]
pub struct ExRData(hickory_proto::rr::RData);

#[verifier::external_type_specification]
#[verifier::external_body]
pub struct ExEdns(hickory_proto::op::Edns);

#[verifier::external_type_specification]
#[verifier::external_body]
pub struct ExMessage(hickory_proto::op::Message);

/// The signature of a message, which is passed on unread. Its type in
/// `hickory_proto` has a parameter bound by a trait of that crate.
#[verifier::external_body]
#[derive(Debug)]
pub struct Signature {
    inner: Box<hickory_proto::rr::Record<hickory_proto::rr::rdata::TSIG>>,
}

/// Response codes.
pub const NO_ERROR: u16 = 0;

pub const FORM_ERR: u16 = 1;

pub const SERV_FAIL: u16 = 2;

pub const NX_DOMAIN: u16 = 3;

pub const NOT_IMP: u16 = 4;

pub const REFUSED: u16 = 5;

/// Record types.
pub const TYPE_A: u16 = 1;

pub const TYPE_NS: u16 = 2;

pub const TYPE_CNAME: u16 = 5;

pub const TYPE_SOA: u16 = 6;

pub const TYPE_PTR: u16 = 12;

pub const TYPE_MX: u16 = 15;

pub const TYPE_TXT: u16 = 16;

pub const TYPE_AAAA: u16 = 28;

pub const TYPE_SRV: u16 = 33;

pub const TYPE_NAPTR: u16 = 35;

pub const TYPE_DS: u16 = 43;

pub const TYPE_DNSKEY: u16 = 48;

pub const TYPE_TLSA: u16 = 52;

pub const TYPE_SVCB: u16 = 64;

pub const TYPE_HTTPS: u16 = 65;

pub const TYPE_CAA: u16 = 257;

/// The class of the Internet.
pub const CLASS_IN: u16 = 1;

/// The operation of a standard query.
pub const OP_QUERY: u8 = 0;

/// A resource record.
#[derive(Debug)]
pub struct Record {
    pub name: hickory_proto::rr::Name,
    pub class: u16,
    pub ttl: u32,
    pub data: hickory_proto::rr::RData,
}

/// A DNS message.
#[derive(Debug)]
pub struct DnsMessage {
    pub id: u16,
    /// A response rather than a query.
    pub response: bool,
    pub op_code: u8,
    pub authoritative: bool,
    pub truncation: bool,
    pub recursion_desired: bool,
    pub recursion_available: bool,
    pub authentic_data: bool,
    pub checking_disabled: bool,
    /// The response code, with its extension by EDNS.
    pub response_code: u16,
    pub queries: Vec<hickory_proto::op::Query>,
    pub answers: Vec<Record>,
    pub authorities: Vec<Record>,
    pub additionals: Vec<Record>,
    pub signature: Option<Signature>,
    pub edns: Option<hickory_proto::op::Edns>,
}

/// What a [`DnsMessage`] says.
#[verifier::ext_equal]
pub struct MessageView {
    pub id: u16,
    pub response: bool,
    pub op_code: u8,
    pub authoritative: bool,
    pub truncation: bool,
    pub recursion_desired: bool,
    pub recursion_available: bool,
    pub authentic_data: bool,
    pub checking_disabled: bool,
    pub response_code: u16,
    pub queries: Seq<hickory_proto::op::Query>,
    pub answers: Seq<Record>,
    pub authorities: Seq<Record>,
    pub additionals: Seq<Record>,
    pub signature: Option<Signature>,
    pub edns: Option<hickory_proto::op::Edns>,
}

impl View for DnsMessage {
    type V = MessageView;

    open spec fn view(&self) -> MessageView {
        MessageView {
            id: self.id,
            response: self.response,
            op_code: self.op_code,
            authoritative: self.authoritative,
            truncation: self.truncation,
            recursion_desired: self.recursion_desired,
            recursion_available: self.recursion_available,
            authentic_data: self.authentic_data,
            checking_disabled: self.checking_disabled,
            response_code: self.response_code,
            queries: self.queries@,
            answers: self.answers@,
            authorities: self.authorities@,
            additionals: self.additionals@,
            signature: self.signature,
            edns: self.edns,
        }
    }
}

/// A message with nothing but an id, a kind and an operation.
pub open spec fn bare(id: u16, response: bool, op_code: u8) -> MessageView {
    MessageView {
        id,
        response,
        op_code,
        authoritative: false,
        truncation: false,
        recursion_desired: false,
        recursion_available: false,
        authentic_data: false,
        checking_disabled: false,
        response_code: NO_ERROR,
        queries: Seq::empty(),
        answers: Seq::empty(),
        authorities: Seq::empty(),
        additionals: Seq::empty(),
        signature: None,
        edns: None,
    }
}

impl DnsMessage {
    /// An equal message.
    pub fn copied(&self) -> (r: DnsMessage)
        ensures
            r@ == self@,
    {
        DnsMessage {
            id: self.id,
            response: self.response,
            op_code: self.op_code,
            authoritative: self.authoritative,
            truncation: self.truncation,
            recursion_desired: self.recursion_desired,
            recursion_available: self.recursion_available,
            authentic_data: self.authentic_data,
            checking_disabled: self.checking_disabled,
            response_code: self.response_code,
            queries: copy_questions(&self.queries),
            answers: copy_records(&self.answers),
            authorities: copy_records(&self.authorities),
            additionals: copy_records(&self.additionals),
            signature: match &self.signature {
                Some(s) => Some(copy_signature(s)),
                None => None,
            },
            edns: match &self.edns {
                Some(e) => Some(e.clone()),
                None => None,
            },
        }
    }

    /// A message with nothing but an id, a kind and an operation.
    pub fn new(id: u16, response: bool, op_code: u8) -> (r: DnsMessage)
        ensures
            r@ == bare(id, response, op_code),
    {
        DnsMessage {
            id,
            response,
            op_code,
            authoritative: false,
            truncation: false,
            recursion_desired: false,
            recursion_available: false,
            authentic_data: false,
            checking_disabled: false,
            response_code: NO_ERROR,
            queries: Vec::new(),
            answers: Vec::new(),
            authorities: Vec::new(),
            additionals: Vec::new(),
            signature: None,
            edns: None,
        }
    }
}

/// What a question asks. The name is in ASCII form, in the case it came in.
pub struct QuestionView {
    pub name: Seq<char>,
    pub rtype: u16,
    pub class: u16,
}

/// What a start of authority says.
pub struct SoaView {
    pub mname: Seq<char>,
    pub rname: Seq<char>,
    pub serial: u32,
    pub refresh: i32,
    pub retry: i32,
    pub expire: i32,
    pub minimum: u32,
}

/// The data of a record, as far as it is read or made here.
pub enum DataView {
    A(Ipv4Addr),
    Aaaa(Ipv6Addr),
    Cname(Seq<char>),
    Soa(SoaView),
    Txt(Seq<Seq<char>>),
    Mx(u16, Seq<char>),
    Ptr(Seq<char>),
    /// An HTTPS or SVCB record: for each parameter the addresses it hints at,
    /// none where it is no address hint.
    Service(Seq<Seq<IpAddr>>),
    Other,
}

/// What a [`Record`] says.
pub struct RecordView {
    pub name: Seq<char>,
    pub class: u16,
    pub ttl: u32,
    pub data: DataView,
}

impl View for Record {
    type V = RecordView;

    open spec fn view(&self) -> RecordView {
        RecordView {
            name: name_text(self.name),
            class: self.class,
            ttl: self.ttl,
            data: data_of(self.data),
        }
    }
}

/// A record for the class of the Internet.
pub fn new_record(
    name: hickory_proto::rr::Name,
    ttl: u32,
    data: hickory_proto::rr::RData,
) -> (r: Record)
    ensures
        r == (Record { name, class: CLASS_IN, ttl, data }),
{
    Record { name, class: CLASS_IN, ttl, data }
}

impl Record {
    /// An equal record.
    pub fn copied(&self) -> (r: Record)
        ensures
            r == *self,
    {
        Record {
            name: self.name.clone(),
            class: self.class,
            ttl: self.ttl,
            data: self.data.clone(),
        }
    }
}

/// Equal records.
pub fn copy_records(v: &Vec<Record>) -> (r: Vec<Record>)
    ensures
        r@ == v@,
{
    let mut out: Vec<Record> = Vec::new();
    let mut i: usize = 0;
    while i < v.len()
        invariant
            i <= v@.len(),
            out@ == v@.take(i as int),
        decreases v@.len() - i,
    {
        out.push(v[i].copied());
        assert(v@.take(i + 1) =~= v@.take(i as int).push(v@[i as int]));
        i = i + 1;
    }
    assert(v@.take(i as int) =~= v@);
    out
}

/// Equal questions.
pub fn copy_questions(v: &Vec<hickory_proto::op::Query>) -> (r: Vec<hickory_proto::op::Query>)
    ensures
        r@ == v@,
{
    let mut out: Vec<hickory_proto::op::Query> = Vec::new();
    let mut i: usize = 0;
    while i < v.len()
        invariant
            i <= v@.len(),
            out@ == v@.take(i as int),
        decreases v@.len() - i,
    {
        out.push(v[i].clone());
        assert(v@.take(i + 1) =~= v@.take(i as int).push(v@[i as int]));
        i = i + 1;
    }
    assert(v@.take(i as int) =~= v@);
    out
}

/// What an EDNS option record says.
pub struct EdnsView {
    pub version: u8,
    pub max_payload: u16,
    pub dnssec_ok: bool,
    /// How many options there are.
    pub options: nat,
}

/// The ASCII form of a name, with a dot at its end where it is fully qualified.
pub uninterp spec fn name_text(name: hickory_proto::rr::Name) -> Seq<char>;

/// What a question holds.
pub uninterp spec fn question_of(q: hickory_proto::op::Query) -> QuestionView;

/// What record data holds.
pub uninterp spec fn data_of(data: hickory_proto::rr::RData) -> DataView;

/// What an EDNS option record holds.
pub uninterp spec fn edns_of(e: hickory_proto::op::Edns) -> EdnsView;

/// The message that bytes on the wire hold, or why they hold none.
pub uninterp spec fn wire_message(bytes: Seq<u8>) -> Result<MessageView, Seq<char>>;

/// The bytes of a message on the wire, or why it has none.
pub uninterp spec fn message_wire(m: MessageView) -> Result<Seq<u8>, Seq<char>>;

/// The ASCII form of the name that a text gives, where it gives one.
pub uninterp spec fn name_of_text(s: Seq<char>) -> Option<Seq<char>>;

/// Whether two names in ASCII form have the same labels, in any case and
/// whether or not they are fully qualified.
pub uninterp spec fn same_name(a: Seq<char>, b: Seq<char>) -> bool;

/// The number of the type of record data.
pub uninterp spec fn data_type(data: hickory_proto::rr::RData) -> u16;

/// What record data says, as its `Display` writes it; `None` where it has no text.
pub uninterp spec fn rdata_text(data: hickory_proto::rr::RData) -> Option<Seq<char>>;

/// What a message of `hickory_proto` holds.
pub uninterp spec fn held(m: hickory_proto::op::Message) -> MessageView;

/// A response code in words.
pub uninterp spec fn rcode_text(code: u16) -> Seq<char>;

/// A record type in words.
pub uninterp spec fn rtype_text(rtype: u16) -> Seq<char>;

/// A message without its records.
pub open spec fn without_records(m: MessageView) -> MessageView {
    MessageView {
        answers: Seq::empty(),
        authorities: Seq::empty(),
        additionals: Seq::empty(),
        ..m
    }
}

/// `Message::from_vec` of `hickory_proto`: reads a message from the wire. Its
/// result depends on the bytes alone and is named.
#[verifier::external_body]
fn from_wire(bytes: &[u8]) -> (r: Result<hickory_proto::op::Message, String>)
    ensures
        match r {
            Ok(m) => wire_message(bytes@) == Ok::<MessageView, Seq<char>>(held(m)),
            Err(e) => wire_message(bytes@) == Err::<MessageView, Seq<char>>(e@),
        },
{
    hickory_proto::op::Message::from_vec(bytes).map_err(|e| e.to_string())
}

/// `Message::to_vec` of `hickory_proto`: writes a message for the wire. Its
/// result depends on the message alone and is named.
#[verifier::external_body]
fn to_wire(m: &hickory_proto::op::Message) -> (r: Result<Vec<u8>, String>)
    ensures
        match r {
            Ok(bytes) => message_wire(held(*m)) == Ok::<Seq<u8>, Seq<char>>(bytes@),
            Err(e) => message_wire(held(*m)) == Err::<Seq<u8>, Seq<char>>(e@),
        },
{
    m.to_vec().map_err(|e| e.to_string())
}

/// The fields of a `Message` of `hickory_proto` but for the records.
#[verifier::external_body]
fn read_head(m: &hickory_proto::op::Message) -> (r: DnsMessage)
    ensures
        r@ == without_records(held(*m)),
{
    let h = &m.metadata;
    DnsMessage {
        id: h.id, op_code: h.op_code.into(), response_code: h.response_code.into(),
        response: matches!(h.message_type, hickory_proto::op::MessageType::Response),
        authoritative: h.authoritative, truncation: h.truncation,
        recursion_desired: h.recursion_desired, recursion_available: h.recursion_available,
        authentic_data: h.authentic_data, checking_disabled: h.checking_disabled,
        queries: m.queries.clone(), edns: m.edns.clone(),
        answers: Vec::new(), authorities: Vec::new(), additionals: Vec::new(),
        signature: m.signature.clone().map(|inner| Signature { inner }),
    }
}

/// The records of a `Message` of `hickory_proto`: answers, authorities and
/// additional records.
#[verifier::external_body]
fn read_records(m: hickory_proto::op::Message) -> (r: (Vec<Record>, Vec<Record>, Vec<Record>))
    ensures
        (r.0)@ == held(m).answers,
        (r.1)@ == held(m).authorities,
        (r.2)@ == held(m).additionals,
{
    let record = |r: hickory_proto::rr::Record| {
        Record { name: r.name, class: r.dns_class.into(), ttl: r.ttl, data: r.data }
    };
    let answers = m.answers.into_iter().map(record).collect();
    let authorities = m.authorities.into_iter().map(record).collect();
    (answers, authorities, m.additionals.into_iter().map(record).collect())
}

/// A `Message` of `hickory_proto` with the same fields but for the records.
#[verifier::external_body]
fn write_head(msg: &DnsMessage) -> (r: hickory_proto::op::Message)
    ensures
        held(r) == without_records(msg@),
{
    let op_code = hickory_proto::op::OpCode::from_u8(msg.op_code);
    let mut m = hickory_proto::op::Message::response(msg.id, op_code);
    if !msg.response { m.metadata.message_type = hickory_proto::op::MessageType::Query; }
    m.metadata.authoritative = msg.authoritative;
    m.metadata.truncation = msg.truncation;
    m.metadata.recursion_desired = msg.recursion_desired;
    m.metadata.recursion_available = msg.recursion_available;
    m.metadata.authentic_data = msg.authentic_data;
    m.metadata.checking_disabled = msg.checking_disabled;
    m.metadata.response_code = msg.response_code.into();
    m.queries = msg.queries.clone();
    m.signature = msg.signature.as_ref().map(|s| s.inner.clone());
    m.edns = msg.edns.clone();
    m
}

/// Gives a `Message` of `hickory_proto` the records of another message.
#[verifier::external_body]
fn write_records(m: &mut hickory_proto::op::Message, msg: &DnsMessage)
    ensures
        held(*final(m)) == (MessageView {
            answers: msg@.answers,
            authorities: msg@.authorities,
            additionals: msg@.additionals,
            ..held(*old(m))
        }),
{
    let record = |r: &Record| {
        let mut h = hickory_proto::rr::Record::from_rdata(r.name.clone(), r.ttl, r.data.clone());
        h.dns_class = r.class.into();
        h
    };
    m.answers = msg.answers.iter().map(record).collect();
    m.authorities = msg.authorities.iter().map(record).collect();
    m.additionals = msg.additionals.iter().map(record).collect();
}

/// Reads a message from the wire; the error says why it cannot be read.
pub fn read_message(bytes: &[u8]) -> (r: Result<DnsMessage, String>)
    ensures
        match wire_message(bytes@) {
            Ok(v) => r matches Ok(m) && m@ == v,
            Err(why) => r matches Err(e) && e@ == why,
        },
{
    match from_wire(bytes) {
        Ok(m) => {
            let mut msg: DnsMessage = read_head(&m);
            let (answers, authorities, additionals) = read_records(m);
            msg.answers = answers;
            msg.authorities = authorities;
            msg.additionals = additionals;
            assert(msg@ =~= held(m));
            Ok(msg)
        },
        Err(e) => Err(e),
    }
}

/// Writes a message for the wire; the error says why it cannot be written.
pub fn write_message(msg: &DnsMessage) -> (r: Result<Vec<u8>, String>)
    ensures
        match message_wire(msg@) {
            Ok(v) => r matches Ok(bytes) && bytes@ == v,
            Err(why) => r matches Err(e) && e@ == why,
        },
{
    let mut m: hickory_proto::op::Message = write_head(msg);
    write_records(&mut m, msg);
    assert(held(m) =~= msg@);
    to_wire(&m)
}

/// `Record::clone` of `hickory_proto`: an equal signature.
#[verifier::external_body]
fn copy_signature(s: &Signature) -> (r: Signature)
    ensures
        r == *s,
{
    Signature { inner: s.inner.clone() }
}

/// `Name::from_str` of `hickory_proto`: reads a name. The ASCII form of the
/// name depends on the text alone and is named.
#[verifier::external_body]
pub(crate) fn read_name(s: &str) -> (r: Option<hickory_proto::rr::Name>)
    ensures
        match r {
            Some(name) => name_of_text(s@) == Some(name_text(name)),
            None => name_of_text(s@) is None,
        },
{
    s.parse().ok()
}

/// The ASCII form of the fully qualified name that a text gives, or why it gives
/// none.
pub uninterp spec fn fqdn_of_text(s: Seq<char>) -> Result<Seq<char>, Seq<char>>;

/// `Name::from_str` of `hickory_proto`, then `set_fqdn`: reads a name as fully
/// qualified. The ASCII form of the name, and the error, depend on the text alone
/// and are named.
#[verifier::external_body]
pub(crate) fn read_fqdn(s: &str) -> (r: Result<hickory_proto::rr::Name, String>)
    ensures
        match r {
            Ok(name) => fqdn_of_text(s@) == Ok::<Seq<char>, Seq<char>>(name_text(name)),
            Err(e) => fqdn_of_text(s@) == Err::<Seq<char>, Seq<char>>(e@),
        },
{
    let mut name: hickory_proto::rr::Name = s.parse().map_err(
        |e: hickory_proto::ProtoError| e.to_string(),
    )?;
    name.set_fqdn(true);
    Ok(name)
}

/// `Name::root` of `hickory_proto`: the name without labels, which is written
/// as a dot.
#[verifier::external_body]
pub(crate) fn root_name() -> (r: hickory_proto::rr::Name)
    ensures
        name_text(r) == seq!['.'],
{
    hickory_proto::rr::Name::root()
}

/// `Name::to_ascii` of `hickory_proto`: the ASCII form of a name.
#[verifier::external_body]
pub(crate) fn show_name(name: &hickory_proto::rr::Name) -> (r: String)
    ensures
        r@ == name_text(*name),
{
    name.to_ascii()
}

/// `Name::clone` of `hickory_proto`: an equal name.
pub assume_specification[ <hickory_proto::rr::Name as Clone>::clone ](
    name: &hickory_proto::rr::Name,
) -> (r: hickory_proto::rr::Name)
    ensures
        r == *name,
;

/// `Query::query` of `hickory_proto`, then `set_query_class`: a question.
#[verifier::external_body]
pub(crate) fn new_question(name: hickory_proto::rr::Name, rtype: u16, class: u16) -> (r:
    hickory_proto::op::Query)
    ensures
        question_of(r) == (QuestionView { name: name_text(name), rtype, class }),
{
    let mut q = hickory_proto::op::Query::query(name, rtype.into());
    q.set_query_class(class.into());
    q
}

/// `Query::name` of `hickory_proto`: the name that a question asks for.
#[verifier::external_body]
pub(crate) fn question_name(q: &hickory_proto::op::Query) -> (r: hickory_proto::rr::Name)
    ensures
        name_text(r) == question_of(*q).name,
{
    q.name().clone()
}

/// `Query::query_type` of `hickory_proto`: the type that a question asks for.
#[verifier::external_body]
pub(crate) fn question_type(q: &hickory_proto::op::Query) -> (r: u16)
    ensures
        r == question_of(*q).rtype,
{
    q.query_type().into()
}

/// `Query::query_class` of `hickory_proto`: the class that a question asks for.
#[verifier::external_body]
pub(crate) fn question_class(q: &hickory_proto::op::Query) -> (r: u16)
    ensures
        r == question_of(*q).class,
{
    q.query_class().into()
}

/// `Query::clone` of `hickory_proto`: an equal question.
pub assume_specification[ <hickory_proto::op::Query as Clone>::clone ](
    q: &hickory_proto::op::Query,
) -> (r: hickory_proto::op::Query)
    ensures
        r == *q,
;

/// `Name::eq_ignore_root` of `hickory_proto`: compares the labels of two names
/// without regard to case. It depends on the names' text alone and is named;
/// names that differ in case only are the same.
#[verifier::external_body]
pub(crate) fn names_match(a: &hickory_proto::rr::Name, b: &hickory_proto::rr::Name) -> (r: bool)
    ensures
        r == same_name(name_text(*a), name_text(*b)),
        text::lowered(name_text(*a)) == text::lowered(name_text(*b)) ==> r,
{
    a.eq_ignore_root(b)
}

/// `RData::A` of `hickory_proto`: an IPv4 address as record data.
#[verifier::external_body]
pub(crate) fn a_data(ip: Ipv4Addr) -> (r: hickory_proto::rr::RData)
    ensures
        data_of(r) == DataView::A(ip),
{
    hickory_proto::rr::RData::A(hickory_proto::rr::rdata::A(ip.bits.into()))
}

/// `RData::AAAA` of `hickory_proto`: an IPv6 address as record data.
#[verifier::external_body]
pub(crate) fn aaaa_data(ip: Ipv6Addr) -> (r: hickory_proto::rr::RData)
    ensures
        data_of(r) == DataView::Aaaa(ip),
{
    hickory_proto::rr::RData::AAAA(hickory_proto::rr::rdata::AAAA(ip.bits.into()))
}

/// `RData::CNAME` of `hickory_proto`: an alias as record data.
#[verifier::external_body]
pub(crate) fn cname_data(target: hickory_proto::rr::Name) -> (r: hickory_proto::rr::RData)
    ensures
        data_of(r) == DataView::Cname(name_text(target)),
{
    hickory_proto::rr::RData::CNAME(hickory_proto::rr::rdata::CNAME(target))
}

/// `RData::PTR` of `hickory_proto`: a pointer as record data.
#[verifier::external_body]
pub(crate) fn ptr_data(target: hickory_proto::rr::Name) -> (r: hickory_proto::rr::RData)
    ensures
        data_of(r) == DataView::Ptr(name_text(target)),
{
    hickory_proto::rr::RData::PTR(hickory_proto::rr::rdata::PTR(target))
}

/// `MX::new` of `hickory_proto`: a mail exchange as record data.
#[verifier::external_body]
pub(crate) fn mx_data(preference: u16, exchange: hickory_proto::rr::Name) -> (r:
    hickory_proto::rr::RData)
    ensures
        data_of(r) == DataView::Mx(preference, name_text(exchange)),
{
    hickory_proto::rr::RData::MX(hickory_proto::rr::rdata::MX::new(preference, exchange))
}

/// `TXT::new` of `hickory_proto`: one text as record data.
#[verifier::external_body]
pub(crate) fn txt_data(s: &str) -> (r: hickory_proto::rr::RData)
    ensures
        data_of(r) == DataView::Txt(seq![s@]),
{
    hickory_proto::rr::RData::TXT(hickory_proto::rr::rdata::TXT::new(vec![s.to_string()]))
}

/// `SOA::new` of `hickory_proto`: a start of authority as record data.
#[verifier::external_body]
pub(crate) fn soa_data(
    mname: hickory_proto::rr::Name,
    rname: hickory_proto::rr::Name,
    serial: u32,
    refresh: i32,
    retry: i32,
    expire: i32,
    minimum: u32,
) -> (r: hickory_proto::rr::RData)
    ensures
        data_of(r) == DataView::Soa(
            (SoaView {
                mname: name_text(mname),
                rname: name_text(rname),
                serial,
                refresh,
                retry,
                expire,
                minimum,
            }),
        ),
{
    hickory_proto::rr::RData::SOA(
        hickory_proto::rr::rdata::SOA::new(mname, rname, serial, refresh, retry, expire, minimum),
    )
}

/// `RData::clone` of `hickory_proto`: equal record data.
pub assume_specification[ <hickory_proto::rr::RData as Clone>::clone ](
    data: &hickory_proto::rr::RData,
) -> (r: hickory_proto::rr::RData)
    ensures
        r == *data,
;

/// What the filter and the cache read of a record's data.
#[derive(Debug)]
pub enum Data {
    A(Ipv4Addr),
    Aaaa(Ipv6Addr),
    Cname(String),
    /// The negative-cache TTL of a start of authority.
    SoaMinimum(u32),
    Service,
    Other,
}

/// The variants of `RData` in `hickory_proto`, told apart.
#[verifier::external_body]
pub(crate) fn read_data(data: &hickory_proto::rr::RData) -> (r: Data)
    ensures
        match data_of(*data) {
            DataView::A(ip) => r == Data::A(ip),
            DataView::Aaaa(ip) => r == Data::Aaaa(ip),
            DataView::Cname(target) => r matches Data::Cname(t) && t@ == target,
            DataView::Soa(soa) => r == Data::SoaMinimum(soa.minimum),
            DataView::Service(_) => r is Service,
            _ => r is Other,
        },
{
    match data {
        hickory_proto::rr::RData::A(a) => Data::A(Ipv4Addr { bits: a.0.into() }),
        hickory_proto::rr::RData::AAAA(a) => Data::Aaaa(Ipv6Addr { bits: a.0.into() }),
        hickory_proto::rr::RData::CNAME(c) => Data::Cname(c.0.to_ascii()),
        hickory_proto::rr::RData::SOA(s) => Data::SoaMinimum(s.minimum),
        hickory_proto::rr::RData::HTTPS(_) => Data::Service,
        hickory_proto::rr::RData::SVCB(_) => Data::Service,
        _ => Data::Other,
    }
}

pub open spec fn address_lists(v: Seq<Vec<IpAddr>>) -> Seq<Seq<IpAddr>> {
    v.map_values(|l: Vec<IpAddr>| l@)
}

/// The field `svc_params` of an `HTTPS` or `SVCB` of `hickory_proto`: the
/// address hints, parameter by parameter.
#[verifier::external_body]
pub(crate) fn read_hints(data: &hickory_proto::rr::RData) -> (r: Vec<Vec<IpAddr>>)
    ensures
        match data_of(*data) {
            DataView::Service(hints) => address_lists(r@) == hints,
            _ => r@.len() == 0,
        },
{
    let svcb = match data {
        hickory_proto::rr::RData::HTTPS(h) => &h.0,
        hickory_proto::rr::RData::SVCB(s) => s,
        _ => return Vec::new(),
    };
    svcb.svc_params.iter().map(|(_, v)| match v {
        hickory_proto::rr::rdata::svcb::SvcParamValue::Ipv4Hint(h) =>
            h.0.iter().map(|a| IpAddr::V4(Ipv4Addr { bits: a.0.into() })).collect(),
        hickory_proto::rr::rdata::svcb::SvcParamValue::Ipv6Hint(h) =>
            h.0.iter().map(|a| IpAddr::V6(Ipv6Addr { bits: a.0.into() })).collect(),
        _ => Vec::new(),
    }).collect()
}

/// `RData::record_type` of `hickory_proto`: the number of the type of record data.
/// It depends on the data alone and is named; of the data that the library tells
/// apart it is stated.
#[verifier::external_body]
pub(crate) fn read_type(data: &hickory_proto::rr::RData) -> (r: u16)
    ensures
        r == data_type(*data),
        match data_of(*data) {
            DataView::A(_) => r == TYPE_A,
            DataView::Aaaa(_) => r == TYPE_AAAA,
            DataView::Cname(_) => r == TYPE_CNAME,
            DataView::Soa(_) => r == TYPE_SOA,
            DataView::Txt(_) => r == TYPE_TXT,
            DataView::Mx(_, _) => r == TYPE_MX,
            DataView::Ptr(_) => r == TYPE_PTR,
            DataView::Service(_) => r == TYPE_HTTPS || r == TYPE_SVCB,
            DataView::Other => true,
        },
{
    data.record_type().into()
}

/// The `Display` of `RData` in `hickory_proto`: what record data says, or `None` where
/// it reports an error, as it does for an `OPT`. It depends on the data alone and is
/// named.
#[verifier::external_body]
pub(crate) fn show_data(data: &hickory_proto::rr::RData) -> (r: Option<String>)
    ensures
        match r {
            Some(s) => rdata_text(*data) == Some(s@),
            None => rdata_text(*data) is None,
        },
{
    let mut out = String::new();
    match write!(out, "{data}") {
        Ok(()) => Some(out),
        Err(_) => None,
    }
}

/// The `Debug` of `ResponseCode` in `hickory_proto`. It depends on the code
/// alone and is named.
#[verifier::external_body]
pub(crate) fn show_rcode(code: u16) -> (r: String)
    ensures
        r@ == rcode_text(code),
{
    let code: hickory_proto::op::ResponseCode = code.into();
    format!("{code:?}")
}

/// The `Display` of `RecordType` in `hickory_proto`. It depends on the type
/// alone and is named.
#[verifier::external_body]
pub(crate) fn show_rtype(rtype: u16) -> (r: String)
    ensures
        r@ == rtype_text(rtype),
{
    hickory_proto::rr::RecordType::from(rtype).to_string()
}

/// What is read of an EDNS option record.
#[derive(Debug, Clone, Copy, PartialEq, Eq, Structural)]
pub struct EdnsFields {
    pub version: u8,
    pub max_payload: u16,
    pub dnssec_ok: bool,
    /// How many options there are.
    pub options: usize,
}

/// `Edns::version`, `max_payload`, `flags` and `options` of `hickory_proto`.
#[verifier::external_body]
pub(crate) fn edns_fields(e: &hickory_proto::op::Edns) -> (r: EdnsFields)
    ensures
        edns_of(*e) == (EdnsView {
            version: r.version,
            max_payload: r.max_payload,
            dnssec_ok: r.dnssec_ok,
            options: r.options as nat,
        }),
{
    EdnsFields {
        version: e.version(),
        max_payload: e.max_payload(),
        dnssec_ok: e.flags().dnssec_ok,
        options: e.options().options.len(),
    }
}

/// `Edns::new` of `hickory_proto` and its setters: an option record without
/// options. The payload is at least 512.
#[verifier::external_body]
pub(crate) fn new_edns(version: u8, max_payload: u16, dnssec_ok: bool) -> (r:
    hickory_proto::op::Edns)
    ensures
        edns_of(r) == (EdnsView {
            version,
            max_payload: if max_payload < 512 { 512 } else { max_payload },
            dnssec_ok,
            options: 0,
        }),
{
    let mut e = hickory_proto::op::Edns::new();
    e.set_version(version);
    e.set_max_payload(max_payload);
    e.set_dnssec_ok(dnssec_ok);
    e
}

/// `Edns::clone` of `hickory_proto`: an equal option record.
pub assume_specification[ <hickory_proto::op::Edns as Clone>::clone ](
    e: &hickory_proto::op::Edns,
) -> (r: hickory_proto::op::Edns)
    ensures
        r == *e,
;

} // verus!
