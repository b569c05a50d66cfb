//! Queries as they come in and responses as they go out.

use vstd::prelude::*;

use crate::engine::cache;
use crate::engine::cache::decode_or_empty;
use crate::engine::wire;
use crate::engine::wire::{parse_query, ParsedQuery, QueryView};
use crate::message;
use crate::message::{
    copy_questions, edns_fields, question_name, read_message, show_name, show_rcode, show_rtype, write_message, DnsMessage, MessageView, FORM_ERR, NOT_IMP,
    NO_ERROR, NX_DOMAIN, REFUSED, SERV_FAIL, TYPE_A, TYPE_AAAA, TYPE_CAA, TYPE_CNAME, TYPE_DNSKEY,
    TYPE_DS, TYPE_HTTPS, TYPE_MX, TYPE_NAPTR, TYPE_NS, TYPE_PTR, TYPE_SOA, TYPE_SRV, TYPE_SVCB,
    TYPE_TLSA, TYPE_TXT,
};
use crate::text;
use crate::text::{chars_of, lower_chars, string_of, upper_chars};
use crate::upstream::transport;
use crate::upstream::transport::{frame, KeyView, QueryKey};

verus! {

/// The least UDP payload that a client takes.
pub const MIN_UDP_PAYLOAD: usize = 512;

/// The most UDP payload that is sent.
pub const MAX_UDP_REPLY: usize = 4096;

/// The label of a response code.
pub open spec fn rcode_name(code: u16) -> Seq<char> {
    if code == NO_ERROR {
        "NOERROR"@
    } else if code == FORM_ERR {
        "FORMERR"@
    } else if code == SERV_FAIL {
        "SERVFAIL"@
    } else if code == NX_DOMAIN {
        "NXDOMAIN"@
    } else if code == NOT_IMP {
        "NOTIMP"@
    } else if code == REFUSED {
        "REFUSED"@
    } else {
        text::uppered(message::rcode_text(code))
    }
}

/// Returns a label for a response code.
pub fn rcode_label(code: u16) -> (r: String)
    ensures
        r@ == rcode_name(code),
{
    if code == NO_ERROR {
        "NOERROR".to_owned()
    } else if code == FORM_ERR {
        "FORMERR".to_owned()
    } else if code == SERV_FAIL {
        "SERVFAIL".to_owned()
    } else if code == NX_DOMAIN {
        "NXDOMAIN".to_owned()
    } else if code == NOT_IMP {
        "NOTIMP".to_owned()
    } else if code == REFUSED {
        "REFUSED".to_owned()
    } else {
        let shown: Vec<char> = chars_of(show_rcode(code).as_str());
        string_of(upper_chars(shown.as_slice()).as_slice())
    }
}

/// The label of a record type.
pub open spec fn rtype_name(rtype: u16) -> Seq<char> {
    if rtype == TYPE_A {
        "A"@
    } else if rtype == TYPE_AAAA {
        "AAAA"@
    } else if rtype == TYPE_CNAME {
        "CNAME"@
    } else if rtype == TYPE_MX {
        "MX"@
    } else if rtype == TYPE_NS {
        "NS"@
    } else if rtype == TYPE_PTR {
        "PTR"@
    } else if rtype == TYPE_SOA {
        "SOA"@
    } else if rtype == TYPE_SRV {
        "SRV"@
    } else if rtype == TYPE_TXT {
        "TXT"@
    } else if rtype == TYPE_CAA {
        "CAA"@
    } else if rtype == TYPE_HTTPS {
        "HTTPS"@
    } else if rtype == TYPE_SVCB {
        "SVCB"@
    } else if rtype == TYPE_DS {
        "DS"@
    } else if rtype == TYPE_DNSKEY {
        "DNSKEY"@
    } else if rtype == TYPE_NAPTR {
        "NAPTR"@
    } else if rtype == TYPE_TLSA {
        "TLSA"@
    } else {
        message::rtype_text(rtype)
    }
}

/// Returns a label for a record type.
pub fn rtype_label(rtype: u16) -> (r: String)
    ensures
        r@ == rtype_name(rtype),
{
    if rtype == TYPE_A {
        "A".to_owned()
    } else if rtype == TYPE_AAAA {
        "AAAA".to_owned()
    } else if rtype == TYPE_CNAME {
        "CNAME".to_owned()
    } else if rtype == TYPE_MX {
        "MX".to_owned()
    } else if rtype == TYPE_NS {
        "NS".to_owned()
    } else if rtype == TYPE_PTR {
        "PTR".to_owned()
    } else if rtype == TYPE_SOA {
        "SOA".to_owned()
    } else if rtype == TYPE_SRV {
        "SRV".to_owned()
    } else if rtype == TYPE_TXT {
        "TXT".to_owned()
    } else if rtype == TYPE_CAA {
        "CAA".to_owned()
    } else if rtype == TYPE_HTTPS {
        "HTTPS".to_owned()
    } else if rtype == TYPE_SVCB {
        "SVCB".to_owned()
    } else if rtype == TYPE_DS {
        "DS".to_owned()
    } else if rtype == TYPE_DNSKEY {
        "DNSKEY".to_owned()
    } else if rtype == TYPE_NAPTR {
        "NAPTR".to_owned()
    } else if rtype == TYPE_TLSA {
        "TLSA".to_owned()
    } else {
        show_rtype(rtype)
    }
}

/// Parsed query ingress, retaining wire bytes for lazy full parsing.
#[derive(Debug)]
pub enum Ingress {
    /// Minimal parse plus original bytes.
    Fast { bytes: Vec<u8>, parsed: ParsedQuery },
    /// Fully parsed fallback.
    Full(DnsMessage),
}

/// What an [`Ingress`] says.
pub enum IngressView {
    Fast { bytes: Seq<u8>, parsed: QueryView },
    Full(MessageView),
}

impl View for Ingress {
    type V = IngressView;

    open spec fn view(&self) -> IngressView {
        match self {
            Ingress::Fast { bytes, parsed } => IngressView::Fast {
                bytes: bytes@,
                parsed: parsed@,
            },
            Ingress::Full(m) => IngressView::Full(m@),
        }
    }
}

/// The query in bytes: by the minimal parse where that reads it, or else as a
/// whole message.
pub open spec fn ingress_of(bytes: Seq<u8>) -> Option<IngressView> {
    match wire::query_of(bytes) {
        Some(parsed) => Some(IngressView::Fast { bytes, parsed }),
        None => match message::wire_message(bytes) {
            Ok(m) => Some(IngressView::Full(m)),
            Err(_) => None,
        },
    }
}

/// The UDP payload that a client advertises; 512 where it says nothing.
pub open spec fn advertised(ingress: IngressView) -> int {
    match ingress {
        IngressView::Fast { parsed, .. } => match parsed.edns_payload {
            Some(n) => n,
            None => 512,
        },
        IngressView::Full(m) => match m.edns {
            Some(e) => message::edns_of(e).max_payload as int,
            None => 512,
        },
    }
}

/// The longest UDP reply to a query: what the client advertises, within 512 and
/// 4096.
pub open spec fn udp_limit(ingress: IngressView) -> int {
    let n = advertised(ingress);
    if n < 512 {
        512
    } else if n > 4096 {
        4096
    } else {
        n
    }
}

/// Query fields used before full parsing.
#[derive(Debug)]
pub struct QueryFields {
    pub id: u16,
    /// Original on-the-wire case, for the query log.
    pub qname_display: String,
    /// The question, with its name lowercased and dot-terminated.
    pub key: QueryKey,
}

/// What a [`QueryFields`] says.
pub struct FieldsView {
    pub id: u16,
    pub qname: Seq<char>,
    pub key: KeyView,
}

impl View for QueryFields {
    type V = FieldsView;

    open spec fn view(&self) -> FieldsView {
        FieldsView { id: self.id, qname: self.qname_display@, key: self.key@ }
    }
}

/// The fields of a query; none where it has no question.
pub open spec fn fields_of(ingress: IngressView) -> Option<FieldsView> {
    match ingress {
        IngressView::Fast { parsed, .. } => Some(
            FieldsView {
                id: parsed.id as u16,
                qname: parsed.qname,
                key: KeyView {
                    name: text::lowered(parsed.qname),
                    rtype: parsed.qtype as u16,
                    class: parsed.qclass as u16,
                    dnssec_ok: parsed.dnssec_ok,
                    checking_disabled: parsed.checking_disabled,
                },
            },
        ),
        IngressView::Full(m) => match transport::key_of(m) {
            Some(key) => Some(
                FieldsView { id: m.id, qname: message::question_of(m.queries[0]).name, key },
            ),
            None => None,
        },
    }
}

/// Lazy structured message.
#[derive(Debug)]
pub enum Lazy {
    Bytes(Vec<u8>),
    Msg(DnsMessage),
}

/// What a [`Lazy`] says.
pub enum LazyView {
    Bytes(Seq<u8>),
    Msg(MessageView),
}

impl View for Lazy {
    type V = LazyView;

    open spec fn view(&self) -> LazyView {
        match self {
            Lazy::Bytes(b) => LazyView::Bytes(b@),
            Lazy::Msg(m) => LazyView::Msg(m@),
        }
    }
}

/// The whole message behind a query.
pub open spec fn message_in(lazy: LazyView) -> Option<MessageView> {
    match lazy {
        LazyView::Msg(m) => Some(m),
        LazyView::Bytes(b) => match message::wire_message(b) {
            Ok(m) => Some(m),
            Err(_) => None,
        },
    }
}

/// Where the whole message of a query comes from.
pub open spec fn source_of(ingress: IngressView) -> LazyView {
    match ingress {
        IngressView::Fast { bytes, .. } => LazyView::Bytes(bytes),
        IngressView::Full(m) => LazyView::Msg(m),
    }
}

impl Lazy {
    /// Materializes the full message.
    pub fn into_message(self) -> (r: Option<DnsMessage>)
        ensures
            match message_in(self@) {
                Some(v) => r matches Some(m) && m@ == v,
                None => r is None,
            },
    {
        match self {
            Lazy::Msg(m) => Some(m),
            Lazy::Bytes(b) => match read_message(b.as_slice()) {
                Ok(m) => Some(m),
                Err(_) => None,
            },
        }
    }
}

fn lowercase(s: &str) -> (r: String)
    ensures
        r@ == text::lowered(s@),
{
    let chars: Vec<char> = chars_of(s);
    string_of(lower_chars(chars.as_slice()).as_slice())
}

impl QueryFields {
    pub fn from_parsed(p: ParsedQuery) -> (r: QueryFields)
        ensures
            r@.id == p@.id,
            r@.qname == p@.qname,
            r@.key == (KeyView {
                name: text::lowered(p@.qname),
                rtype: p@.qtype as u16,
                class: p@.qclass as u16,
                dnssec_ok: p@.dnssec_ok,
                checking_disabled: p@.checking_disabled,
            }),
    {
        let name: String = lowercase(p.qname.as_str());
        QueryFields {
            id: p.id,
            qname_display: p.qname,
            key: QueryKey {
                name,
                rtype: p.qtype,
                class: p.qclass,
                dnssec_ok: p.dnssec_ok,
                checking_disabled: p.checking_disabled,
            },
        }
    }

    pub fn from_message(m: &DnsMessage) -> (r: Option<QueryFields>)
        ensures
            match fields_of(IngressView::Full(m@)) {
                Some(v) => r matches Some(f) && f@ == v,
                None => r is None,
            },
    {
        match QueryKey::from_message(m) {
            Some(key) => {
                let q: &hickory_proto::op::Query = &m.queries[0];
                let qname_display: String = show_name(&question_name(q));
                Some(QueryFields { id: m.id, qname_display, key })
            },
            None => None,
        }
    }
}

impl Ingress {
    /// Parses borrowed query bytes.
    pub fn parse(bytes: &[u8]) -> (r: Option<Ingress>)
        ensures
            match ingress_of(bytes@) {
                Some(v) => r matches Some(i) && i@ == v,
                None => r is None,
            },
    {
        let mut owned: Vec<u8> = Vec::new();
        owned.extend_from_slice(bytes);
        assert(owned@ =~= bytes@);
        Ingress::parse_owned(owned)
    }

    /// Parses and retains owned query bytes.
    pub fn parse_owned(bytes: Vec<u8>) -> (r: Option<Ingress>)
        ensures
            match ingress_of(bytes@) {
                Some(v) => r matches Some(i) && i@ == v,
                None => r is None,
            },
    {
        match parse_query(bytes.as_slice()) {
            Some(parsed) => Some(Ingress::Fast { bytes, parsed }),
            None => match read_message(bytes.as_slice()) {
                Ok(m) => Some(Ingress::Full(m)),
                Err(_) => None,
            },
        }
    }

    /// Returns the advertised UDP payload clamped to 512..=4096.
    pub fn udp_max_payload(&self) -> (r: usize)
        ensures
            r == udp_limit(self@),
    {
        let n: u16 = match self {
            Ingress::Fast { parsed, .. } => match parsed.edns_payload {
                Some(n) => n,
                None => 512,
            },
            Ingress::Full(m) => match &m.edns {
                Some(e) => edns_fields(e).max_payload,
                None => 512,
            },
        };
        let n: usize = n as usize;
        if n < MIN_UDP_PAYLOAD {
            MIN_UDP_PAYLOAD
        } else if n > MAX_UDP_REPLY {
            MAX_UDP_REPLY
        } else {
            n
        }
    }

    /// Splits hot-path fields from the lazy message source. A message without a
    /// question comes back as it is.
    pub fn into_parts(self) -> (r: Result<(QueryFields, Lazy), DnsMessage>)
        ensures
            match fields_of(self@) {
                Some(v) => r matches Ok(parts) && parts.0@ == v && parts.1@ == source_of(self@),
                None => r matches Err(m) && self@ == IngressView::Full(m@),
            },
    {
        match self {
            Ingress::Fast { bytes, parsed } => Ok(
                (QueryFields::from_parsed(parsed), Lazy::Bytes(bytes)),
            ),
            Ingress::Full(msg) => match QueryFields::from_message(&msg) {
                Some(fields) => Ok((fields, Lazy::Msg(msg))),
                None => Err(msg),
            },
        }
    }
}

/// Structured or pre-encoded engine response.
#[derive(Debug)]
pub enum EngineResponse {
    Message(DnsMessage),
    Wire(Vec<u8>),
}

/// What an [`EngineResponse`] says.
pub enum ResponseView {
    Message(MessageView),
    Wire(Seq<u8>),
}

impl View for EngineResponse {
    type V = ResponseView;

    open spec fn view(&self) -> ResponseView {
        match self {
            EngineResponse::Message(m) => ResponseView::Message(m@),
            EngineResponse::Wire(b) => ResponseView::Wire(b@),
        }
    }
}

/// The message of a response; an empty one where its bytes hold none.
pub open spec fn message_of(r: ResponseView) -> MessageView {
    match r {
        ResponseView::Message(m) => m,
        ResponseView::Wire(b) => cache::decoded(b),
    }
}

/// The bytes of a response, where it has any.
pub open spec fn bytes_of(r: ResponseView) -> Option<Seq<u8>> {
    match r {
        ResponseView::Message(m) => match message::message_wire(m) {
            Ok(b) => Some(b),
            Err(_) => None,
        },
        ResponseView::Wire(b) => Some(b),
    }
}

impl EngineResponse {
    /// Decodes a structured message.
    pub fn into_message(self) -> (r: DnsMessage)
        ensures
            r@ == message_of(self@),
    {
        match self {
            EngineResponse::Message(m) => m,
            EngineResponse::Wire(b) => decode_or_empty(b.as_slice()),
        }
    }

    /// Encodes wire bytes without a length limit.
    pub fn into_wire(self) -> (r: Option<Vec<u8>>)
        ensures
            match bytes_of(self@) {
                Some(v) => r matches Some(b) && b@ == v,
                None => r is None,
            },
    {
        match self {
            EngineResponse::Message(m) => match write_message(&m) {
                Ok(b) => Some(b),
                Err(_) => None,
            },
            EngineResponse::Wire(b) => Some(b),
        }
    }
}

/// A response cut to its header and questions, with the truncation bit.
pub open spec fn truncated(m: MessageView) -> MessageView {
    MessageView {
        truncation: true,
        recursion_available: m.recursion_available,
        recursion_desired: m.recursion_desired,
        response_code: m.response_code,
        queries: m.queries,
        ..message::bare(m.id, true, m.op_code)
    }
}

/// The bytes of a message; none where it has none.
pub open spec fn bytes_or_none(m: MessageView) -> Seq<u8> {
    match message::message_wire(m) {
        Ok(b) => b,
        Err(_) => Seq::empty(),
    }
}

/// The UDP form of a response: whole where it fits, or else truncated.
pub open spec fn udp_bytes(m: MessageView, max: usize) -> Seq<u8> {
    match message::message_wire(m) {
        Ok(b) => if b.len() <= max {
            b
        } else {
            bytes_or_none(truncated(m))
        },
        Err(_) => Seq::empty(),
    }
}

/// Encode a response for UDP, truncating (setting TC) if it exceeds `max`.
pub fn encode_udp(resp: &DnsMessage, max: usize) -> (r: Vec<u8>)
    ensures
        r@ == udp_bytes(resp@, max),
{
    match write_message(resp) {
        Ok(bytes) => {
            if bytes.len() <= max {
                return bytes;
            }
            let mut tc: DnsMessage = DnsMessage::new(resp.id, true, resp.op_code);
            tc.truncation = true;
            tc.recursion_available = resp.recursion_available;
            tc.recursion_desired = resp.recursion_desired;
            tc.response_code = resp.response_code;
            tc.queries = copy_questions(&resp.queries);
            assert(tc@ =~= truncated(resp@));
            match write_message(&tc) {
                Ok(b) => b,
                Err(_) => Vec::new(),
            }
        },
        Err(_) => Vec::new(),
    }
}

/// What is sent over UDP for a response. Nothing is sent where it is empty.
pub open spec fn udp_reply_of(r: ResponseView, max: usize) -> Seq<u8> {
    match r {
        ResponseView::Wire(b) => if b.len() <= max {
            b
        } else {
            udp_bytes(cache::decoded(b), max)
        },
        ResponseView::Message(m) => udp_bytes(m, max),
    }
}

/// The bytes to send over UDP: what is already encoded is sent as it is where it
/// fits, and is decoded only to be truncated.
pub fn udp_reply(resp: EngineResponse, max: usize) -> (r: Vec<u8>)
    ensures
        r@ == udp_reply_of(resp@, max),
{
    match resp {
        EngineResponse::Wire(b) => {
            if b.len() <= max {
                b
            } else {
                let m: DnsMessage = decode_or_empty(b.as_slice());
                encode_udp(&m, max)
            }
        },
        EngineResponse::Message(m) => encode_udp(&m, max),
    }
}

/// The bytes to send over TCP, behind their length; none where they cannot be sent
/// so.
pub open spec fn tcp_reply_of(r: ResponseView) -> Option<Seq<u8>> {
    match bytes_of(r) {
        None => None,
        Some(b) => if b.len() > u16::MAX {
            None
        } else {
            Some(transport::framed(b))
        },
    }
}

/// The bytes to send over TCP, behind their length; none where they cannot be
/// encoded or are too long for it.
pub fn tcp_reply(resp: EngineResponse) -> (r: Option<Vec<u8>>)
    ensures
        match tcp_reply_of(resp@) {
            Some(v) => r matches Some(b) && b@ == v,
            None => r is None,
        },
{
    match resp.into_wire() {
        None => None,
        Some(b) => {
            match frame(b.as_slice(), "response too large for TCP") {
                Ok(framed) => Some(framed),
                Err(_) => None,
            }
        },
    }
}

/// A UDP reply is never longer than the client takes, unless it had to be truncated:
/// a response that fits is sent whole, and of any other its header and questions.
pub proof fn law_udp_reply_fits(r: ResponseView, max: usize)
    ensures
        udp_reply_of(r, max).len() <= max || udp_reply_of(r, max) == bytes_or_none(
            truncated(message_of(r)),
        ),
        bytes_of(r) matches Some(b) ==> (b.len() <= max ==> udp_reply_of(r, max) == b),
{
}

} // verus!
