//! What all transports share: the identity of a question, the checks on a
//! response, framing, and the table of queries in flight on one connection.

use std::collections::HashMap;

use vstd::prelude::*;

use crate::engine::wire;
use crate::engine::wire::patch;
use crate::message;
use crate::message::{
    edns_fields, names_match, new_edns, question_class, question_name, question_type, read_message,
    show_name, write_message, DnsMessage, EdnsFields, EdnsView, MessageView,
};
use crate::text;
use crate::text::{chars_of, lower_chars, string_of};
use crate::upstream::error::{ErrorView, UpstreamError};

verus! {

/// Shared idle timeout for persistent upstream connections, in milliseconds.
pub const UPSTREAM_IDLE_TIMEOUT_MS: u64 = 30_000;

/// Maximum advertised EDNS UDP payload.
pub const MAX_UDP_PAYLOAD: u16 = 4096;

/// The identity of a DNS question, used as the cache & single-flight key.
#[derive(Debug, Clone)]
pub struct QueryKey {
    /// Lowercased, dot-terminated query name.
    pub name: String,
    pub rtype: u16,
    pub class: u16,
    /// EDNS DNSSEC-OK bit.
    pub dnssec_ok: bool,
    /// Header checking-disabled bit.
    pub checking_disabled: bool,
}

/// What a [`QueryKey`] says.
pub struct KeyView {
    pub name: Seq<char>,
    pub rtype: u16,
    pub class: u16,
    pub dnssec_ok: bool,
    pub checking_disabled: bool,
}

impl View for QueryKey {
    type V = KeyView;

    open spec fn view(&self) -> KeyView {
        KeyView {
            name: self.name@,
            rtype: self.rtype,
            class: self.class,
            dnssec_ok: self.dnssec_ok,
            checking_disabled: self.checking_disabled,
        }
    }
}

/// Whether a message has an EDNS record with the DNSSEC-OK bit.
pub open spec fn wants_dnssec(m: MessageView) -> bool {
    match m.edns {
        Some(e) => message::edns_of(e).dnssec_ok,
        None => false,
    }
}

/// The identity of a message's first question.
pub open spec fn key_of(m: MessageView) -> Option<KeyView> {
    if m.queries.len() == 0 {
        None
    } else {
        let q = message::question_of(m.queries[0]);
        Some(
            KeyView {
                name: text::lowered(q.name),
                rtype: q.rtype,
                class: q.class,
                dnssec_ok: wants_dnssec(m),
                checking_disabled: m.checking_disabled,
            },
        )
    }
}

impl QueryKey {
    /// Extract the key from the first question of a message.
    pub fn from_message(msg: &DnsMessage) -> (r: Option<QueryKey>)
        ensures
            match key_of(msg@) {
                Some(v) => r matches Some(key) && key@ == v,
                None => r is None,
            },
    {
        if msg.queries.len() == 0 {
            return None;
        }
        let q: &hickory_proto::op::Query = &msg.queries[0];
        let shown: String = show_name(&question_name(q));
        let chars: Vec<char> = chars_of(shown.as_str());
        let small: Vec<char> = lower_chars(chars.as_slice());
        Some(
            QueryKey {
                name: string_of(small.as_slice()),
                rtype: question_type(q),
                class: question_class(q),
                dnssec_ok: dnssec_ok(msg),
                checking_disabled: msg.checking_disabled,
            },
        )
    }

    /// An equal key.
    pub fn copied(&self) -> (r: QueryKey)
        ensures
            r@ == self@,
    {
        QueryKey {
            name: self.name.as_str().to_owned(),
            rtype: self.rtype,
            class: self.class,
            dnssec_ok: self.dnssec_ok,
            checking_disabled: self.checking_disabled,
        }
    }
}

/// Whether the message's EDNS OPT record has the DNSSEC-OK (DO) bit set.
pub fn dnssec_ok(msg: &DnsMessage) -> (r: bool)
    ensures
        r == wants_dnssec(msg@),
{
    match &msg.edns {
        Some(e) => edns_fields(e).dnssec_ok,
        None => false,
    }
}

/// Whether an EDNS record may be sent upstream as it is: it has no options and
/// advertises no more than the maximum payload.
pub open spec fn edns_is_plain(e: EdnsView) -> bool {
    e.options == 0 && e.max_payload <= MAX_UDP_PAYLOAD
}

/// An EDNS record as it is sent upstream: without options, with the payload
/// between 512 and the maximum.
pub open spec fn plain_edns(e: EdnsView) -> EdnsView {
    EdnsView {
        version: e.version,
        max_payload: if e.max_payload > MAX_UDP_PAYLOAD {
            MAX_UDP_PAYLOAD
        } else if e.max_payload < 512 {
            512
        } else {
            e.max_payload
        },
        dnssec_ok: e.dnssec_ok,
        options: 0,
    }
}

/// Drops unkeyed EDNS options and clamps the advertised payload.
pub fn normalize_upstream_edns(msg: &mut DnsMessage)
    ensures
        match old(msg)@.edns {
            Some(e) => if edns_is_plain(message::edns_of(e)) {
                final(msg)@ == old(msg)@
            } else {
                &&& final(msg)@ == (MessageView { edns: final(msg)@.edns, ..old(msg)@ })
                &&& final(msg)@.edns matches Some(clean) && message::edns_of(clean) == plain_edns(
                    message::edns_of(e),
                )
            },
            None => final(msg)@ == old(msg)@,
        },
{
    let fields: EdnsFields = match &msg.edns {
        Some(e) => edns_fields(e),
        None => {
            return ;
        },
    };
    if fields.options == 0 && fields.max_payload <= MAX_UDP_PAYLOAD {
        return ;
    }
    let payload: u16 = if fields.max_payload > MAX_UDP_PAYLOAD {
        MAX_UDP_PAYLOAD
    } else {
        fields.max_payload
    };
    msg.edns = Some(new_edns(fields.version, payload, fields.dnssec_ok));
}

/// What is sent upstream keeps the DNSSEC-OK bit, carries no option of the
/// client's, and is sent on unchanged where it is normalized already.
pub proof fn law_plain_edns(e: EdnsView)
    ensures
        plain_edns(e).dnssec_ok == e.dnssec_ok,
        plain_edns(e).options == 0,
        edns_is_plain(plain_edns(e)),
        plain_edns(plain_edns(e)) == plain_edns(e),
{
}

/// Encode a DNS message to wire format.
pub fn encode(msg: &DnsMessage) -> (r: Result<Vec<u8>, UpstreamError>)
    ensures
        match message::message_wire(msg@) {
            Ok(v) => r matches Ok(bytes) && bytes@ == v,
            Err(why) => r matches Err(e) && e@ == ErrorView::Proto(why),
        },
{
    match write_message(msg) {
        Ok(bytes) => Ok(bytes),
        Err(e) => Err(UpstreamError::Proto(e)),
    }
}

/// Decode a DNS message from wire format.
pub fn decode(bytes: &[u8]) -> (r: Result<DnsMessage, UpstreamError>)
    ensures
        match message::wire_message(bytes@) {
            Ok(v) => r matches Ok(m) && m@ == v,
            Err(why) => r matches Err(e) && e@ == ErrorView::Proto(why),
        },
{
    match read_message(bytes) {
        Ok(m) => Ok(m),
        Err(e) => Err(UpstreamError::Proto(e)),
    }
}

/// Whether a response answers a query: it has the query's id and, where it
/// repeats a question at all, asks for the same name, type and class first.
pub open spec fn answers_query(query: MessageView, response: MessageView) -> bool {
    &&& query.id == response.id
    &&& query.queries.len() > 0
    &&& response.queries.len() > 0 ==> {
        let q = message::question_of(query.queries[0]);
        let r = message::question_of(response.queries[0]);
        q.rtype == r.rtype && q.class == r.class && message::same_name(q.name, r.name)
    }
}

/// Checks a response id and first question against its query.
pub fn matches_query(query: &DnsMessage, response: &DnsMessage) -> (r: bool)
    ensures
        r == answers_query(query@, response@),
{
    if query.id != response.id || query.queries.len() == 0 {
        return false;
    }
    if response.queries.len() == 0 {
        return true;
    }
    let q: &hickory_proto::op::Query = &query.queries[0];
    let r: &hickory_proto::op::Query = &response.queries[0];
    question_type(q) == question_type(r) && question_class(q) == question_class(r) && names_match(
        &question_name(q),
        &question_name(r),
    )
}

/// What is made of a response that was routed by a connection's own id: under
/// the query's id again, or a protocol error where it answers something else.
pub open spec fn accepted(query: MessageView, response: MessageView, mismatch: Seq<char>) -> Result<
    MessageView,
    ErrorView,
> {
    let restored = MessageView { id: query.id, ..response };
    if answers_query(query, restored) {
        Ok(restored)
    } else {
        Err(ErrorView::Proto(mismatch))
    }
}

/// Restores the caller's id in a response that was routed by a connection's own
/// id, and checks the response against the question.
pub fn accept_response(query: &DnsMessage, response: DnsMessage, mismatch: &str) -> (r: Result<
    DnsMessage,
    UpstreamError,
>)
    ensures
        match accepted(query@, response@, mismatch@) {
            Ok(v) => r matches Ok(m) && m@ == v,
            Err(e) => r matches Err(err) && err@ == e,
        },
{
    let mut resp: DnsMessage = response;
    resp.id = query.id;
    if matches_query(query, &resp) {
        Ok(resp)
    } else {
        Err(UpstreamError::Proto(mismatch.to_owned()))
    }
}

/// A query as it goes out on a connection that numbers its queries itself.
pub fn encode_with_id(query: &DnsMessage, id: u16) -> (r: Result<Vec<u8>, UpstreamError>)
    ensures
        match message::message_wire(query@) {
            Ok(v) => r matches Ok(bytes) && bytes@ == wire::with_id(v, id),
            Err(why) => r matches Err(e) && e@ == ErrorView::Proto(why),
        },
{
    match encode(query) {
        Ok(bytes) => {
            let mut buf: Vec<u8> = bytes;
            let none: Vec<u32> = Vec::new();
            patch(buf.as_mut_slice(), id, 0, none.as_slice());
            Ok(buf)
        },
        Err(e) => Err(e),
    }
}

/// A message in a stream: its length in two bytes, most significant first, and
/// the message.
pub open spec fn framed(bytes: Seq<u8>) -> Seq<u8> {
    seq![(bytes.len() / 256) as u8, (bytes.len() % 256) as u8] + bytes
}

/// Frames an encoded message for a stream. A message that is too long for the
/// two bytes of its length is a protocol error.
pub fn frame(bytes: &[u8], too_large: &str) -> (r: Result<Vec<u8>, UpstreamError>)
    ensures
        if bytes@.len() <= u16::MAX {
            r matches Ok(out) && out@ == framed(bytes@)
        } else {
            r matches Err(e) && e@ == ErrorView::Proto(too_large@)
        },
{
    if bytes.len() > u16::MAX as usize {
        return Err(UpstreamError::Proto(too_large.to_owned()));
    }
    let mut out: Vec<u8> = Vec::new();
    out.push((bytes.len() / 256) as u8);
    out.push((bytes.len() % 256) as u8);
    out.extend_from_slice(bytes);
    assert(out@ =~= framed(bytes@));
    Ok(out)
}

/// The length that the two bytes before a message in a stream give.
pub fn frame_len(high: u8, low: u8) -> (r: usize)
    ensures
        r == high * 256 + low,
{
    high as usize * 256 + low as usize
}

/// The length before a framed message is the message's.
pub proof fn law_frame_length(bytes: Seq<u8>)
    requires
        bytes.len() <= u16::MAX,
    ensures
        framed(bytes).len() == bytes.len() + 2,
        framed(bytes)[0] * 256 + framed(bytes)[1] == bytes.len(),
        framed(bytes).skip(2) == bytes,
{
    assert(framed(bytes).skip(2) =~= bytes);
}

/// What is made of a stream of DNS-over-QUIC: a framed response, under the
/// query's id.
pub open spec fn doq_accepted(query: MessageView, data: Seq<u8>) -> Result<MessageView, ErrorView> {
    if data.len() < 2 {
        Err(ErrorView::Proto("short DoQ response"@))
    } else {
        match message::wire_message(data.skip(2)) {
            Ok(m) => accepted(query, m, "DoQ response does not match query"@),
            Err(why) => Err(ErrorView::Proto(why)),
        }
    }
}

/// Reads the response of a DNS-over-QUIC stream.
pub fn accept_doq(query: &DnsMessage, data: &[u8]) -> (r: Result<DnsMessage, UpstreamError>)
    ensures
        match doq_accepted(query@, data@) {
            Ok(v) => r matches Ok(m) && m@ == v,
            Err(e) => r matches Err(err) && err@ == e,
        },
{
    if data.len() < 2 {
        return Err(UpstreamError::Proto("short DoQ response".to_owned()));
    }
    let body: &[u8] = vstd::slice::slice_subrange(data, 2, data.len());
    assert(body@ =~= data@.skip(2));
    match decode(body) {
        Ok(m) => accept_response(query, m, "DoQ response does not match query"),
        Err(e) => Err(e),
    }
}

/// What is made of the body of a DNS-over-HTTPS response. The query went out
/// with the id 0, so the response has to come with it.
pub open spec fn doh_accepted(query: MessageView, body: Seq<u8>) -> Result<MessageView, ErrorView> {
    match message::wire_message(body) {
        Ok(m) => if answers_query(MessageView { id: 0, ..query }, m) {
            Ok(MessageView { id: query.id, ..m })
        } else {
            Err(ErrorView::Http("DoH response does not match query"@))
        },
        Err(why) => Err(ErrorView::Proto(why)),
    }
}

/// Reads the body of a DNS-over-HTTPS response. `sent` is the query as it was
/// sent, with the id 0.
pub fn accept_doh(sent: &DnsMessage, original_id: u16, body: &[u8]) -> (r: Result<
    DnsMessage,
    UpstreamError,
>)
    requires
        sent@.id == 0,
    ensures
        match doh_accepted((MessageView { id: original_id, ..sent@ }), body@) {
            Ok(v) => r matches Ok(m) && m@ == v,
            Err(e) => r matches Err(err) && err@ == e,
        },
{
    match decode(body) {
        Ok(m) => {
            let mut msg: DnsMessage = m;
            assert((MessageView { id: 0, ..(MessageView { id: original_id, ..sent@ }) }) == sent@);
            if !matches_query(sent, &msg) {
                return Err(UpstreamError::Http("DoH response does not match query".to_owned()));
            }
            msg.id = original_id;
            Ok(msg)
        },
        Err(e) => Err(e),
    }
}

/// What comes back to a caller is under the caller's id and answers the
/// caller's question, whichever transport it came by.
pub proof fn law_accepted_answers(query: MessageView, response: MessageView, bytes: Seq<u8>, why: Seq<char>)
    ensures
        accepted(query, response, why) matches Ok(m) ==> m.id == query.id && answers_query(query, m),
        doq_accepted(query, bytes) matches Ok(m) ==> m.id == query.id && answers_query(query, m),
        doh_accepted(query, bytes) matches Ok(m) ==> m.id == query.id && answers_query(query, m),
{
}

/// The queries in flight on one connection: which caller waits for the response
/// with which id, and whether the connection is still alive. Callers are known
/// by tickets.
pub struct PendingState {
    waiting: HashMap<u16, u64>,
    dead: bool,
    next_id: u16,
}

/// What a [`PendingState`] says.
#[verifier::ext_equal]
pub struct PendingView {
    pub waiting: Map<u16, u64>,
    pub dead: bool,
    pub next_id: u16,
}

impl View for PendingState {
    type V = PendingView;

    closed spec fn view(&self) -> PendingView {
        PendingView { waiting: self.waiting@, dead: self.dead, next_id: self.next_id }
    }
}

/// The id after `id`; the ids go round.
pub open spec fn id_after(id: u16) -> u16 {
    if id == u16::MAX {
        0
    } else {
        (id + 1) as u16
    }
}

/// A connection that a query goes out on, and the id it goes out under. A dead one takes
/// none.
pub open spec fn begun(p: PendingView, ticket: u64) -> (PendingView, Option<u16>) {
    if p.dead {
        (PendingView { next_id: id_after(p.next_id), ..p }, None)
    } else {
        (
            PendingView {
                waiting: p.waiting.insert(p.next_id, ticket),
                next_id: id_after(p.next_id),
                ..p
            },
            Some(p.next_id),
        )
    }
}

/// A connection that a response came on, and who waited for it.
pub open spec fn routed(p: PendingView, id: u16) -> (PendingView, Option<u64>) {
    (
        PendingView { waiting: p.waiting.remove(id), ..p },
        if p.waiting.dom().contains(id) {
            Some(p.waiting[id])
        } else {
            None
        },
    )
}

/// A connection that broke.
pub open spec fn broken(p: PendingView) -> PendingView {
    PendingView { waiting: Map::empty(), dead: true, ..p }
}

impl PendingState {
    /// Nobody waits on a dead connection.
    #[verifier::type_invariant]
    closed spec fn wf(self) -> bool {
        self.dead ==> self.waiting@.dom() =~= Set::<u16>::empty()
    }

    /// A fresh connection.
    pub fn new() -> (r: PendingState)
        ensures
            r@.waiting == Map::<u16, u64>::empty(),
            !r@.dead,
            r@.next_id == 0,
    {
        broadcast use vstd::std_specs::hash::group_hash_axioms;

        PendingState { waiting: HashMap::new(), dead: false, next_id: 0 }
    }

    pub fn is_dead(&self) -> (r: bool)
        ensures
            r == self@.dead,
    {
        self.dead
    }

    /// Starts a query: the result is the id it goes out under, and the response
    /// with that id is for `ticket`. A dead connection takes no query.
    pub fn begin(&mut self, ticket: u64) -> (r: Option<u16>)
        ensures
            (final(self)@, r) == begun(old(self)@, ticket),
    {
        broadcast use vstd::std_specs::hash::group_hash_axioms;

        proof {
            use_type_invariant(&*self);
        }
        let id: u16 = self.next_id;
        self.next_id = if id == u16::MAX {
            0
        } else {
            id + 1
        };
        if self.dead {
            return None;
        }
        let mut waiting: HashMap<u16, u64> = HashMap::new();
        std::mem::swap(&mut waiting, &mut self.waiting);
        waiting.insert(id, ticket);
        self.waiting = waiting;
        Some(id)
    }

    /// Hands out the ticket that waits for the response with this id, if any.
    pub fn route(&mut self, id: u16) -> (r: Option<u64>)
        ensures
            (final(self)@, r) == routed(old(self)@, id),
    {
        broadcast use vstd::std_specs::hash::group_hash_axioms;

        proof {
            use_type_invariant(&*self);
        }
        let mut waiting: HashMap<u16, u64> = HashMap::new();
        std::mem::swap(&mut waiting, &mut self.waiting);
        let ticket: Option<u64> = waiting.remove(&id);
        self.waiting = waiting;
        ticket
    }

    /// Removes a cancelled in-flight query.
    pub fn cancel(&mut self, id: u16)
        ensures
            final(self)@ == routed(old(self)@, id).0,
    {
        let _ = self.route(id);
    }

    /// Nothing arrived for the length of the idle timeout: the connection is
    /// closed where nobody waits on it. The result says whether it was.
    pub fn idle(&mut self) -> (r: bool)
        ensures
            r == (old(self)@.waiting.dom() =~= Set::<u16>::empty()),
            final(self)@ == (PendingView { dead: r || old(self)@.dead, ..old(self)@ }),
    {
        broadcast use vstd::std_specs::hash::group_hash_axioms;

        proof {
            use_type_invariant(&*self);
        }
        if self.waiting.is_empty() {
            assert(self.waiting@.dom() =~= Set::<u16>::empty());
            self.dead = true;
            true
        } else {
            false
        }
    }

    /// The connection broke: it is dead, and everybody who waited wakes with an
    /// error.
    pub fn close(&mut self)
        ensures
            final(self)@ == broken(old(self)@),
    {
        broadcast use vstd::std_specs::hash::group_hash_axioms;

        self.waiting = HashMap::new();
        self.dead = true;
    }
}

} // verus!
