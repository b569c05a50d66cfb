//! The way of a query: filter, cache, upstream, filter again, log.
//!
//! The caller performs what a step asks for (a lookup at an upstream, a background
//! refresh) and hands the outcome to the next step.

use std::hash::DefaultHasher;

use vstd::prelude::*;
use vstd::std_specs::hash::DefaultHasherAdditionalSpecFns;

use crate::config::settings::BlockingMode;
use crate::engine::block;
use crate::engine::block::{block_response, error_response, formerr, rewrite_response, Rewritten};
use crate::engine::cache;
use crate::engine::cache::{
    summarize_answers, CacheCounters, CacheHit, CacheView, CachedResponse, CachedView, DnsCache,
    HitFreshness, HitView, InsertedWire,
};
use crate::engine::clients;
use crate::engine::clients::{ClientMatcher, ResolvedClient, ResolvedClientView};
use crate::engine::ingress;
use crate::engine::ingress::{
    rcode_label, rtype_label, EngineResponse, FieldsView, Ingress, IngressView, Lazy, LazyView,
    QueryFields, ResponseView,
};
use crate::engine::lru_store::{
    copy_match, Outcome, ResponseVerdict, ResponseVerdictView, StoredView,
};
use crate::engine::querylog;
use crate::engine::querylog::{ActionView, QueryAction, QueryLogEntry};
use crate::filter::engine as filter;
use crate::filter::engine::{FilterEngine, MatchInfo, MatchView, Verdict, VerdictView};
use crate::filter::laws;
use crate::filter::rule::{BuildView, ClientInfo, ClientView, RewriteView};
use crate::message;
use crate::message::{
    read_data, read_hints, Data, DataView, DnsMessage, MessageView, Record, SERV_FAIL,
};
use crate::net;
use crate::net::{IpAddr, Ipv4Addr, Ipv6Addr};
use crate::text;
use crate::text::{chars_of, string_of, trim_end_char};
use crate::upstream::error::UpstreamError;
use crate::upstream::failover;
use crate::upstream::failover::{query_for, random_id, Resolved, ResolvedView};
use crate::upstream::transport::{KeyView, QueryKey};

verus! {

/// The hot-swappable part of the engine's configuration.
pub struct EngineState {
    pub filter: FilterEngine,
    pub clients: ClientMatcher,
    pub filtering_enabled: bool,
    pub blocking_mode: BlockingMode,
    pub block_v4: Ipv4Addr,
    pub block_v6: Ipv6Addr,
    pub blocked_ttl: u32,
}

/// What the filter says about a name for a client.
pub open spec fn judge(
    rules: Seq<BuildView>,
    name: Seq<char>,
    rtype: Seq<char>,
    client: ClientView,
) -> VerdictView {
    filter::verdict_of(rules, filter::deciding(rules, filter::query_name(name), rtype, client))
}

/// The rule that blocks, if a verdict is a block.
pub open spec fn block_in(v: VerdictView) -> Option<MatchView> {
    match v {
        VerdictView::Block(info) => Some(info),
        _ => None,
    }
}

/// A client as the filter sees it.
pub open spec fn filter_client(c: ResolvedClientView) -> ClientView {
    ClientView { ip: Some(c.ip), name: c.name, tags: c.tags }
}

/// The rule that blocks the first blocked address of a list.
pub open spec fn addresses_block(
    rules: Seq<BuildView>,
    client: ClientView,
    ips: Seq<IpAddr>,
) -> Option<MatchView>
    decreases ips.len(),
{
    if ips.len() == 0 {
        None
    } else {
        match block_in(judge(rules, net::ip_text(ips[0]), "HTTPS"@, client)) {
            Some(info) => Some(info),
            None => addresses_block(rules, client, ips.drop_first()),
        }
    }
}

/// The rule that blocks the first blocked address hint, parameter by parameter.
pub open spec fn hints_block(
    rules: Seq<BuildView>,
    client: ClientView,
    hints: Seq<Seq<IpAddr>>,
) -> Option<MatchView>
    decreases hints.len(),
{
    if hints.len() == 0 {
        None
    } else {
        match addresses_block(rules, client, hints[0]) {
            Some(info) => Some(info),
            None => hints_block(rules, client, hints.drop_first()),
        }
    }
}

/// The rule that blocks what a record says: the target of an alias, an address, or
/// an address hint.
pub open spec fn record_block(rules: Seq<BuildView>, client: ClientView, data: DataView) -> Option<
    MatchView,
> {
    match data {
        DataView::Cname(target) => block_in(
            judge(rules, text::strip_end(target, '.'), "CNAME"@, client),
        ),
        DataView::A(ip) => block_in(judge(rules, net::ip_text(IpAddr::V4(ip)), "A"@, client)),
        DataView::Aaaa(ip) => block_in(
            judge(rules, net::ip_text(IpAddr::V6(ip)), "AAAA"@, client),
        ),
        DataView::Service(hints) => hints_block(rules, client, hints),
        _ => None,
    }
}

/// The rule that blocks the first blocked answer.
pub open spec fn answers_block(
    rules: Seq<BuildView>,
    client: ClientView,
    answers: Seq<Record>,
) -> Option<MatchView>
    decreases answers.len(),
{
    if answers.len() == 0 {
        None
    } else {
        match record_block(rules, client, answers[0]@.data) {
            Some(info) => Some(info),
            None => answers_block(rules, client, answers.drop_first()),
        }
    }
}

pub open spec fn match_in(m: Option<MatchInfo>) -> Option<MatchView> {
    match m {
        Some(info) => Some(info@),
        None => None,
    }
}

fn block_of(v: Verdict) -> (r: Option<MatchInfo>)
    ensures
        match_in(r) == block_in(v@),
{
    match v {
        Verdict::Block(info) => Some(info),
        _ => None,
    }
}

/// Checks address hints against the filter.
fn hint_block(filter: &FilterEngine, ci: &ClientInfo<'_>, hints: &Vec<Vec<IpAddr>>) -> (r: Option<
    MatchInfo,
>)
    ensures
        match_in(r) == hints_block(filter@, ci@, message::address_lists(hints@)),
{
    let ghost all = message::address_lists(hints@);
    let mut i: usize = 0;
    assert(all.skip(0) =~= all);
    while i < hints.len()
        invariant
            i <= hints@.len(),
            all == message::address_lists(hints@),
            hints_block(filter@, ci@, all) == hints_block(filter@, ci@, all.skip(i as int)),
        decreases hints@.len() - i,
    {
        let list: &Vec<IpAddr> = &hints[i];
        proof {
            assert(all.skip(i as int)[0] == list@);
            assert(all.skip(i as int).drop_first() =~= all.skip(i + 1));
        }
        let mut j: usize = 0;
        assert(list@.skip(0) =~= list@);
        while j < list.len()
            invariant
                j <= list@.len(),
                addresses_block(filter@, ci@, list@) == addresses_block(
                    filter@,
                    ci@,
                    list@.skip(j as int),
                ),
                all.skip(i as int).len() > 0,
                all.skip(i as int)[0] == list@,
                hints_block(filter@, ci@, all) == hints_block(filter@, ci@, all.skip(i as int)),
                all == message::address_lists(hints@),
            decreases list@.len() - j,
        {
            proof {
                assert(list@.skip(j as int)[0] == list@[j as int]);
                assert(list@.skip(j as int).drop_first() =~= list@.skip(j + 1));
            }
            let shown: String = list[j].text();
            let found: Option<MatchInfo> = block_of(filter.check(shown.as_str(), "HTTPS", ci));
            if found.is_some() {
                return found;
            }
            j = j + 1;
        }
        i = i + 1;
    }
    None
}

/// What the filter says about the data of one record.
fn check_record(filter: &FilterEngine, ci: &ClientInfo<'_>, rec: &Record) -> (r: Option<MatchInfo>)
    ensures
        match_in(r) == record_block(filter@, ci@, rec@.data),
{
    match read_data(&rec.data) {
        Data::Cname(target) => {
            let chars: Vec<char> = chars_of(target.as_str());
            let name: String = string_of(trim_end_char(chars.as_slice(), '.'));
            block_of(filter.check(name.as_str(), "CNAME", ci))
        },
        Data::A(ip) => {
            let shown: String = IpAddr::V4(ip).text();
            block_of(filter.check(shown.as_str(), "A", ci))
        },
        Data::Aaaa(ip) => {
            let shown: String = IpAddr::V6(ip).text();
            block_of(filter.check(shown.as_str(), "AAAA", ci))
        },
        Data::Service => {
            let hints: Vec<Vec<IpAddr>> = read_hints(&rec.data);
            hint_block(filter, ci, &hints)
        },
        _ => None,
    }
}

/// Checks the answers of a response against the filter.
pub fn filter_answers(filter: &FilterEngine, client: &ResolvedClient, answers: &Vec<Record>) -> (r:
    Option<MatchInfo>)
    ensures
        match_in(r) == answers_block(filter@, filter_client(client@), answers@),
{
    let ci = client_info(client);
    let mut i: usize = 0;
    assert(answers@.skip(0) =~= answers@);
    while i < answers.len()
        invariant
            i <= answers@.len(),
            ci@ == filter_client(client@),
            answers_block(filter@, ci@, answers@) == answers_block(
                filter@,
                ci@,
                answers@.skip(i as int),
            ),
        decreases answers@.len() - i,
    {
        proof {
            assert(answers@.skip(i as int)[0] == answers@[i as int]);
            assert(answers@.skip(i as int).drop_first() =~= answers@.skip(i + 1));
        }
        let found: Option<MatchInfo> = check_record(filter, &ci, &answers[i]);
        if found.is_some() {
            return found;
        }
        i = i + 1;
    }
    None
}

fn client_info<'a>(client: &'a ResolvedClient) -> (r: ClientInfo<'a>)
    ensures
        r@ == filter_client(client@),
{
    ClientInfo {
        ip: Some(client.ip),
        name: match &client.name {
            Some(n) => Some(n.as_str()),
            None => None,
        },
        tags: client.tags.as_slice(),
    }
}

/// Query-log fields accumulated during processing.
#[derive(Debug)]
pub struct LogBuilder {
    pub client_ip: IpAddr,
    pub question: String,
    pub qtype: String,
    pub allowlisted: bool,
    /// Answering upstream's round-trip time, in microseconds.
    pub upstream_rtt_us: Option<u64>,
}

/// What a [`LogBuilder`] says.
pub struct LogView {
    pub client_ip: IpAddr,
    pub question: Seq<char>,
    pub qtype: Seq<char>,
    pub allowlisted: bool,
    pub upstream_rtt_us: Option<u64>,
}

impl View for LogBuilder {
    type V = LogView;

    open spec fn view(&self) -> LogView {
        LogView {
            client_ip: self.client_ip,
            question: self.question@,
            qtype: self.qtype@,
            allowlisted: self.allowlisted,
            upstream_rtt_us: self.upstream_rtt_us,
        }
    }
}

/// A query that has been answered: the response, and what is to be recorded of it.
#[derive(Debug)]
pub struct Finished {
    pub response: EngineResponse,
    pub rcode: u16,
    /// Answer summaries that came with an encoded response.
    pub answers: Option<Vec<String>>,
    pub action: QueryAction,
    pub log: LogBuilder,
}

/// What a [`Finished`] says.
pub struct FinishedView {
    pub response: ResponseView,
    pub rcode: u16,
    pub answers: Option<Seq<Seq<char>>>,
    pub action: ActionView,
    pub log: LogView,
}

impl View for Finished {
    type V = FinishedView;

    open spec fn view(&self) -> FinishedView {
        FinishedView {
            response: self.response@,
            rcode: self.rcode,
            answers: match self.answers {
                Some(v) => Some(text::texts(v@)),
                None => None,
            },
            action: self.action@,
            log: self.log@,
        }
    }
}

/// A query that was answered with a message.
pub open spec fn answered(m: MessageView, action: ActionView, log: LogView) -> FinishedView {
    FinishedView {
        response: ResponseView::Message(m),
        rcode: m.response_code,
        answers: None,
        action,
        log,
    }
}

/// A query that was answered with bytes.
pub open spec fn answered_wire(
    bytes: Seq<u8>,
    rcode: u16,
    answers: Seq<Seq<char>>,
    action: ActionView,
    log: LogView,
) -> FinishedView {
    FinishedView {
        response: ResponseView::Wire(bytes),
        rcode,
        answers: Some(answers),
        action,
        log,
    }
}

/// A query whose message cannot be read after all.
pub open spec fn unreadable(id: u16, log: LogView) -> FinishedView {
    answered(
        MessageView {
            response_code: message::FORM_ERR,
            ..message::bare(id, true, message::OP_QUERY)
        },
        ActionView::Error,
        log,
    )
}

/// A query that was blocked by a rule, as the current settings say.
pub open spec fn is_blocked(
    f: FinishedView,
    state: EngineState,
    query: MessageView,
    info: MatchView,
    log: LogView,
) -> bool {
    let (code, answers, authorities) = block::blocked_parts(
        query,
        state.blocking_mode,
        state.block_v4,
        state.block_v6,
        state.blocked_ttl,
    );
    f.response matches ResponseView::Message(m) && block::is_response(
        m,
        query,
        code,
        answers,
        authorities,
    ) && f == answered(m, ActionView::Blocked(info.rule, info.list_id), log)
}

/// A message that answers a query as a rewrite rule says.
pub open spec fn is_rewritten(
    m: MessageView,
    state: EngineState,
    query: MessageView,
    data: RewriteView,
) -> bool {
    block::is_response(
        m,
        query,
        block::rewritten_code(data),
        block::rewritten_answers(query, data, state.blocked_ttl),
        Seq::empty(),
    )
}

/// Records and returns a structured response.
fn finalize(resp: DnsMessage, action: QueryAction, log: LogBuilder) -> (r: Finished)
    ensures
        r@ == answered(resp@, action@, log@),
{
    Finished {
        rcode: resp.response_code,
        response: EngineResponse::Message(resp),
        answers: None,
        action,
        log,
    }
}

/// Records and returns an encoded response.
fn finalize_wire(
    bytes: Vec<u8>,
    rcode: u16,
    answers: Vec<String>,
    action: QueryAction,
    log: LogBuilder,
) -> (r: Finished)
    ensures
        r@ == answered_wire(bytes@, rcode, text::texts(answers@), action@, log@),
{
    Finished { response: EngineResponse::Wire(bytes), rcode, answers: Some(answers), action, log }
}

/// Answers a query that a rule blocks.
fn finish_blocked(state: &EngineState, query: &DnsMessage, info: MatchInfo, log: LogBuilder) -> (r:
    Finished)
    ensures
        is_blocked(r@, *state, query@, info@, log@),
{
    let resp: DnsMessage = block_response(
        query,
        state.blocking_mode,
        state.block_v4,
        state.block_v6,
        state.blocked_ttl,
    );
    finalize(resp, QueryAction::Blocked { rule: info.rule, list_id: info.list_id }, log)
}

/// A query that passed the filter.
#[derive(Debug)]
pub struct Pending {
    pub id: u16,
    pub key: QueryKey,
    pub client: ResolvedClient,
    pub lazy: Lazy,
    pub log: LogBuilder,
}

/// What a [`Pending`] says.
pub struct PendingView {
    pub id: u16,
    pub key: KeyView,
    pub client: ResolvedClientView,
    pub lazy: LazyView,
    pub log: LogView,
}

impl View for Pending {
    type V = PendingView;

    open spec fn view(&self) -> PendingView {
        PendingView {
            id: self.id,
            key: self.key@,
            client: self.client@,
            lazy: self.lazy@,
            log: self.log@,
        }
    }
}

/// A rewritten response that still needs the addresses of an alias.
#[derive(Debug)]
pub struct AliasWork {
    pub message: DnsMessage,
    /// The query to resolve.
    pub query: DnsMessage,
    pub action: QueryAction,
    pub log: LogBuilder,
}

/// What becomes of a query first.
#[derive(Debug)]
pub enum Start {
    /// A message without a question: the error to answer it with. Nothing is
    /// recorded.
    Malformed(DnsMessage),
    Done(Finished),
    /// The target of a rewrite is to be resolved.
    Alias(AliasWork),
    /// The cache is to be consulted.
    Lookup(Pending),
}

/// Whether queries of a client are filtered.
pub open spec fn filters(state: EngineState, client: ResolvedClientView) -> bool {
    state.filtering_enabled && client.filtering_enabled
}

/// What is logged of a query at first.
pub open spec fn log_of(fields: FieldsView, ip: IpAddr) -> LogView {
    LogView {
        client_ip: ip,
        question: fields.qname,
        qtype: ingress::rtype_name(fields.key.rtype),
        allowlisted: false,
        upstream_rtt_us: None,
    }
}

/// What the filter says about a query.
pub open spec fn query_verdict(
    state: EngineState,
    client: ResolvedClientView,
    fields: FieldsView,
) -> VerdictView {
    judge(
        state.filter@,
        text::strip_end(fields.key.name, '.'),
        ingress::rtype_name(fields.key.rtype),
        filter_client(client),
    )
}

/// What is known of a query after it passed the filter.
pub open spec fn passed(
    fields: FieldsView,
    client: ResolvedClientView,
    lazy: LazyView,
    allowlisted: bool,
) -> PendingView {
    PendingView {
        id: fields.id,
        key: fields.key,
        client,
        lazy,
        log: LogView { allowlisted, ..log_of(fields, client.ip) },
    }
}

/// What becomes of a query that is rewritten.
pub open spec fn starts_rewritten(
    r: Start,
    state: EngineState,
    query: MessageView,
    info: MatchView,
    data: RewriteView,
    rtype: u16,
    log: LogView,
) -> bool {
    let action = ActionView::Rewritten(info.rule, info.list_id);
    match block::unresolved_alias(query, data) {
        None => r matches Start::Done(f) && f@.response matches ResponseView::Message(m)
            && is_rewritten(m, state, query, data) && f@ == answered(m, action, log),
        Some(alias) => r matches Start::Alias(work) && is_rewritten(
            work.message@,
            state,
            query,
            data,
        ) && failover::is_query_for(work.query@, work.query@.id, alias, rtype) && work.action@
            == action && work.log@ == log,
    }
}

/// What becomes of a query first: a blocked or rewritten name is answered, any
/// other goes on to the cache.
pub open spec fn starts(
    r: Start,
    state: EngineState,
    client: ResolvedClientView,
    fields: FieldsView,
    lazy: LazyView,
) -> bool {
    let log = log_of(fields, client.ip);
    if !filters(state, client) {
        r matches Start::Lookup(p) && p@ == passed(fields, client, lazy, false)
    } else {
        match query_verdict(state, client, fields) {
            VerdictView::Allow(rule) => r matches Start::Lookup(p) && p@ == passed(
                fields,
                client,
                lazy,
                rule is Some,
            ),
            VerdictView::Block(info) => match ingress::message_in(lazy) {
                None => r matches Start::Done(f) && f@ == unreadable(fields.id, log),
                Some(query) => r matches Start::Done(f) && is_blocked(f@, state, query, info, log),
            },
            VerdictView::Rewrite(info, data) => match ingress::message_in(lazy) {
                None => r matches Start::Done(f) && f@ == unreadable(fields.id, log),
                Some(query) => starts_rewritten(
                    r,
                    state,
                    query,
                    info,
                    data,
                    fields.key.rtype,
                    log,
                ),
            },
        }
    }
}

/// Filters a query by its name.
pub fn start(state: &EngineState, query: Ingress, client_ip: IpAddr) -> (r: Start)
    ensures
        match ingress::fields_of(query@) {
            None => query@ matches IngressView::Full(m) && r matches Start::Malformed(resp)
                && resp@ == (MessageView { response_code: message::FORM_ERR, ..block::shell(m) }),
            Some(fields) => starts(
                r,
                *state,
                clients::resolved(state.clients@, client_ip),
                fields,
                ingress::source_of(query@),
            ),
        },
{
    let client: ResolvedClient = state.clients.identify(client_ip);
    let (fields, lazy): (QueryFields, Lazy) = match query.into_parts() {
        Ok(parts) => parts,
        Err(msg) => {
            return Start::Malformed(error_response(&msg, message::FORM_ERR));
        },
    };
    let rtype: u16 = fields.key.rtype;
    let qtype: String = rtype_label(rtype);
    let mut log = LogBuilder {
        client_ip: client.ip,
        question: fields.qname_display,
        qtype: qtype.as_str().to_owned(),
        allowlisted: false,
        upstream_rtt_us: None,
    };
    if state.filtering_enabled && client.filtering_enabled {
        let chars: Vec<char> = chars_of(fields.key.name.as_str());
        let domain: String = string_of(trim_end_char(chars.as_slice(), '.'));
        let verdict: Verdict = {
            let ci: ClientInfo<'_> = client_info(&client);
            state.filter.check(domain.as_str(), qtype.as_str(), &ci)
        };
        match verdict {
            Verdict::Block(info) => {
                return match lazy.into_message() {
                    None => Start::Done(finalize(formerr(fields.id), QueryAction::Error, log)),
                    Some(msg) => Start::Done(finish_blocked(state, &msg, info, log)),
                };
            },
            Verdict::Rewrite { info, data } => {
                let msg: DnsMessage = match lazy.into_message() {
                    None => {
                        return Start::Done(finalize(formerr(fields.id), QueryAction::Error, log));
                    },
                    Some(m) => m,
                };
                let action = QueryAction::Rewritten { rule: info.rule, list_id: info.list_id };
                return match rewrite_response(&msg, &data, state.blocked_ttl) {
                    Rewritten::Done(m) => Start::Done(finalize(m, action, log)),
                    Rewritten::ResolveCname { message, target } => Start::Alias(
                        AliasWork {
                            message,
                            query: query_for(random_id(), target, rtype),
                            action,
                            log,
                        },
                    ),
                };
            },
            Verdict::Allow { rule } => {
                log.allowlisted = rule.is_some();
            },
        }
    }
    Start::Lookup(Pending { id: fields.id, key: fields.key, client, lazy, log })
}

/// A rewritten response with what its alias resolved to, if it did.
pub open spec fn with_alias(m: MessageView, found: Option<Seq<Record>>) -> MessageView {
    match found {
        Some(more) => MessageView { answers: m.answers + more, ..m },
        None => m,
    }
}

/// Appends the addresses of an alias to a rewritten response, where they could be
/// resolved.
pub fn finish_alias(work: AliasWork, reply: Result<Resolved, UpstreamError>) -> (r: Finished)
    ensures
        r@ == answered(
            with_alias(
                work.message@,
                match reply {
                    Ok(resolved) => Some(resolved.message@.answers),
                    Err(_) => None,
                },
            ),
            work.action@,
            work.log@,
        ),
{
    let mut message: DnsMessage = work.message;
    if let Ok(resolved) = reply {
        let mut more: Vec<Record> = resolved.message.answers;
        let ghost before = message@;
        let ghost added = more@;
        message.answers.append(&mut more);
        assert(message@.answers =~= before.answers + added);
    }
    finalize(message, work.action, work.log)
}

/// A stale entry that is to be resolved again in the background.
#[derive(Debug)]
pub struct Refresh {
    pub lazy: Lazy,
    pub key: QueryKey,
    /// Whether a filter verdict is cached with the answer.
    pub keep_verdict: bool,
}

/// What a [`Refresh`] says.
pub struct RefreshView {
    pub lazy: LazyView,
    pub key: KeyView,
    pub keep_verdict: bool,
}

impl View for Refresh {
    type V = RefreshView;

    open spec fn view(&self) -> RefreshView {
        RefreshView { lazy: self.lazy@, key: self.key@, keep_verdict: self.keep_verdict }
    }
}

pub open spec fn refresh_in(r: Option<Refresh>) -> Option<RefreshView> {
    match r {
        Some(x) => Some(x@),
        None => None,
    }
}

/// What the cache makes of a query.
#[derive(Debug)]
pub enum Consulted {
    Hit(Finished, Option<Refresh>),
    Miss(Pending),
}

/// The generation of the rules in force.
pub open spec fn generation_of(rules: Seq<BuildView>) -> u64 {
    DefaultHasher::spec_finish(filter::hashed(rules))
}

/// Whether the verdict on an answer holds for every client, and is worth caching.
pub open spec fn keeps_verdicts(state: EngineState) -> bool {
    state.filtering_enabled && !filter::any_client_dependent(state.filter@)
}

/// The rule that blocks a cached answer for a client. A cached verdict counts only
/// where no rule looks at the client and it was reached by the rules in force;
/// otherwise the answers are filtered again.
pub open spec fn hit_block(state: EngineState, client: ResolvedClientView, hit: HitView) -> Option<
    MatchView,
> {
    if !filters(state, client) {
        None
    } else if hit.verdict matches Some(v) && !filter::any_client_dependent(state.filter@)
        && v.generation == generation_of(state.filter@) {
        (hit.verdict->0).block
    } else {
        answers_block(state.filter@, filter_client(client), cache::answers_in(hit.response))
    }
}

/// A query that is answered from the cache.
pub open spec fn from_cache(response: CachedView, log: LogView) -> FinishedView {
    match response {
        CachedView::Wire { bytes, rcode, answers } => answered_wire(
            bytes,
            rcode,
            answers,
            ActionView::Cached,
            log,
        ),
        CachedView::Message(m) => answered(m, ActionView::Cached, log),
    }
}

/// A refresh that is due where an entry is stale.
pub open spec fn due(
    hit: HitView,
    lazy: LazyView,
    key: KeyView,
    keep_verdict: bool,
) -> Option<RefreshView> {
    if hit.freshness == HitFreshness::Stale {
        Some(RefreshView { lazy, key, keep_verdict })
    } else {
        None
    }
}

/// What the cache makes of a query that it has an answer for.
pub open spec fn hits(
    f: FinishedView,
    refresh: Option<RefreshView>,
    state: EngineState,
    p: PendingView,
    hit: HitView,
) -> bool {
    match hit_block(state, p.client, hit) {
        Some(info) => match ingress::message_in(p.lazy) {
            None => f == unreadable(p.id, p.log) && refresh is None,
            Some(query) => is_blocked(f, state, query, info, p.log) && refresh == due(
                hit,
                LazyView::Msg(query),
                p.key,
                keeps_verdicts(state),
            ),
        },
        None => f == from_cache(hit.response, p.log) && refresh == due(
            hit,
            p.lazy,
            p.key,
            keeps_verdicts(state),
        ),
    }
}

/// A cache that counts a background refresh.
pub open spec fn refreshing(c: CacheView) -> CacheView {
    CacheView {
        counts: CacheCounters { refreshes: cache::tick(c.counts.refreshes), ..c.counts },
        ..c
    }
}

/// Looks a query up in the cache. An answer from the cache is filtered, and a stale
/// one is to be refreshed.
pub fn consult(state: &EngineState, pending: Pending, cache: &mut DnsCache, now: u64) -> (r:
    Consulted)
    ensures
        match cache::hit_of(old(cache)@, pending@.key, pending@.id, now) {
            None => r matches Consulted::Miss(p) && p@ == pending@ && final(cache)@
                == cache::after_get(old(cache)@, pending@.key, now),
            Some(hit) => r matches Consulted::Hit(f, refresh) && hits(
                f@,
                refresh_in(refresh),
                *state,
                pending@,
                hit,
            ) && final(cache)@ == if refresh is Some {
                refreshing(cache::after_get(old(cache)@, pending@.key, now))
            } else {
                cache::after_get(old(cache)@, pending@.key, now)
            },
        },
{
    let hit: CacheHit = match cache.get(&pending.key, pending.id, now) {
        Some(h) => h,
        None => {
            return Consulted::Miss(pending);
        },
    };
    // Raw cached answers require a trusted or recomputed filter verdict.
    let client_dependent: bool = state.filter.has_client_dependent_rules();
    let blocked: Option<MatchInfo> = if state.filtering_enabled
        && pending.client.filtering_enabled {
        let live: u64 = state.filter.content_hash();
        match &hit.verdict {
            Some(v) if !client_dependent && v.generation == live => match &v.outcome {
                Outcome::Clean => None,
                Outcome::Block(info) => Some(copy_match(info)),
            },
            _ => {
                let answers: Vec<Record> = hit.response.cached_answers();
                filter_answers(&state.filter, &pending.client, &answers)
            },
        }
    } else {
        None
    };
    let keep_verdict: bool = state.filtering_enabled && !client_dependent;
    let stale: bool = hit.freshness.requires_refresh();
    assert(match_in(blocked) == hit_block(*state, pending@.client, hit@));
    match blocked {
        Some(info) => {
            // Synthesize blocks from current settings, not cached settings.
            let query: DnsMessage = match pending.lazy.into_message() {
                None => {
                    return Consulted::Hit(
                        finalize(formerr(pending.id), QueryAction::Error, pending.log),
                        None,
                    );
                },
                Some(m) => m,
            };
            let done: Finished = finish_blocked(state, &query, info, pending.log);
            if stale {
                cache.note_refresh_started();
                Consulted::Hit(
                    done,
                    Some(Refresh { lazy: Lazy::Msg(query), key: pending.key, keep_verdict }),
                )
            } else {
                Consulted::Hit(done, None)
            }
        },
        None => {
            let done: Finished = match hit.response {
                CachedResponse::Wire { bytes, rcode, answers } => finalize_wire(
                    bytes,
                    rcode,
                    answers,
                    QueryAction::Cached,
                    pending.log,
                ),
                CachedResponse::Message(m) => finalize(m, QueryAction::Cached, pending.log),
            };
            if stale {
                cache.note_refresh_started();
                Consulted::Hit(done, Some(Refresh { lazy: pending.lazy, key: pending.key, keep_verdict }))
            } else {
                Consulted::Hit(done, None)
            }
        },
    }
}

/// A query that is sent upstream.
#[derive(Debug)]
pub struct Outgoing {
    pub query: DnsMessage,
    pub key: QueryKey,
    pub client: ResolvedClient,
    pub log: LogBuilder,
}

/// What an [`Outgoing`] says.
pub struct OutgoingView {
    pub query: MessageView,
    pub key: KeyView,
    pub client: ResolvedClientView,
    pub log: LogView,
}

impl View for Outgoing {
    type V = OutgoingView;

    open spec fn view(&self) -> OutgoingView {
        OutgoingView {
            query: self.query@,
            key: self.key@,
            client: self.client@,
            log: self.log@,
        }
    }
}

/// The query to send upstream after a cache miss; one that cannot be read is
/// answered with an error.
pub fn forward(pending: Pending) -> (r: Result<Outgoing, Finished>)
    ensures
        match ingress::message_in(pending@.lazy) {
            Some(query) => r matches Ok(o) && o@ == (OutgoingView {
                query,
                key: pending@.key,
                client: pending@.client,
                log: pending@.log,
            }),
            None => r matches Err(f) && f@ == unreadable(pending@.id, pending@.log),
        },
{
    match pending.lazy.into_message() {
        Some(query) => Ok(
            Outgoing { query, key: pending.key, client: pending.client, log: pending.log },
        ),
        None => Err(finalize(formerr(pending.id), QueryAction::Error, pending.log)),
    }
}

/// The verdict on an answer that is cached with it, if one is. It is reached for
/// clients that are not filtered too.
pub open spec fn kept_verdict(
    state: EngineState,
    client: ResolvedClientView,
    answers: Seq<Record>,
) -> Option<ResponseVerdictView> {
    if keeps_verdicts(state) {
        Some(
            ResponseVerdictView {
                generation: generation_of(state.filter@),
                block: answers_block(state.filter@, filter_client(client), answers),
            },
        )
    } else {
        None
    }
}

/// What is logged of a query that an upstream answered.
pub open spec fn forwarded_log(log: LogView, rtt_us: u64) -> LogView {
    LogView { upstream_rtt_us: Some(rtt_us), ..log }
}

/// A query that is answered with what an upstream said: as the cache encoded it, or
/// else as a message.
pub open spec fn from_upstream(c: CacheView, resolved: ResolvedView, log: LogView) -> FinishedView {
    let action = ActionView::Forwarded(resolved.upstream);
    if c.cfg.enabled && cache::cacheable(c.cfg, resolved.message) is Some {
        match cache::stored_form(c.cfg, resolved.message) {
            StoredView::Wire { bytes, rcode, answers, .. } => answered_wire(
                bytes,
                rcode,
                answers,
                action,
                log,
            ),
            StoredView::Message(_) => answered(resolved.message, action, log),
        }
    } else {
        answered(resolved.message, action, log)
    }
}

/// What becomes of a query that an upstream answered: a filtered client gets a
/// block where a rule blocks one of the answers.
pub open spec fn settles(
    f: FinishedView,
    state: EngineState,
    o: OutgoingView,
    c: CacheView,
    resolved: ResolvedView,
) -> bool {
    let log = forwarded_log(o.log, resolved.rtt_us);
    let found = answers_block(state.filter@, filter_client(o.client), resolved.message.answers);
    if filters(state, o.client) && found is Some {
        is_blocked(f, state, o.query, found->0, log)
    } else {
        f == from_upstream(c, resolved, log)
    }
}

/// What becomes of a query that no upstream answered.
pub open spec fn unanswered(o: OutgoingView) -> FinishedView {
    answered(
        MessageView { response_code: SERV_FAIL, ..block::shell(o.query) },
        ActionView::Error,
        o.log,
    )
}

/// Takes what came back from the upstreams. The raw answer is cached whatever the
/// filter says of it, since a block depends on the settings and on the client.
pub fn settle(
    state: &EngineState,
    outgoing: Outgoing,
    reply: Result<Resolved, UpstreamError>,
    cache: &mut DnsCache,
    now: u64,
) -> (r: Finished)
    ensures
        match reply {
            Err(_) => r@ == unanswered(outgoing@) && final(cache)@ == old(cache)@,
            Ok(resolved) => settles(r@, *state, outgoing@, old(cache)@, resolved@)
                && final(cache)@ == cache::after_insert(
                old(cache)@,
                outgoing@.key,
                resolved@.message,
                kept_verdict(*state, outgoing@.client, resolved@.message.answers),
                now,
            ),
        },
{
    let resolved: Resolved = match reply {
        Ok(r) => r,
        Err(_) => {
            let resp: DnsMessage = error_response(&outgoing.query, SERV_FAIL);
            return finalize(resp, QueryAction::Error, outgoing.log);
        },
    };
    let mut log: LogBuilder = outgoing.log;
    log.upstream_rtt_us = Some(resolved.rtt_us);
    let client_filtered: bool = state.filtering_enabled && outgoing.client.filtering_enabled;
    let keep_verdict: bool = state.filtering_enabled
        && !state.filter.has_client_dependent_rules();
    let generation: u64 = state.filter.content_hash();
    let found: Option<MatchInfo> = if client_filtered || keep_verdict {
        filter_answers(&state.filter, &outgoing.client, &resolved.message.answers)
    } else {
        None
    };
    let verdict: Option<ResponseVerdict> = if keep_verdict {
        match &found {
            Some(info) => Some(ResponseVerdict::block(copy_match(info), generation)),
            None => Some(ResponseVerdict::clean(generation)),
        }
    } else {
        None
    };
    let served: Option<InsertedWire> = cache.insert_returning(
        outgoing.key,
        &resolved.message,
        verdict,
        now,
    );
    if client_filtered {
        if let Some(info) = found {
            return finish_blocked(state, &outgoing.query, info, log);
        }
    }
    let action = QueryAction::Forwarded { upstream: resolved.upstream };
    match served {
        Some(w) => finalize_wire(w.bytes, w.rcode, w.answers, action, log),
        None => finalize(resolved.message, action, log),
    }
}

/// A client of whom nothing is known.
pub open spec fn nobody() -> ClientView {
    ClientView {
        ip: Some(IpAddr::V4(Ipv4Addr { bits: 0 })),
        name: None,
        tags: Seq::empty(),
    }
}

/// A cache that counts a refresh that failed.
pub open spec fn refresh_failed(c: CacheView) -> CacheView {
    CacheView {
        counts: CacheCounters {
            refresh_failures: cache::tick(c.counts.refresh_failures),
            ..c.counts
        },
        ..c
    }
}

/// The verdict that is cached with a refreshed answer.
pub open spec fn refreshed_verdict(
    rules: Seq<BuildView>,
    keep_verdict: bool,
    answers: Seq<Record>,
) -> Option<ResponseVerdictView> {
    if keep_verdict {
        Some(
            ResponseVerdictView {
                generation: generation_of(rules),
                block: answers_block(rules, nobody(), answers),
            },
        )
    } else {
        None
    }
}

/// Caches a refreshed answer, by the rules that were in force when the refresh
/// began. `None` stands for a query that could not be read.
pub fn refresh(
    filter: &FilterEngine,
    key: QueryKey,
    keep_verdict: bool,
    reply: Option<Result<Resolved, UpstreamError>>,
    cache: &mut DnsCache,
    now: u64,
)
    ensures
        final(cache)@ == match reply {
            Some(Ok(resolved)) => cache::after_insert(
                old(cache)@,
                key@,
                resolved@.message,
                refreshed_verdict(filter@, keep_verdict, resolved@.message.answers),
                now,
            ),
            _ => refresh_failed(old(cache)@),
        },
{
    let resolved: Resolved = match reply {
        Some(Ok(r)) => r,
        _ => {
            cache.note_refresh_failed();
            return;
        },
    };
    let verdict: Option<ResponseVerdict> = if keep_verdict {
        let tags: Vec<String> = Vec::new();
        let placeholder = ResolvedClient {
            ip: IpAddr::V4(Ipv4Addr { bits: 0 }),
            name: None,
            tags,
            filtering_enabled: true,
        };
        assert(filter_client(placeholder@).tags =~= nobody().tags);
        let generation: u64 = filter.content_hash();
        match filter_answers(filter, &placeholder, &resolved.message.answers) {
            Some(info) => Some(ResponseVerdict::block(info, generation)),
            None => Some(ResponseVerdict::clean(generation)),
        }
    } else {
        None
    };
    cache.insert_with_verdict(key, &resolved.message, verdict, now);
}

/// The answer summaries of a query for the log.
pub open spec fn logged_answers(f: FinishedView) -> Seq<Seq<char>> {
    match f.answers {
        Some(v) => v,
        None => match f.response {
            ResponseView::Message(m) => cache::summaries(m.answers),
            ResponseView::Wire(_) => Seq::empty(),
        },
    }
}

/// What is recorded of a query, if anything is. Answer summaries are made for the
/// log alone.
pub open spec fn entry_of(
    f: FinishedView,
    stats_on: bool,
    log_on: bool,
    time_ms: i64,
    elapsed_us: u64,
) -> Option<querylog::EntryView> {
    if !stats_on && !log_on {
        None
    } else {
        Some(
            querylog::EntryView {
                id: 0,
                time_ms,
                client_ip: net::ip_text(f.log.client_ip),
                question: f.log.question,
                qtype: f.log.qtype,
                action: f.action,
                allowlisted: f.log.allowlisted,
                rcode: ingress::rcode_name(f.rcode),
                answers: if log_on {
                    logged_answers(f)
                } else {
                    Seq::empty()
                },
                elapsed_us,
            },
        )
    }
}

impl Finished {
    /// Splits a completed query into its response and what is recorded of it,
    /// without forcing a wire response decode.
    pub fn record(self, stats_on: bool, log_on: bool, time_ms: i64, elapsed_us: u64) -> (r: (
        EngineResponse,
        Option<QueryLogEntry>,
    ))
        ensures
            r.0@ == self@.response,
            match entry_of(self@, stats_on, log_on, time_ms, elapsed_us) {
                Some(v) => r.1 matches Some(e) && e@ == v,
                None => r.1 is None,
            },
    {
        if !stats_on && !log_on {
            return (self.response, None);
        }
        let mut entry: QueryLogEntry = QueryLogEntry::empty();
        entry.time_ms = time_ms;
        entry.client_ip = self.log.client_ip.text();
        entry.question = self.log.question;
        entry.qtype = self.log.qtype;
        entry.action = self.action;
        entry.allowlisted = self.log.allowlisted;
        entry.rcode = rcode_label(self.rcode);
        if log_on {
            entry.answers = match self.answers {
                Some(v) => v,
                None => match &self.response {
                    EngineResponse::Message(m) => summarize_answers(&m.answers),
                    EngineResponse::Wire(_) => {
                        let none: Vec<String> = Vec::new();
                        assert(text::texts(none@) =~= Seq::<Seq<char>>::empty());
                        none
                    },
                },
            };
        }
        entry.elapsed_us = elapsed_us;
        (self.response, Some(entry))
    }
}

/// Where no rule looks at the client, every client gets the same verdict on an
/// answer: what is cached of it holds for all of them.
pub proof fn law_answer_verdict_is_shared(
    rules: Seq<BuildView>,
    a: ClientView,
    b: ClientView,
    answers: Seq<Record>,
)
    requires
        rules.len() <= usize::MAX,
        !filter::any_client_dependent(rules),
    ensures
        answers_block(rules, a, answers) == answers_block(rules, b, answers),
    decreases answers.len(),
{
    if answers.len() > 0 {
        lemma_record_shared(rules, a, b, answers[0]@.data);
        law_answer_verdict_is_shared(rules, a, b, answers.drop_first());
    }
}

proof fn lemma_judge_shared(
    rules: Seq<BuildView>,
    name: Seq<char>,
    rtype: Seq<char>,
    a: ClientView,
    b: ClientView,
)
    requires
        rules.len() <= usize::MAX,
        !filter::any_client_dependent(rules),
    ensures
        judge(rules, name, rtype, a) == judge(rules, name, rtype, b),
{
    laws::law_client_independent(rules, filter::query_name(name), rtype, a, b);
}

proof fn lemma_addresses_shared(
    rules: Seq<BuildView>,
    a: ClientView,
    b: ClientView,
    ips: Seq<IpAddr>,
)
    requires
        rules.len() <= usize::MAX,
        !filter::any_client_dependent(rules),
    ensures
        addresses_block(rules, a, ips) == addresses_block(rules, b, ips),
    decreases ips.len(),
{
    if ips.len() > 0 {
        lemma_judge_shared(rules, net::ip_text(ips[0]), "HTTPS"@, a, b);
        lemma_addresses_shared(rules, a, b, ips.drop_first());
    }
}

proof fn lemma_hints_shared(
    rules: Seq<BuildView>,
    a: ClientView,
    b: ClientView,
    hints: Seq<Seq<IpAddr>>,
)
    requires
        rules.len() <= usize::MAX,
        !filter::any_client_dependent(rules),
    ensures
        hints_block(rules, a, hints) == hints_block(rules, b, hints),
    decreases hints.len(),
{
    if hints.len() > 0 {
        lemma_addresses_shared(rules, a, b, hints[0]);
        lemma_hints_shared(rules, a, b, hints.drop_first());
    }
}

proof fn lemma_record_shared(rules: Seq<BuildView>, a: ClientView, b: ClientView, data: DataView)
    requires
        rules.len() <= usize::MAX,
        !filter::any_client_dependent(rules),
    ensures
        record_block(rules, a, data) == record_block(rules, b, data),
{
    match data {
        DataView::Cname(target) => lemma_judge_shared(
            rules,
            text::strip_end(target, '.'),
            "CNAME"@,
            a,
            b,
        ),
        DataView::A(ip) => lemma_judge_shared(rules, net::ip_text(IpAddr::V4(ip)), "A"@, a, b),
        DataView::Aaaa(ip) => lemma_judge_shared(rules, net::ip_text(IpAddr::V6(ip)), "AAAA"@, a, b),
        DataView::Service(hints) => lemma_hints_shared(rules, a, b, hints),
        _ => {},
    }
}

proof fn lemma_block_is_found(
    rules: Seq<BuildView>,
    client: ClientView,
    answers: Seq<Record>,
    i: int,
)
    requires
        0 <= i < answers.len(),
        record_block(rules, client, answers[i]@.data) is Some,
    ensures
        answers_block(rules, client, answers) is Some,
    decreases i,
{
    if i > 0 {
        assert(answers.drop_first()[i - 1] == answers[i]);
        lemma_block_is_found(rules, client, answers.drop_first(), i - 1);
    }
}

proof fn lemma_block_has_cause(
    rules: Seq<BuildView>,
    client: ClientView,
    answers: Seq<Record>,
) -> (i: int)
    requires
        answers_block(rules, client, answers) is Some,
    ensures
        0 <= i < answers.len(),
        record_block(rules, client, answers[i]@.data) is Some,
    decreases answers.len(),
{
    if record_block(rules, client, answers[0]@.data) is Some {
        0
    } else {
        let i = lemma_block_has_cause(rules, client, answers.drop_first());
        assert(answers.drop_first()[i] == answers[i + 1]);
        i + 1
    }
}

/// One blocked answer is enough: a response is blocked exactly where a rule blocks one
/// of its answers, an alias, an address or an address hint.
pub proof fn law_any_blocked_answer_blocks(
    rules: Seq<BuildView>,
    client: ClientView,
    answers: Seq<Record>,
)
    ensures
        answers_block(rules, client, answers) is Some <==> exists|i: int|
            0 <= i < answers.len() && record_block(rules, client, (#[trigger] answers[i])@.data)
                is Some,
{
    if exists|i: int|
        0 <= i < answers.len() && record_block(rules, client, (#[trigger] answers[i])@.data)
            is Some {
        let i = choose|i: int|
            0 <= i < answers.len() && record_block(rules, client, (#[trigger] answers[i])@.data)
                is Some;
        lemma_block_is_found(rules, client, answers, i);
    }
    if answers_block(rules, client, answers) is Some {
        let i = lemma_block_has_cause(rules, client, answers);
        assert(record_block(rules, client, answers[i]@.data) is Some);
    }
}

/// A client that is not filtered is never blocked nor rewritten: its query goes on to
/// the cache, and what the cache or an upstream says comes back as it is.
pub proof fn law_unfiltered_is_untouched(
    state: EngineState,
    client: ResolvedClientView,
    started: Start,
    fields: FieldsView,
    lazy: LazyView,
    f: FinishedView,
    refresh: Option<RefreshView>,
    p: PendingView,
    hit: HitView,
    g: FinishedView,
    o: OutgoingView,
    c: CacheView,
    resolved: ResolvedView,
)
    requires
        !filters(state, client),
        starts(started, state, client, fields, lazy),
        p.client == client,
        hits(f, refresh, state, p, hit),
        o.client == client,
        settles(g, state, o, c, resolved),
    ensures
        started is Lookup,
        f == from_cache(hit.response, p.log),
        g == from_upstream(c, resolved, forwarded_log(o.log, resolved.rtt_us)),
{
}

/// A client that is not filtered is never answered with a block of a cached
/// answer, and after the rules changed a filtered one gets what the rules in force
/// say of it.
pub proof fn law_reload_takes_effect(
    state: EngineState,
    client: ResolvedClientView,
    hit: HitView,
)
    ensures
        !filters(state, client) ==> hit_block(state, client, hit) is None,
        filters(state, client) && (hit.verdict is None || (hit.verdict->0).generation
            != generation_of(state.filter@)) ==> hit_block(state, client, hit) == answers_block(
            state.filter@,
            filter_client(client),
            cache::answers_in(hit.response),
        ),
{
}

/// What one client had cached does not leak past the filter: another client that is
/// filtered and asks the same before the answer expires, under the same rules, is
/// judged as if the upstream had answered it itself.
pub proof fn law_cached_answer_is_filtered(
    state: EngineState,
    first: ResolvedClientView,
    other: ResolvedClientView,
    key: KeyView,
    c: CacheView,
    m: MessageView,
    stored: u64,
    id: u16,
    now: u64,
)
    requires
        c.cfg.enabled,
        cache::cacheable(c.cfg, m) is Some,
        cache::seconds_between(stored, now) < cache::cacheable(c.cfg, m)->0,
        filters(state, other),
        keeps_verdicts(state),
        state.filter@.len() <= usize::MAX,
    ensures
        ({
            let after = cache::after_insert(
                c,
                key,
                m,
                kept_verdict(state, first, m.answers),
                stored,
            );
            cache::hit_of(after, key, id, now) matches Some(hit) && hit_block(state, other, hit)
                == answers_block(state.filter@, filter_client(other), m.answers)
        }),
{
    crate::engine::laws::law_inserted_is_found(
        c,
        key,
        m,
        kept_verdict(state, first, m.answers),
        stored,
        id,
        now,
    );
    law_answer_verdict_is_shared(
        state.filter@,
        filter_client(first),
        filter_client(other),
        m.answers,
    );
}

} // verus!
