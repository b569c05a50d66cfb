//! What holds of the decisions about a query on its way through the engine.

use vstd::prelude::*;

use crate::config::settings::BlockingMode;
use crate::engine::cache;
use crate::engine::cache::{CacheView, HitView};
use crate::engine::clients;
use crate::engine::clients::ResolvedClientView;
use crate::engine::ingress;
use crate::engine::ingress::{FieldsView, IngressView, LazyView, ResponseView};
use crate::engine::pipeline;
use crate::engine::pipeline::{EngineState, FinishedView, LogView, OutgoingView, Start};
use crate::engine::querylog::ActionView;
use crate::filter::engine as filter;
use crate::filter::laws;
use crate::filter::matching;
use crate::filter::rule;
use crate::filter::rule::{
    Action, BuildView, ClientFilterView, ClientMatchView, ClientView, ModsView, PatternView,
};
use crate::filter::written;
use crate::message;
use crate::net::IpAddr;
use crate::text;
use crate::upstream::failover::ResolvedView;

verus! {

/// A client, with all that rules may ask of it.
pub open spec fn seen_as(client: ResolvedClientView) -> ClientView {
    ClientView { ip: Some(client.ip), name: client.name, tags: client.tags }
}

/// Whether a rule has something to say about a query of a client, and is looked at.
pub open spec fn speaks(
    b: BuildView,
    fields: FieldsView,
    client: ResolvedClientView,
) -> bool {
    let d = filter::query_name(fields.key.name);
    &&& laws::acts(b.rule, d, ingress::rtype_name(fields.key.rtype), seen_as(client))
    &&& laws::is_indexed(b.rule) ==> laws::has_tokens_of(b, d)
}

/// Whether a query was answered with a block by a rule.
pub open spec fn blocked_by(r: Start, b: BuildView) -> bool {
    r matches Start::Done(f) && (f@.action matches ActionView::Blocked(raw, list_id) && list_id
        == b.rule.list_id && (text::utf8_len(b.rule.raw) <= 65535 ==> raw == b.rule.raw))
}

proof fn lemma_name(name: Seq<char>)
    ensures
        filter::query_name(text::strip_end(name, '.')) == filter::query_name(name),
    decreases name.len(),
{
    if name.len() > 0 && name.last() == '.' {
        lemma_name(name.drop_last());
    }
}

/// The rules are asked about the client as it was identified, with its address, its
/// name and its tags. Where a rule blocks a query, a block that speaks of the query and
/// of that client is there, and it is the one that is told of; where blocks do and
/// nothing else does, the query is blocked; where nothing does, it goes on.
pub proof fn law_rules_see_the_client(
    state: EngineState,
    client: ResolvedClientView,
    fields: FieldsView,
    lazy: LazyView,
    r: Start,
)
    requires
        state.filtering_enabled && client.filtering_enabled,
        state.filter@.len() <= usize::MAX,
        ingress::message_in(lazy) is Some,
        pipeline::starts(r, state, client, fields, lazy),
    ensures
        ({
            let rules = state.filter@;
            let d = filter::query_name(fields.key.name);
            let rtype = ingress::rtype_name(fields.key.rtype);
            &&& (r matches Start::Done(f) && f@.action is Blocked) ==> exists|w: int|
                0 <= w < rules.len() && laws::acts(
                    (#[trigger] rules[w]).rule,
                    d,
                    rtype,
                    seen_as(client),
                ) && rules[w].rule.action == Action::Block
            &&& (exists|i: int| 0 <= i < rules.len() && speaks(#[trigger] rules[i], fields, client))
                && (forall|i: int|
                0 <= i < rules.len() && laws::acts(
                    (#[trigger] rules[i]).rule,
                    d,
                    rtype,
                    seen_as(client),
                ) ==> rules[i].rule.action == Action::Block) ==> exists|w: int|
                0 <= w < rules.len() && laws::acts(
                    (#[trigger] rules[w]).rule,
                    d,
                    rtype,
                    seen_as(client),
                ) && blocked_by(r, rules[w])
            &&& (forall|i: int|
                0 <= i < rules.len() ==> !laws::acts(
                    (#[trigger] rules[i]).rule,
                    d,
                    rtype,
                    seen_as(client),
                )) ==> (r matches Start::Lookup(p) && !p@.log.allowlisted && p@.key == fields.key
                && p@.client == client)
        }),
{
    let rules = state.filter@;
    let d = filter::query_name(fields.key.name);
    let rtype = ingress::rtype_name(fields.key.rtype);
    lemma_name(fields.key.name);
    laws::law_decider_ranks_highest(rules, d, rtype, seen_as(client));
    laws::law_decider_acts(rules, d, rtype, seen_as(client));
    let verdict = pipeline::query_verdict(state, client, fields);
    if let Some(w) = filter::deciding(rules, d, rtype, seen_as(client)) {
        lemma_raw(rules[w as int].rule.raw);
        assert(laws::acts(rules[w as int].rule, d, rtype, seen_as(client)));
    }
}

/// A source line that is short is kept whole.
proof fn lemma_raw(raw: Seq<char>)
    ensures
        text::utf8_len(raw) <= 65535 ==> text::utf8_prefix(raw, 65535) == raw,
{
}

/// Modifiers with a `$client` list alone.
pub open spec fn for_clients(
    included: Seq<ClientMatchView>,
    excluded: Seq<ClientMatchView>,
) -> ModsView {
    ModsView {
        important: false,
        dnstype: None,
        client: Some(ClientFilterView { included, excluded }),
        ctag: None,
        denyallow: Seq::empty(),
        rewrite: None,
    }
}

/// Whether the first thing that becomes of a query is a block.
pub open spec fn is_block(r: Start) -> bool {
    r matches Start::Done(f) && f@.action is Blocked
}

/// What `start` promises of a query.
pub open spec fn started(r: Start, state: EngineState, query: IngressView, ip: IpAddr) -> bool {
    ingress::fields_of(query) matches Some(fields) && pipeline::starts(
        r,
        state,
        clients::resolved(state.clients@, ip),
        fields,
        ingress::source_of(query),
    )
}

/// A block for certain clients blocks them and nobody else. One for a name blocks the
/// queries that come from an address of the client of that name; one for an address
/// those that come from it; one for neither, with a `~`, all but those.
pub proof fn law_client_rules(
    state: EngineState,
    query: IngressView,
    fields: FieldsView,
    ip: IpAddr,
    r: Start,
    n: Seq<char>,
    a: IpAddr,
)
    requires
        state.filtering_enabled,
        clients::resolved(state.clients@, ip).filtering_enabled,
        started(r, state, query, ip),
        ingress::fields_of(query) == Some(fields),
        ingress::message_in(ingress::source_of(query)) is Some,
        state.filter@.len() == 1,
        state.filter@[0].rule.action == Action::Block,
        !laws::is_indexed(state.filter@[0].rule),
        laws::pattern_matches(
            state.filter@[0].rule.pattern,
            filter::query_name(fields.key.name),
        ),
    ensures
        ({
            let name = clients::resolved(state.clients@, ip).name;
            let mods = state.filter@[0].rule.mods;
            &&& mods is None ==> is_block(r)
            &&& mods == Some(for_clients(seq![ClientMatchView::Name(n)], Seq::empty())) ==> (
            is_block(r) <==> name == Some(n))
            &&& mods == Some(for_clients(Seq::empty(), seq![ClientMatchView::Name(n)])) ==> (
            is_block(r) <==> name != Some(n))
            &&& mods == Some(for_clients(seq![ClientMatchView::Ip(a)], Seq::empty())) ==> (
            is_block(r) <==> ip == a)
            &&& mods == Some(for_clients(Seq::empty(), seq![ClientMatchView::Ip(a)])) ==> (
            is_block(r) <==> ip != a)
            &&& !is_block(r) ==> r is Lookup
        }),
{
    let client = clients::resolved(state.clients@, ip);
    let lazy = ingress::source_of(query);
    law_rules_see_the_client(state, client, fields, lazy, r);
    let rules = state.filter@;
    let b = rules[0];
    assert(forall|i: int| 0 <= i < rules.len() ==> rules[i] == b);
    let d = filter::query_name(fields.key.name);
    let view = seen_as(client);
    let acts = laws::acts(b.rule, d, ingress::rtype_name(fields.key.rtype), view);
    assert(acts ==> speaks(rules[0], fields, client));
    assert(acts ==> is_block(r));
    assert(is_block(r) ==> acts);
    let by_name = seq![ClientMatchView::Name(n)];
    let by_ip = seq![ClientMatchView::Ip(a)];
    let none = Seq::<ClientMatchView>::empty();
    assert(by_name[0].names(view) == (client.name == Some(n)));
    assert(by_ip[0].names(view) == (ip == a));
    assert(rule::any_names(by_name, view) == (client.name == Some(n)));
    assert(rule::any_names(by_ip, view) == (ip == a));
    assert(!rule::any_names(none, view));
    assert(!filter::any_covers(Seq::<Seq<char>>::empty(), d));
}

/// What comes back from an upstream. Where the client is filtered and a rule blocks one
/// of the answers, the client gets a block that names the rule; or else just what the
/// upstream said, in one form or the other, and the log names the upstream and how long
/// it took. A failure is told as SERVFAIL (2) and changes nothing in the cache.
pub proof fn law_settled(
    f: FinishedView,
    state: EngineState,
    o: OutgoingView,
    c: CacheView,
    resolved: ResolvedView,
)
    requires
        pipeline::settles(f, state, o, c, resolved),
    ensures
        ({
            let found = pipeline::answers_block(
                state.filter@,
                seen_as(o.client),
                resolved.message.answers,
            );
            let blocks = state.filtering_enabled && o.client.filtering_enabled && found is Some;
            &&& blocks ==> f.action == ActionView::Blocked((found->0).rule, (found->0).list_id) && (
            f.response matches ResponseView::Message(m) && m.id == o.query.id && m.queries
                == o.query.queries)
            &&& blocks && state.blocking_mode == BlockingMode::NxDomain ==> f.rcode == 3
            &&& !blocks ==> f.action == ActionView::Forwarded(resolved.upstream) && f.rcode
                == resolved.message.response_code && match f.response {
                ResponseView::Message(m) => m == resolved.message,
                ResponseView::Wire(b) => message::message_wire(resolved.message) == Ok::<
                    Seq<u8>,
                    Seq<char>,
                >(b),
            }
            &&& f.log.upstream_rtt_us == Some(resolved.rtt_us)
            &&& f.log.client_ip == o.log.client_ip && f.log.question == o.log.question
        }),
{
}

/// What one rule about a name or a domain makes of the queries for it. A block answers
/// them and a rewrite answers them or sends for what it stands for; both are told of under
/// the rule. An exception lets them through as excepted. Any other query goes on as it is.
pub proof fn law_one_rule_at_start(
    state: EngineState,
    client: ResolvedClientView,
    fields: FieldsView,
    lazy: LazyView,
    r: Start,
    b: BuildView,
    name: Seq<char>,
    d: Seq<char>,
)
    requires
        state.filtering_enabled && client.filtering_enabled,
        state.filter@ == seq![b],
        ingress::message_in(lazy) is Some,
        pipeline::starts(r, state, client, fields, lazy),
        fields.key.name == name.push('.') || fields.key.name == name,
        name.len() > 0 && name.last() != '.',
        written::is_small(d, name),
        b.rule.pattern is Exact || b.rule.pattern is Subdomain,
        filter::is_complete(b.rule),
        text::utf8_len(b.rule.raw) <= 65535,
    ensures
        ({
            let rtype = ingress::rtype_name(fields.key.rtype);
            let hit = match b.rule.pattern {
                PatternView::Exact(e) => d == e,
                PatternView::Subdomain(base) => matching::is_under(d, base),
                _ => false,
            } && (b.rule.mods matches Some(m) ==> matching::agrees(
                m,
                b.rule.action,
                d,
                rtype,
                seen_as(client),
            ));
            let told = ActionView::Rewritten(b.rule.raw, b.rule.list_id);
            &&& hit && b.rule.action == Action::Block ==> (r matches Start::Done(f) && f@.action
                == ActionView::Blocked(b.rule.raw, b.rule.list_id))
            &&& hit && b.rule.action == Action::Rewrite ==> match r {
                Start::Done(f) => f@.action == told,
                Start::Alias(work) => work.action@ == told,
                _ => false,
            }
            &&& hit && b.rule.action == Action::Allow ==> (r matches Start::Lookup(p)
                && p@.log.allowlisted && p@.key == fields.key && p@.client == client)
            &&& !hit ==> (r matches Start::Lookup(p) && !p@.log.allowlisted && p@.key == fields.key
                && p@.client == client && p@.id == fields.id)
        }),
{
    lemma_name(fields.key.name);
    assert(name.push('.').drop_last() =~= name);
    assert(text::strip_end(name, '.') == name);
    assert(text::strip_end(fields.key.name, '.') == name);
    matching::law_one_rule(
        b,
        name,
        d,
        ingress::rtype_name(fields.key.rtype),
        seen_as(client),
    );
}

/// A query that turns out not to be readable is answered with FORMERR (1) under its id.
pub proof fn law_unreadable(id: u16, log: LogView)
    ensures
        ({
            let f = pipeline::unreadable(id, log);
            &&& f.rcode == 1 && f.action == ActionView::Error && f.log == log
            &&& f.response matches ResponseView::Message(m) && m.id == id && m.response
                && m.response_code == 1 && m.answers.len() == 0
        }),
{
}

/// The record types by their numbers, as rules name them.
pub proof fn law_type_names()
    ensures
        ingress::rtype_name(1) == "A"@,
        ingress::rtype_name(2) == "NS"@,
        ingress::rtype_name(5) == "CNAME"@,
        ingress::rtype_name(6) == "SOA"@,
        ingress::rtype_name(12) == "PTR"@,
        ingress::rtype_name(15) == "MX"@,
        ingress::rtype_name(16) == "TXT"@,
        ingress::rtype_name(28) == "AAAA"@,
        ingress::rtype_name(33) == "SRV"@,
        ingress::rtype_name(65) == "HTTPS"@,
        ingress::rtype_name(257) == "CAA"@,
{
}

/// What is noted of a query at its start: the address of the client, the name as it was
/// asked, and the type; no upstream's time yet.
pub proof fn law_noted_at_start(
    r: Start,
    state: EngineState,
    client: ResolvedClientView,
    fields: FieldsView,
    lazy: LazyView,
)
    requires
        pipeline::starts(r, state, client, fields, lazy),
    ensures
        ({
            let log = match r {
                Start::Lookup(p) => p@.log,
                Start::Done(f) => f@.log,
                Start::Alias(work) => work.log@,
                Start::Malformed(_) => pipeline::log_of(fields, client.ip),
            };
            &&& log.client_ip == client.ip && log.question == fields.qname
            &&& log.qtype == ingress::rtype_name(fields.key.rtype)
            &&& log.upstream_rtt_us is None
            &&& !(r is Malformed)
        }),
{
}

/// Where filtering is off, as a whole or for a client, no rule counts: its queries go on as
/// they are, and no cached answer is blocked for it.
pub proof fn law_filtering_off(
    r: Start,
    state: EngineState,
    client: ResolvedClientView,
    fields: FieldsView,
    lazy: LazyView,
    hit: HitView,
)
    requires
        !state.filtering_enabled || !client.filtering_enabled,
        pipeline::starts(r, state, client, fields, lazy),
    ensures
        r matches Start::Lookup(p) && !p@.log.allowlisted && p@.key == fields.key && p@.client
            == client && p@.id == fields.id && p@.lazy == lazy,
        pipeline::hit_block(state, client, hit) is None,
{
}

/// Where filtering is on, a cached answer without a verdict is judged for the client anew.
pub proof fn law_cached_is_judged(state: EngineState, client: ResolvedClientView, hit: HitView)
    requires
        state.filtering_enabled && client.filtering_enabled,
        hit.verdict is None,
    ensures
        pipeline::hit_block(state, client, hit) == pipeline::answers_block(
            state.filter@,
            seen_as(client),
            cache::answers_in(hit.response),
        ),
{
}

} // verus!
