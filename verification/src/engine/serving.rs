//! What holds of the way from a question to its answer.

use vstd::prelude::*;

use crate::config::settings::ClientConfig;
use crate::engine::cache;
use crate::engine::cache::{CacheConfig, CacheView, CachedView, HitFreshness, HitView};
use crate::engine::clients;
use crate::engine::ingress;
use crate::engine::ingress::{LazyView, ResponseView};
use crate::engine::lru_store;
use crate::engine::lru_store::{EntryView, Kept, ResponseVerdictView, StoredView};
use crate::engine::pipeline;
use crate::engine::pipeline::{
    EngineState, FinishedView, OutgoingView, PendingView, RefreshView,
};
use crate::engine::querylog;
use crate::engine::querylog::{ActionView, QueryLog};
use crate::engine::snapshot;
use crate::engine::snapshot::SavedView;
use crate::engine::wire;
use crate::filter::engine as filter;
use crate::filter::laws;
use crate::filter::matching;
use crate::filter::rule::{Action, BuildView, ClientView, PatternView};
use crate::filter::written;
use crate::message::{DataView, MessageView, Record};
use crate::net;
use crate::net::IpAddr;
use crate::text;
use crate::upstream::transport::KeyView;

verus! {

/// An entry is fresh until as many whole seconds have passed as its TTL has, and then
/// stale for as many more as the window has; after that it is not served. The TTL it is
/// served with is what is left of its own, or one second where it is stale.
pub proof fn law_entry_ages(e: EntryView, window: u32, now: u64)
    requires
        e.stored_at <= now < e.stored_at + 1000 * 0xffff_ffff,
    ensures
        ({
            let passed = now - e.stored_at;
            &&& passed < 1000 * e.ttl ==> cache::freshness_of(e, window, now) == Some(
                HitFreshness::Fresh,
            ) && 1000 * (cache::served_ttl(e, now) - 1) < 1000 * e.ttl - passed <= 1000
                * cache::served_ttl(e, now)
            &&& 1000 * e.ttl <= passed < 1000 * (e.ttl + window) ==> cache::freshness_of(
                e,
                window,
                now,
            ) == Some(HitFreshness::Stale) && cache::served_ttl(e, now) == 1
            &&& 1000 * (e.ttl + window) <= passed ==> cache::freshness_of(e, window, now) is None
        }),
{
}

/// A restart does not make an answer younger: what is cached again has the age it had when
/// it was saved and the time since then, and the TTL and the bytes that it had.
pub proof fn law_age_survives(
    key: KeyView,
    e: EntryView,
    window: u32,
    saved_at: u64,
    elapsed: int,
    now: u64,
    v: SavedView,
    r: EntryView,
)
    requires
        e.stored_at <= saved_at,
        0 <= elapsed,
        (saved_at - e.stored_at) / 1000 + elapsed < 0xffff_ffff,
        snapshot::saved_of(key, e, window, saved_at) == Some(v),
        snapshot::revived(v, window, elapsed, now) == Some(r),
    ensures
        v.key == key,
        r.ttl == e.ttl && r.stored == e.stored && r.verdict is None,
        (now - r.stored_at) / 1000 == (saved_at - e.stored_at) / 1000 + elapsed,
        cache::freshness_of(r, window, now) is Some,
{
}

/// A cached message is served under the id of the query, with the given TTL on each of
/// its records and with everything else as it was.
pub proof fn law_served_message(m: MessageView, id: u16, ttl: u32)
    ensures
        cache::served(StoredView::Message(m), id, ttl) matches CachedView::Message(s) && {
            &&& s.id == id && s.response_code == m.response_code && s.queries == m.queries
            &&& s.response == m.response && s.truncation == m.truncation && s.edns == m.edns
            &&& s.authentic_data == m.authentic_data && s.authoritative == m.authoritative
            &&& s.recursion_available == m.recursion_available
            &&& s.answers.len() == m.answers.len() && s.authorities.len() == m.authorities.len()
            &&& s.additionals.len() == m.additionals.len()
            &&& forall|i: int|
                0 <= i < m.answers.len() ==> (#[trigger] s.answers[i]).ttl == ttl
                    && s.answers[i].data == m.answers[i].data && s.answers[i].name
                    == m.answers[i].name
            &&& forall|i: int|
                0 <= i < m.authorities.len() ==> (#[trigger] s.authorities[i]).ttl == ttl
                    && s.authorities[i].data == m.authorities[i].data
            &&& forall|i: int|
                0 <= i < m.additionals.len() ==> (#[trigger] s.additionals[i]).ttl == ttl
                    && s.additionals[i].data == m.additionals[i].data
        },
{
}

/// Each lookup is counted once, as a hit or as a miss, and a stale hit as such, too. What
/// is found is used most recently then.
pub proof fn law_lookups_are_counted(c: CacheView, key: KeyView, id: u16, now: u64)
    requires
        c.cfg.enabled,
        c.counts.hits < u64::MAX && c.counts.misses < u64::MAX && c.counts.stale_hits < u64::MAX,
    ensures
        ({
            let after = cache::after_get(c, key, now);
            let found = cache::hit_of(c, key, id, now);
            &&& after.counts.hits == c.counts.hits + (if found is Some {
                1int
            } else {
                0
            })
            &&& after.counts.misses == c.counts.misses + (if found is None {
                1int
            } else {
                0
            })
            &&& after.counts.stale_hits == c.counts.stale_hits + (if found matches Some(h)
                && h.freshness == HitFreshness::Stale {
                1int
            } else {
                0
            })
            &&& after.counts.refreshes == c.counts.refreshes && after.counts.refresh_failures
                == c.counts.refresh_failures
            &&& after.cfg == c.cfg && after.limit == c.limit
            &&& found is Some ==> after.kept.len() > 0 && after.kept[0].0 == key
        }),
{
}

/// In a full cache a new question takes the place of the one that was used least
/// recently, and of no other.
pub proof fn law_least_recent_goes(s: Kept, limit: nat, key: KeyView, e: EntryView)
    requires
        0 < s.len() == limit,
        forall|i: int| 0 <= i < s.len() ==> (#[trigger] s[i]).0 != key,
    ensures
        ({
            let after = lru_store::with_entry(s, limit, key, e);
            &&& after.len() == limit && after[0] == (key, e)
            &&& forall|i: int| 1 <= i < limit ==> #[trigger] after[i] == s[i - 1]
        }),
{
    lemma_absent(s, key);
}

proof fn lemma_absent(s: Kept, key: KeyView)
    requires
        forall|i: int| 0 <= i < s.len() ==> (#[trigger] s[i]).0 != key,
    ensures
        lru_store::lookup(s, key) is None,
    decreases s.len(),
{
    if s.len() > 0 {
        let rest = s.drop_first();
        assert forall|i: int| 0 <= i < rest.len() implies (#[trigger] rest[i]).0 != key by {
            assert(rest[i] == s[i + 1]);
        }
        lemma_absent(rest, key);
    }
}

/// A reply over UDP that is too long is cut to one with the TC bit, with the id, the
/// question and the response code, and without records; one that fits is whole.
pub proof fn law_cut_reply(m: MessageView)
    ensures
        ({
            let cut = ingress::truncated(m);
            &&& cut.truncation && cut.response && cut.id == m.id && cut.queries == m.queries
            &&& cut.response_code == m.response_code && cut.op_code == m.op_code
            &&& cut.recursion_desired == m.recursion_desired
            &&& cut.recursion_available == m.recursion_available
            &&& cut.answers.len() == 0 && cut.authorities.len() == 0 && cut.additionals.len() == 0
        }),
{
}

/// A reply goes out over UDP as it is where it is no longer than the client takes, and cut
/// where it is longer; over TCP it goes out behind the two bytes of its length.
pub proof fn law_replies(m: MessageView, b: Seq<u8>, cut: Seq<u8>, max: usize)
    requires
        crate::message::message_wire(m) == Ok::<Seq<u8>, Seq<char>>(b),
        crate::message::message_wire(ingress::truncated(m)) == Ok::<Seq<u8>, Seq<char>>(cut),
    ensures
        b.len() <= max ==> ingress::udp_reply_of(ResponseView::Message(m), max) == b
            && ingress::udp_reply_of(ResponseView::Wire(b), max) == b,
        b.len() > max ==> ingress::udp_reply_of(ResponseView::Message(m), max) == cut,
        b.len() <= 65535 ==> (ingress::tcp_reply_of(ResponseView::Message(m)) matches Some(t)
            && t.len() == b.len() + 2 && t.skip(2) == b && t[0] * 256 + t[1] == b.len()),
        b.len() > 65535 ==> ingress::tcp_reply_of(ResponseView::Message(m)) is None,
{
    if b.len() <= 65535 {
        crate::upstream::transport::law_frame_length(b);
    }
}

/// A query that no upstream answered is answered with SERVFAIL (2) for its question; the
/// log says that it failed.
pub proof fn law_unanswered(o: OutgoingView)
    ensures
        ({
            let f = pipeline::unanswered(o);
            &&& f.rcode == 2 && f.action == ActionView::Error && f.log == o.log
            &&& f.response matches ResponseView::Message(m) && m.response_code == 2 && m.response
                && m.id == o.query.id && m.queries == o.query.queries && m.answers.len() == 0
        }),
{
}

/// A rewrite to another name is answered with the alias and, behind it, with what the name
/// resolved to; where it did not, with the alias alone.
pub proof fn law_alias_is_followed(m: MessageView, more: Seq<Record>)
    ensures
        ({
            let both = pipeline::with_alias(m, Some(more));
            &&& both.answers.len() == m.answers.len() + more.len()
            &&& forall|i: int|
                0 <= i < m.answers.len() ==> #[trigger] both.answers[i] == m.answers[i]
            &&& forall|i: int|
                0 <= i < more.len() ==> both.answers[m.answers.len() + i] == #[trigger] more[i]
            &&& both.id == m.id && both.response_code == m.response_code && both.queries
                == m.queries
            &&& pipeline::with_alias(m, None) == m
        }),
{
}

/// A cached answer that no rule blocks is handed out as it is, under the name of the
/// cache; a stale one is refreshed, and a fresh one is not.
pub proof fn law_cached_answer(
    f: FinishedView,
    refresh: Option<RefreshView>,
    state: EngineState,
    p: PendingView,
    hit: HitView,
)
    requires
        pipeline::hits(f, refresh, state, p, hit),
        pipeline::hit_block(state, p.client, hit) is None,
    ensures
        f.action == ActionView::Cached && f.log == p.log,
        hit.response matches CachedView::Message(m) ==> f.response == ResponseView::Message(m)
            && f.rcode == m.response_code,
        hit.response matches CachedView::Wire { bytes, rcode, answers } ==> f.response
            == ResponseView::Wire(bytes) && f.rcode == rcode && f.answers == Some(answers),
        refresh is Some <==> hit.freshness == HitFreshness::Stale,
        refresh matches Some(r) ==> r.key == p.key,
{
}

/// A rule about an address or an alias blocks the responses with that address or alias
/// among their answers.
pub proof fn law_blocked_answer(
    b: BuildView,
    client: ClientView,
    answers: Seq<Record>,
    i: int,
    target: Seq<char>,
    d: Seq<char>,
)
    requires
        b.rule.action == Action::Block,
        b.rule.mods is None,
        0 <= i < answers.len(),
        match answers[i]@.data {
            DataView::A(ip) => written::is_small(d, net::ip_text(IpAddr::V4(ip)))
                && net::ip_text(IpAddr::V4(ip)).len() > 0 && net::ip_text(IpAddr::V4(ip)).last()
                != '.' && b.rule.pattern == PatternView::Exact(d),
            DataView::Aaaa(ip) => written::is_small(d, net::ip_text(IpAddr::V6(ip)))
                && net::ip_text(IpAddr::V6(ip)).len() > 0 && net::ip_text(IpAddr::V6(ip)).last()
                != '.' && b.rule.pattern == PatternView::Exact(d),
            DataView::Cname(name) => name == target.push('.') && target.len() > 0 && target.last()
                != '.' && written::is_small(d, target) && (b.rule.pattern == PatternView::Exact(d)
                || (b.rule.pattern matches PatternView::Subdomain(base) && matching::is_under(
                d,
                base,
            ))),
            _ => false,
        },
    ensures
        pipeline::answers_block(seq![b], client, answers) matches Some(info) && info.list_id
            == b.rule.list_id,
{
    let rules = seq![b];
    match answers[i]@.data {
        DataView::A(ip) => {
            matching::law_one_rule(b, net::ip_text(IpAddr::V4(ip)), d, "A"@, client);
        },
        DataView::Aaaa(ip) => {
            matching::law_one_rule(b, net::ip_text(IpAddr::V6(ip)), d, "AAAA"@, client);
        },
        DataView::Cname(name) => {
            assert(name.drop_last() =~= target);
            assert(text::strip_end(target, '.') == target);
            assert(text::strip_end(name, '.') == target);
            matching::law_one_rule(b, target, d, "CNAME"@, client);
        },
        _ => {},
    }
    lemma_list_id(b, client, answers);
    pipeline::law_any_blocked_answer_blocks(rules, client, answers);
}

/// What one rule blocks is blocked by that rule.
proof fn lemma_list_id(b: BuildView, client: ClientView, answers: Seq<Record>)
    ensures
        pipeline::answers_block(seq![b], client, answers) matches Some(info) ==> info.list_id
            == b.rule.list_id,
    decreases answers.len(),
{
    if answers.len() > 0 {
        lemma_list_id(b, client, answers.drop_first());
        match answers[0]@.data {
            DataView::Cname(target) => lemma_judge_id(
                b,
                text::strip_end(target, '.'),
                "CNAME"@,
                client,
            ),
            DataView::A(ip) => lemma_judge_id(b, net::ip_text(IpAddr::V4(ip)), "A"@, client),
            DataView::Aaaa(ip) => lemma_judge_id(b, net::ip_text(IpAddr::V6(ip)), "AAAA"@, client),
            DataView::Service(hints) => lemma_hints_id(b, client, hints),
            _ => {},
        }
    }
}

proof fn lemma_judge_id(b: BuildView, name: Seq<char>, rtype: Seq<char>, client: ClientView)
    ensures
        pipeline::block_in(pipeline::judge(seq![b], name, rtype, client)) matches Some(info)
            ==> info.list_id == b.rule.list_id,
{
    laws::law_decider_acts(seq![b], filter::query_name(name), rtype, client);
}

proof fn lemma_hints_id(b: BuildView, client: ClientView, hints: Seq<Seq<IpAddr>>)
    ensures
        pipeline::hints_block(seq![b], client, hints) matches Some(info) ==> info.list_id
            == b.rule.list_id,
    decreases hints.len(),
{
    if hints.len() > 0 {
        lemma_hints_id(b, client, hints.drop_first());
        lemma_addresses_id(b, client, hints[0]);
    }
}

proof fn lemma_addresses_id(b: BuildView, client: ClientView, ips: Seq<IpAddr>)
    ensures
        pipeline::addresses_block(seq![b], client, ips) matches Some(info) ==> info.list_id
            == b.rule.list_id,
    decreases ips.len(),
{
    if ips.len() > 0 {
        lemma_addresses_id(b, client, ips.drop_first());
        lemma_judge_id(b, net::ip_text(ips[0]), "HTTPS"@, client);
    }
}

/// What is recorded of a query is what was asked, by whom, what came of it and how long it
/// took. Nothing is where neither statistics nor the log are on; and the log holds no
/// address where it is to be anonymous.
pub proof fn law_recorded(
    f: FinishedView,
    stats_on: bool,
    log_on: bool,
    time_ms: i64,
    elapsed_us: u64,
    log: QueryLog,
)
    ensures
        !stats_on && !log_on ==> pipeline::entry_of(f, stats_on, log_on, time_ms, elapsed_us)
            is None,
        stats_on || log_on ==> (pipeline::entry_of(f, stats_on, log_on, time_ms, elapsed_us)
            matches Some(e) && e.client_ip == net::ip_text(f.log.client_ip) && e.question
            == f.log.question && e.qtype == f.log.qtype && e.action == f.action && e.allowlisted
            == f.log.allowlisted && e.time_ms == time_ms && e.elapsed_us == elapsed_us && (f.rcode
            == 0 ==> e.rcode == "NOERROR"@) && (f.rcode == 2 ==> e.rcode == "SERVFAIL"@) && (f.rcode
            == 3 ==> e.rcode == "NXDOMAIN"@) && (f.rcode == 5 ==> e.rcode == "REFUSED"@)),
        pipeline::entry_of(f, stats_on, log_on, time_ms, elapsed_us) matches Some(e) ==> {
            &&& log.enabled && log.attached && !log.anonymize ==> querylog::offered(log, e) == Some(
                e,
            )
            &&& log.enabled && log.attached && log.anonymize ==> querylog::offered(log, e) == Some(
                querylog::EntryView { client_ip: Seq::empty(), ..e },
            )
            &&& !log.enabled || !log.attached ==> querylog::offered(log, e) is None
        },
{
}

/// Whether a configured client names an address as one of its own.
pub open spec fn owns(c: ClientConfig, ip: IpAddr) -> bool {
    exists|k: int|
        0 <= k < c.ids@.len() && net::ip_of_text((#[trigger] c.ids@[k])@) == Some(ip)
}

/// The first client that names an address as its own is the client behind it, with its
/// name, its tags and its settings.
pub proof fn law_own_address(configured: Seq<ClientConfig>, i: int, ip: IpAddr)
    requires
        0 <= i < configured.len(),
        owns(configured[i], ip),
        forall|j: int| 0 <= j < i ==> !owns(#[trigger] configured[j], ip),
    ensures
        ({
            let r = clients::resolved(clients::matcher_of(configured), ip);
            &&& r.ip == ip
            &&& r.name == Some(configured[i].name@)
            &&& r.tags == text::texts(configured[i].tags@)
            &&& r.filtering_enabled == configured[i].filtering_enabled
        }),
{
    lemma_hosts(configured, ip);
    lemma_entries(configured);
}

/// The client that an address stands with, if any.
proof fn lemma_hosts(configured: Seq<ClientConfig>, ip: IpAddr)
    ensures
        ({
            let m = clients::matcher_of(configured);
            &&& m.hosts.dom().contains(ip) <==> exists|j: int|
                0 <= j < configured.len() && owns(#[trigger] configured[j], ip)
            &&& m.hosts.dom().contains(ip) ==> 0 <= m.hosts[ip] < configured.len() && owns(
                configured[m.hosts[ip]],
                ip,
            ) && forall|j: int| 0 <= j < m.hosts[ip] ==> !owns(#[trigger] configured[j], ip)
        }),
    decreases configured.len(),
{
    if configured.len() > 0 {
        let rest = configured.drop_last();
        let c = configured.last();
        lemma_hosts(rest, ip);
        let before = clients::matcher_of(rest);
        lemma_with_hosts(before.hosts, text::texts(c.ids@), configured.len() - 1, ip);
        let ids = text::texts(c.ids@);
        assert(owns(c, ip) <==> exists|k: int|
            0 <= k < ids.len() && net::ip_of_text(#[trigger] ids[k]) == Some(ip)) by {
            if owns(c, ip) {
                let k = choose|k: int|
                    0 <= k < c.ids@.len() && net::ip_of_text((#[trigger] c.ids@[k])@) == Some(ip);
                assert(net::ip_of_text(ids[k]) == Some(ip));
            }
            if exists|k: int| 0 <= k < ids.len() && net::ip_of_text(#[trigger] ids[k]) == Some(ip) {
                let k = choose|k: int|
                    0 <= k < ids.len() && net::ip_of_text(#[trigger] ids[k]) == Some(ip);
                assert(net::ip_of_text(c.ids@[k]@) == Some(ip));
            }
        }
        assert(configured[configured.len() - 1] == c);
        assert(forall|j: int| 0 <= j < rest.len() ==> #[trigger] rest[j] == configured[j]);
        if exists|j: int| 0 <= j < rest.len() && owns(#[trigger] rest[j], ip) {
            let j = choose|j: int| 0 <= j < rest.len() && owns(#[trigger] rest[j], ip);
            assert(owns(configured[j], ip));
        }
        if exists|j: int| 0 <= j < configured.len() && owns(#[trigger] configured[j], ip) {
            let j = choose|j: int| 0 <= j < configured.len() && owns(#[trigger] configured[j], ip);
            if j < rest.len() {
                assert(owns(rest[j], ip));
            }
        }
        if before.hosts.dom().contains(ip) {
            let at = before.hosts[ip];
            assert(rest[at] == configured[at]);
            assert forall|j: int| 0 <= j < at implies !owns(#[trigger] configured[j], ip) by {
                assert(rest[j] == configured[j]);
            }
        } else {
            assert forall|j: int| 0 <= j < configured.len() - 1 implies !owns(
                #[trigger] configured[j],
                ip,
            ) by {
                assert(!owns(rest[j], ip));
            }
        }
    }
}

proof fn lemma_with_hosts(hosts: Map<IpAddr, int>, ids: Seq<Seq<char>>, idx: int, ip: IpAddr)
    ensures
        ({
            let after = clients::with_hosts(hosts, ids, idx);
            &&& after.dom().contains(ip) <==> hosts.dom().contains(ip) || exists|k: int|
                0 <= k < ids.len() && net::ip_of_text(#[trigger] ids[k]) == Some(ip)
            &&& hosts.dom().contains(ip) ==> after[ip] == hosts[ip]
            &&& !hosts.dom().contains(ip) && after.dom().contains(ip) ==> after[ip] == idx
        }),
    decreases ids.len(),
{
    if ids.len() > 0 {
        let rest = ids.drop_last();
        lemma_with_hosts(hosts, rest, idx, ip);
        assert(ids[ids.len() - 1] == ids.last());
        if exists|k: int| 0 <= k < rest.len() && net::ip_of_text(#[trigger] rest[k]) == Some(ip) {
            let k = choose|k: int|
                0 <= k < rest.len() && net::ip_of_text(#[trigger] rest[k]) == Some(ip);
            assert(ids[k] == rest[k]);
        }
        if exists|k: int| 0 <= k < ids.len() && net::ip_of_text(#[trigger] ids[k]) == Some(ip) {
            let k = choose|k: int|
                0 <= k < ids.len() && net::ip_of_text(#[trigger] ids[k]) == Some(ip);
            if k < rest.len() {
                assert(rest[k] == ids[k]);
            }
        }
    }
}

/// The entries are the configured clients, one by one.
proof fn lemma_entries(configured: Seq<ClientConfig>)
    ensures
        ({
            let m = clients::matcher_of(configured);
            &&& m.entries.len() == configured.len()
            &&& forall|i: int|
                0 <= i < configured.len() ==> (#[trigger] m.entries[i]).name == configured[i].name@
                    && m.entries[i].tags == text::texts(configured[i].tags@)
                    && m.entries[i].filtering_enabled == configured[i].filtering_enabled
        }),
    decreases configured.len(),
{
    if configured.len() > 0 {
        lemma_entries(configured.drop_last());
    }
}

/// Without clients that name it or a network around it, an address is that of a client
/// without a name and without tags, and is filtered.
pub proof fn law_unknown_address(configured: Seq<ClientConfig>, ip: IpAddr)
    requires
        forall|j: int| 0 <= j < configured.len() ==> !owns(#[trigger] configured[j], ip),
        forall|j: int, k: int|
            0 <= j < configured.len() && 0 <= k < configured[j].ids@.len() ==> (net::net_of_text(
                (#[trigger] configured[j].ids@[k])@,
            ) matches Some((addr, len)) ==> !(net::NetView { addr, prefix_len: len as int }).holds(
                ip,
            )),
    ensures
        ({
            let r = clients::resolved(clients::matcher_of(configured), ip);
            r.ip == ip && r.name is None && r.tags.len() == 0 && r.filtering_enabled
        }),
{
    lemma_hosts(configured, ip);
    let m = clients::matcher_of(configured);
    assert(!m.hosts.dom().contains(ip));
    lemma_no_net(configured, ip);
}

proof fn lemma_no_net(configured: Seq<ClientConfig>, ip: IpAddr)
    requires
        forall|j: int, k: int|
            0 <= j < configured.len() && 0 <= k < configured[j].ids@.len() ==> (net::net_of_text(
                (#[trigger] configured[j].ids@[k])@,
            ) matches Some((addr, len)) ==> !(net::NetView { addr, prefix_len: len as int }).holds(
                ip,
            )),
    ensures
        clients::best_net(clients::matcher_of(configured).entries, ip) == -1,
    decreases configured.len(),
{
    if configured.len() > 0 {
        let rest = configured.drop_last();
        assert forall|j: int, k: int|
            0 <= j < rest.len() && 0 <= k < rest[j].ids@.len() implies (net::net_of_text(
            (#[trigger] rest[j].ids@[k])@,
        ) matches Some((addr, len)) ==> !(net::NetView { addr, prefix_len: len as int }).holds(
            ip,
        )) by {
            assert(rest[j] == configured[j]);
            assert(configured[j].ids@[k] == rest[j].ids@[k]);
        }
        lemma_no_net(rest, ip);
        let m = clients::matcher_of(configured);
        let c = configured.last();
        assert(m.entries.drop_last() =~= clients::matcher_of(rest).entries);
        let ids = text::texts(c.ids@);
        assert forall|k: int| 0 <= k < ids.len() implies (net::net_of_text(#[trigger] ids[k])
            matches Some((addr, len)) ==> !(net::NetView { addr, prefix_len: len as int }).holds(
            ip,
        )) by {
            assert(configured[configured.len() - 1].ids@[k]@ == ids[k]);
        }
        lemma_nets(ids, ip);
    }
}

proof fn lemma_nets(ids: Seq<Seq<char>>, ip: IpAddr)
    requires
        forall|k: int| 0 <= k < ids.len() ==> (net::net_of_text(#[trigger] ids[k]) matches Some(
            (addr, len),
        ) ==> !(net::NetView { addr, prefix_len: len as int }).holds(ip)),
    ensures
        clients::longest_prefix(clients::nets_of(ids), ip) == -1,
    decreases ids.len(),
{
    if ids.len() > 0 {
        let rest = ids.drop_last();
        assert(forall|k: int| 0 <= k < rest.len() ==> #[trigger] rest[k] == ids[k]);
        lemma_nets(rest, ip);
        assert(ids[ids.len() - 1] == ids.last());
        let nets = clients::nets_of(ids);
        let before = clients::nets_of(rest);
        if nets != before {
            assert(nets.drop_last() =~= before);
        }
    }
}

/// Bytes are a query where the short way or the long way of reading them finds a message;
/// where both do, they are taken as the short way has them.
pub proof fn law_ingress(bytes: Seq<u8>)
    ensures
        ingress::ingress_of(bytes) is None <==> wire::query_of(bytes) is None
            && crate::message::wire_message(bytes) is Err,
        wire::query_of(bytes) matches Some(q) ==> (ingress::ingress_of(bytes) matches Some(i)
            && ingress::source_of(i) == LazyView::Bytes(bytes) && (ingress::fields_of(i) matches Some(
            f,
        ) && f.qname == q.qname && f.id == q.id as u16 && f.key.rtype == q.qtype as u16
            && f.key.dnssec_ok == q.dnssec_ok && f.key.checking_disabled == q.checking_disabled)),
        wire::query_of(bytes) is None ==> (crate::message::wire_message(bytes) matches Ok(m) ==> (
        ingress::ingress_of(bytes) matches Some(i) && ingress::source_of(i) == LazyView::Msg(m))),
{
}

/// A refresh is counted once, a failed one once more as such, and neither changes what is
/// cached. What is refreshed keeps a verdict only where verdicts hold for all.
pub proof fn law_refreshes(c: CacheView, rules: Seq<BuildView>, answers: Seq<Record>)
    requires
        c.counts.refreshes < u64::MAX && c.counts.refresh_failures < u64::MAX,
    ensures
        ({
            let (on, failed) = (pipeline::refreshing(c), pipeline::refresh_failed(c));
            &&& on.counts.refreshes == c.counts.refreshes + 1 && on.kept == c.kept
            &&& on.counts.hits == c.counts.hits && on.counts.refresh_failures
                == c.counts.refresh_failures
            &&& failed.counts.refresh_failures == c.counts.refresh_failures + 1 && failed.kept
                == c.kept
            &&& failed.counts.refreshes == c.counts.refreshes
            &&& pipeline::refreshed_verdict(rules, false, answers) is None
            &&& pipeline::refreshed_verdict(rules, true, answers) matches Some(v) && v.block
                == pipeline::answers_block(
                rules,
                ClientView {
                    ip: Some(IpAddr::V4(net::Ipv4Addr { bits: 0 })),
                    name: None,
                    tags: Seq::empty(),
                },
                answers,
            )
        }),
{
}

/// The name of the client behind an address is the one that its queries are judged under.
pub proof fn law_one_name(m: clients::MatcherView, ip: IpAddr)
    ensures
        clients::name_behind(m, ip) == clients::resolved(m, ip).name,
{
}

/// Caches for as many processors as there are: 8 to 64, a power of two, and no fewer than
/// processors up to that; together they hold no more than the total, and each holds one.
pub proof fn law_cache_shares(cpus: usize, total: usize, caches: usize)
    requires
        caches > 0,
    ensures
        ({
            let n = cache::shards_for(cpus);
            &&& n == 8 || n == 16 || n == 32 || n == 64
            &&& cpus <= 64 ==> cpus <= n
            &&& n > 8 ==> n < 2 * cpus
        }),
        cache::share_of(total, caches) >= 1,
        caches <= total ==> cache::share_of(total, caches) * caches <= total < (cache::share_of(
            total,
            caches,
        ) + 1) * caches,
{
    let (all, parts) = (total as int, caches as int);
    let q = all / parts;
    let over = all % parts;
    vstd::arithmetic::div_mod::lemma_fundamental_div_mod(all, parts);
    assert(q * parts <= all < (q + 1) * parts) by (nonlinear_arith)
        requires
            all == parts * q + over,
            0 <= over < parts,
    ;
    if caches <= total && q == 0 {
        assert(all < parts) by (nonlinear_arith)
            requires
                q == 0,
                all < (q + 1) * parts,
        ;
    }
}

/// What is cached of a response, and served from it: the bytes of the response with the id
/// of the query and the given TTL in each record but that of EDNS, and with every other
/// byte as it was.
pub proof fn law_served_bytes(
    cfg: CacheConfig,
    m: MessageView,
    bytes: Seq<u8>,
    fields: Seq<int>,
    id: u16,
    ttl: u32,
)
    requires
        crate::message::message_wire(m) == Ok::<Seq<u8>, Seq<char>>(bytes),
        wire::message_records(bytes) == Some(fields),
        bytes.len() <= u32::MAX,
    ensures
        cache::served(cache::stored_form(cfg, m), id, ttl) matches CachedView::Wire {
            bytes: out,
            rcode,
            answers,
        } && {
            &&& rcode == m.response_code
            &&& cfg.store_summaries ==> answers.len() == m.answers.len()
            &&& !cfg.store_summaries ==> answers.len() == 0
            &&& out.len() == bytes.len()
            &&& out[0] * 256 + out[1] == id
            &&& forall|k: int|
                0 <= k < fields.len() && bytes[#[trigger] fields[k]] * 256 + bytes[fields[k] + 1]
                    != 41 ==> wire::be32(out, fields[k] + 4) == ttl
        },
{
    wire::law_patch_scanned(bytes, id, ttl);
    let offsets = wire::ttl_offsets(bytes, fields);
    assert(cache::scanned_offsets(bytes) is Some);
    let out = wire::with_ttls(
        wire::with_id(bytes, id),
        ttl,
        offsets.map_values(|o: int| o as u32),
    );
    assert(wire::be16(out, 0) == id);
    assert forall|k: int|
        0 <= k < fields.len() && bytes[#[trigger] fields[k]] * 256 + bytes[fields[k] + 1] != 41
        implies wire::be32(out, fields[k] + 4) == ttl by {
        assert(!wire::is_opt(bytes, fields[k]));
    }
}

/// A cached answer that a rule blocks is not handed out: the client gets a block that names
/// the rule, and a stale answer is refreshed all the same.
pub proof fn law_cached_block(
    f: FinishedView,
    refresh: Option<RefreshView>,
    state: EngineState,
    p: PendingView,
    hit: HitView,
    query: MessageView,
)
    requires
        pipeline::hits(f, refresh, state, p, hit),
        pipeline::hit_block(state, p.client, hit) is Some,
        ingress::message_in(p.lazy) == Some(query),
    ensures
        ({
            let info = pipeline::hit_block(state, p.client, hit)->0;
            &&& f.action == ActionView::Blocked(info.rule, info.list_id) && f.log == p.log
            &&& f.response matches ResponseView::Message(m) && m.id == query.id && m.queries
                == query.queries
            &&& refresh is Some <==> hit.freshness == HitFreshness::Stale
        }),
{
}

/// A name in a query is looked up in small letters, and logged as it came.
pub proof fn law_name_is_small(q: crate::engine::wire::QueryView, bytes: Seq<u8>)
    ensures
        ingress::fields_of(ingress::IngressView::Fast { bytes, parsed: q }) matches Some(f)
            && f.qname == q.qname && written::is_small(f.key.name, q.qname) && f.key.class
            == q.qclass as u16,
{
    written::lemma_small(q.qname);
}

/// What is saved of a cache is what can still be served: each encoded answer whose TTL and
/// serve-stale window have not both passed, with the age it has.
pub proof fn law_saved(key: KeyView, e: EntryView, window: u32, now: u64)
    requires
        e.stored_at <= now < e.stored_at + 1000 * 0xffff_ffff,
        e.ttl + window <= u32::MAX,
    ensures
        e.stored is Wire && now - e.stored_at < 1000 * (e.ttl + window) ==> (snapshot::saved_of(
            key,
            e,
            window,
            now,
        ) matches Some(v) && v.key == key && v.ttl == e.ttl && 1000 * v.age <= now - e.stored_at
            < 1000 * (v.age + 1)),
        e.stored is Message || now - e.stored_at >= 1000 * (e.ttl + window) ==> snapshot::saved_of(
            key,
            e,
            window,
            now,
        ) is None,
{
}

/// A rule about an address blocks the responses that hint at it, too.
pub proof fn law_blocked_hint(
    b: BuildView,
    client: ClientView,
    answers: Seq<Record>,
    i: int,
    hints: Seq<Seq<IpAddr>>,
    j: int,
    k: int,
    d: Seq<char>,
)
    requires
        b.rule.action == Action::Block,
        b.rule.mods is None,
        0 <= i < answers.len(),
        answers[i]@.data == DataView::Service(hints),
        0 <= j < hints.len(),
        0 <= k < hints[j].len(),
        ({
            let shown = net::ip_text(hints[j][k]);
            shown.len() > 0 && shown.last() != '.' && written::is_small(d, shown)
        }),
        b.rule.pattern == PatternView::Exact(d),
    ensures
        pipeline::answers_block(seq![b], client, answers) is Some,
{
    let rules = seq![b];
    matching::law_one_rule(b, net::ip_text(hints[j][k]), d, "HTTPS"@, client);
    lemma_address_found(rules, client, hints[j], k);
    lemma_hint_found(rules, client, hints, j);
    pipeline::law_any_blocked_answer_blocks(rules, client, answers);
}

proof fn lemma_address_found(
    rules: Seq<BuildView>,
    client: ClientView,
    ips: Seq<IpAddr>,
    k: int,
)
    requires
        0 <= k < ips.len(),
        pipeline::block_in(pipeline::judge(rules, net::ip_text(ips[k]), "HTTPS"@, client)) is Some,
    ensures
        pipeline::addresses_block(rules, client, ips) is Some,
    decreases k,
{
    if k > 0 {
        assert(ips.drop_first()[k - 1] == ips[k]);
        lemma_address_found(rules, client, ips.drop_first(), k - 1);
    }
}

proof fn lemma_hint_found(
    rules: Seq<BuildView>,
    client: ClientView,
    hints: Seq<Seq<IpAddr>>,
    j: int,
)
    requires
        0 <= j < hints.len(),
        pipeline::addresses_block(rules, client, hints[j]) is Some,
    ensures
        pipeline::hints_block(rules, client, hints) is Some,
    decreases j,
{
    if j > 0 {
        assert(hints.drop_first()[j - 1] == hints[j]);
        lemma_hint_found(rules, client, hints.drop_first(), j - 1);
    }
}

/// A lookup changes nothing of what is cached for other questions.
pub proof fn law_lookup_keeps_others(c: CacheView, key: KeyView, other: KeyView, now: u64)
    requires
        other != key,
    ensures
        lru_store::lookup(cache::after_get(c, key, now).kept, other) == lru_store::lookup(
            c.kept,
            other,
        ),
{
    lru_store::lemma_lookup_without(c.kept, key, other);
    if let Some(e) = lru_store::lookup(c.kept, key) {
        let rest = lru_store::without(c.kept, key);
        let moved = seq![(key, e)] + rest;
        assert(moved[0].0 == key);
        assert(moved.drop_first() =~= rest);
    }
}

/// A query that was read as a whole message is looked up under its question, and logged
/// under the name it asked for.
pub proof fn law_whole_message(m: MessageView)
    requires
        m.queries.len() > 0,
    ensures
        ingress::fields_of(ingress::IngressView::Full(m)) matches Some(f) && f.id == m.id && Some(
            f.key,
        ) == crate::upstream::transport::key_of(m) && f.qname == crate::message::question_of(
            m.queries[0],
        ).name && written::is_small(f.key.name, f.qname),
{
    written::lemma_small(crate::message::question_of(m.queries[0]).name);
}

/// The time between a snapshot and its reading, in whole seconds of the calendar; none
/// where the calendar went back.
pub proof fn law_time_between(then: u64, now: u64)
    ensures
        now >= then ==> snapshot::elapsed_between(then, now) == now - then,
        now < then ==> snapshot::elapsed_between(then, now) == 0,
{
}

/// A cache that is switched off finds nothing, keeps nothing and counts nothing.
pub proof fn law_switched_off(
    c: CacheView,
    key: KeyView,
    m: MessageView,
    verdict: Option<ResponseVerdictView>,
    id: u16,
    now: u64,
)
    requires
        !c.cfg.enabled,
    ensures
        cache::hit_of(c, key, id, now) is None,
        cache::after_get(c, key, now) == c,
        cache::after_insert(c, key, m, verdict, now) == c,
{
}

/// What is logged of each answer is its type and what it says.
pub proof fn law_logged_answers(v: Seq<Record>, i: int)
    requires
        0 <= i < v.len(),
    ensures
        cache::summaries(v).len() == v.len(),
        crate::message::rdata_text(v[i].data) matches Some(says) ==> cache::summaries(v)[i]
            == crate::message::rtype_text(crate::message::data_type(v[i].data)) + seq![' '] + says,
{
    reveal_strlit(" ");
    assert(" "@ =~= seq![' ']);
}

} // verus!
