//! What holds of the match between a rule and a query.

use vstd::prelude::*;

use crate::filter::engine;
use crate::filter::engine::VerdictView;
use crate::filter::laws;
use crate::filter::list;
use crate::filter::parser;
use crate::filter::parser::{ErrorView, ParsedView};
use crate::filter::rule::{
    Action, BuildView, ClientMatchView, ClientView, ModsView, PatternView, RuleView,
};
use crate::filter::written;
use crate::text;

verus! {

/// Whether a name is the domain `base` or has something and a dot in front of it.
pub open spec fn is_under(d: Seq<char>, base: Seq<char>) -> bool {
    d == base || exists|front: Seq<char>| d == #[trigger] (front.push('.') + base)
}

/// A domain covers itself and what ends in a dot and the domain, and nothing else.
pub proof fn law_subdomains(d: Seq<char>, base: Seq<char>)
    ensures
        engine::subdomain_of(d, base) <==> is_under(d, base),
{
    if engine::subdomain_of(d, base) && d != base {
        let n = d.len() - base.len() - 1;
        let front = d.take(n);
        assert(front.push('.') + base =~= d) by {
            assert(d.skip(n + 1) == base);
            assert forall|i: int| 0 <= i < base.len() implies base[i] == d[n + 1 + i] by {
                assert(d.skip(n + 1)[i] == d[n + 1 + i]);
            }
        }
    }
    if d != base && is_under(d, base) {
        let front = choose|front: Seq<char>| d == #[trigger] (front.push('.') + base);
        assert(d.skip(d.len() - base.len()) =~= base);
        assert(d[d.len() - base.len() - 1] == '.');
    }
}

/// Whether an entry of a client list is about a client.
pub open spec fn is_about(m: ClientMatchView, client: ClientView) -> bool {
    match m {
        ClientMatchView::Ip(a) => client.ip == Some(a),
        ClientMatchView::Name(n) => client.name == Some(n),
        ClientMatchView::Net(n) => client.ip matches Some(a) && n.holds(a),
    }
}

/// Whether the modifiers of a rule agree with a query: its record type, its client, the
/// tags of its client and its name are each among what is asked for, where anything is,
/// and never among what is left out.
pub open spec fn agrees(
    m: ModsView,
    action: Action,
    d: Seq<char>,
    rtype: Seq<char>,
    client: ClientView,
) -> bool {
    &&& m.dnstype matches Some(f) ==> !f.excluded.contains(rtype) && (f.included.len() == 0
        || f.included.contains(rtype))
    &&& m.client matches Some(f) ==> (forall|i: int|
        0 <= i < f.excluded.len() ==> !is_about(#[trigger] f.excluded[i], client)) && (
    f.included.len() == 0 || exists|i: int|
        0 <= i < f.included.len() && is_about(#[trigger] f.included[i], client))
    &&& m.ctag matches Some(f) ==> (forall|i: int|
        0 <= i < f.excluded.len() ==> !client.tags.contains(#[trigger] f.excluded[i])) && (
    f.included.len() == 0 || exists|i: int|
        0 <= i < f.included.len() && client.tags.contains(#[trigger] f.included[i]))
    &&& action == Action::Allow || forall|i: int|
        0 <= i < m.denyallow.len() ==> !is_under(d, #[trigger] m.denyallow[i])
}

/// The modifiers of a rule let it act on the queries that they agree with.
pub proof fn law_modifiers_agree(
    r: RuleView,
    d: Seq<char>,
    rtype: Seq<char>,
    client: ClientView,
)
    ensures
        engine::applicable(r, d, rtype, client) <==> (r.mods matches Some(m) ==> agrees(
            m,
            r.action,
            d,
            rtype,
            client,
        )),
{
    if let Some(m) = r.mods {
        assert forall|i: int| 0 <= i < m.denyallow.len() implies engine::subdomain_of(
            d,
            #[trigger] m.denyallow[i],
        ) == is_under(d, m.denyallow[i]) by {
            law_subdomains(d, m.denyallow[i]);
        }
        if let Some(f) = m.client {
            assert(forall|i: int|
                0 <= i < f.excluded.len() ==> is_about(#[trigger] f.excluded[i], client)
                    == f.excluded[i].names(client));
            assert(forall|i: int|
                0 <= i < f.included.len() ==> is_about(#[trigger] f.included[i], client)
                    == f.included[i].names(client));
        }
    }
}

/// A rule about a name or a domain alone decides about a query where the name is that
/// name or under that domain, in any case of its letters, and the modifiers agree; and
/// the verdict is the rule's. Otherwise the query is let through, with no rule to name.
pub proof fn law_one_rule(
    b: BuildView,
    name: Seq<char>,
    d: Seq<char>,
    rtype: Seq<char>,
    client: ClientView,
)
    requires
        name.len() > 0 && name.last() != '.',
        written::is_small(d, name),
        b.rule.pattern is Exact || b.rule.pattern is Subdomain,
        engine::is_complete(b.rule),
    ensures
        ({
            let rules = seq![b];
            let r = b.rule;
            let hit = match r.pattern {
                PatternView::Exact(e) => d == e,
                PatternView::Subdomain(base) => is_under(d, base),
                _ => false,
            } && (r.mods matches Some(m) ==> agrees(m, r.action, d, rtype, client));
            let verdict = engine::verdict_of(
                rules,
                engine::deciding(rules, engine::query_name(name), rtype, client),
            );
            &&& !hit ==> verdict == VerdictView::Allow(None)
            &&& hit ==> match r.action {
                Action::Block => verdict matches VerdictView::Block(i) && i.list_id == r.list_id
                    && i.rule_id == 0 && (text::utf8_len(r.raw) <= 65535 ==> i.rule == r.raw),
                Action::Allow => verdict matches VerdictView::Allow(Some(i)) && i.list_id
                    == r.list_id && i.rule_id == 0 && (text::utf8_len(r.raw) <= 65535 ==> i.rule
                    == r.raw),
                Action::Rewrite => verdict matches VerdictView::Rewrite(i, data) && i.list_id
                    == r.list_id && i.rule_id == 0 && (text::utf8_len(r.raw) <= 65535 ==> i.rule
                    == r.raw) && (r.mods matches Some(m) && m.rewrite == Some(data)),
            }
        }),
{
    let rules = seq![b];
    assert(text::strip_end(name, '.') == name);
    written::lemma_small(name);
    assert(engine::query_name(name) == d);
    laws::law_decider_ranks_highest(rules, d, rtype, client);
    law_modifiers_agree(b.rule, d, rtype, client);
    if let PatternView::Subdomain(base) = b.rule.pattern {
        law_subdomains(d, base);
    }
    assert(rules[0] == b);
    assert(!laws::is_indexed(b.rule));
}

/// Every rule that a line of a list gives is one of the list's rules, with the number of
/// the list and everything else as the line has it.
pub proof fn law_every_line_counts(
    lines: Seq<Seq<char>>,
    list_id: u32,
    k: int,
    rules: Seq<BuildView>,
    j: int,
)
    requires
        0 <= k < lines.len(),
        parser::parsed(lines[k]) == Ok::<ParsedView, ErrorView>(ParsedView::Rules(rules)),
        0 <= j < rules.len(),
    ensures
        exists|i: int|
            0 <= i < list::lines_rules(lines, list_id).len() && ({
                let b = #[trigger] list::lines_rules(lines, list_id)[i];
                &&& b.rule.list_id == list_id
                &&& b.rule.raw == rules[j].rule.raw && b.rule.action == rules[j].rule.action
                &&& b.rule.pattern == rules[j].rule.pattern && b.rule.mods == rules[j].rule.mods
                &&& b.badfilter == rules[j].badfilter && b.signature == rules[j].signature
                &&& b.index_tokens == rules[j].index_tokens
            }),
    decreases lines.len(),
{
    let rest = lines.drop_last();
    let before = list::lines_rules(rest, list_id);
    let own = list::line_rules(lines.last(), list_id);
    let all = list::lines_rules(lines, list_id);
    assert(all == before + own);
    if k == lines.len() - 1 {
        assert(own[j] == list::in_list(rules[j], list_id));
        assert(all[before.len() + j] == own[j]);
    } else {
        assert(rest[k] == lines[k]);
        law_every_line_counts(rest, list_id, k, rules, j);
        let i = choose|i: int|
            0 <= i < before.len() && ({
                let b = #[trigger] before[i];
                &&& b.rule.list_id == list_id
                &&& b.rule.raw == rules[j].rule.raw && b.rule.action == rules[j].rule.action
                &&& b.rule.pattern == rules[j].rule.pattern && b.rule.mods == rules[j].rule.mods
                &&& b.badfilter == rules[j].badfilter && b.signature == rules[j].signature
                &&& b.index_tokens == rules[j].index_tokens
            });
        assert(all[i] == before[i]);
    }
}

/// What is not cancelled and is the first of its signature stays.
proof fn lemma_first_stays(rules: Seq<BuildView>, bad: Set<Seq<char>>, i: int)
    requires
        0 <= i < rules.len(),
        !bad.contains(rules[i].signature),
        forall|j: int| 0 <= j < i ==> (#[trigger] rules[j]).signature != rules[i].signature,
    ensures
        list::deduplicated(rules.filter(|b: BuildView| !bad.contains(b.signature))).contains(
            rules[i],
        ),
    decreases rules.len(),
{
    let good = |b: BuildView| !bad.contains(b.signature);
    let rest = rules.drop_last();
    let kept = rest.filter(good);
    reveal(Seq::filter);
    let now = rules.filter(good);
    assert(now == if good(rules.last()) {
        kept.push(rules.last())
    } else {
        kept
    });
    let before = list::deduplicated(kept);
    let after = list::deduplicated(now);
    if good(rules.last()) {
        assert(now.drop_last() =~= kept);
        assert(now.last() == rules.last());
    }
    if i < rest.len() {
        assert(rest[i] == rules[i]);
        assert forall|j: int| 0 <= j < i implies (#[trigger] rest[j]).signature
            != rest[i].signature by {
            assert(rest[j] == rules[j]);
        }
        lemma_first_stays(rest, bad, i);
        let k = choose|k: int| 0 <= k < before.len() && before[k] == rules[i];
        assert(after[k] == rules[i]);
    } else {
        assert(rules.last() == rules[i]);
        if list::has_signature(kept, rules[i].signature) {
            let k = choose|k: int|
                0 <= k < kept.len() && (#[trigger] kept[k]).signature == rules[i].signature;
            lemma_from(rest, good, kept[k]);
            let j = choose|j: int| 0 <= j < rest.len() && rest[j] == kept[k];
            assert(rules[j] == rest[j]);
        }
        assert(after == before.push(rules[i]));
        assert(after[before.len() as int] == rules[i]);
    }
}

/// What a filter keeps was there.
proof fn lemma_from(s: Seq<BuildView>, p: spec_fn(BuildView) -> bool, x: BuildView)
    requires
        s.filter(p).contains(x),
    ensures
        s.contains(x),
    decreases s.len(),
{
    reveal(Seq::filter);
    if s.len() > 0 {
        let rest = s.drop_last();
        let k = choose|k: int| 0 <= k < s.filter(p).len() && s.filter(p)[k] == x;
        if k < rest.filter(p).len() {
            assert(rest.filter(p)[k] == x);
            lemma_from(rest, p, x);
            let j = choose|j: int| 0 <= j < rest.len() && rest[j] == x;
            assert(s[j] == x);
        } else {
            assert(s[s.len() - 1] == x);
        }
    }
}

/// No rule that was read is lost: where one that is not cancelled, and is the first of its
/// signature, acts on a query, the query is decided by it or by one that counts no less
/// than it.
pub proof fn law_no_rule_is_lost(
    rules: Seq<BuildView>,
    bad: Set<Seq<char>>,
    i: int,
    d: Seq<char>,
    rtype: Seq<char>,
    client: ClientView,
)
    requires
        rules.len() <= usize::MAX,
        0 <= i < rules.len(),
        !bad.contains(rules[i].signature),
        forall|j: int| 0 <= j < i ==> (#[trigger] rules[j]).signature != rules[i].signature,
        laws::acts(rules[i].rule, d, rtype, client),
        laws::is_indexed(rules[i].rule) ==> laws::has_tokens_of(rules[i], d),
    ensures
        engine::deciding(list::in_force(rules, bad), d, rtype, client) matches Some(w) && {
            let decider = list::in_force(rules, bad)[w as int].rule;
            &&& rules[i].rule.important() ==> decider.important()
            &&& rules[i].rule.action == Action::Allow && !decider.important() ==> decider.action
                == Action::Allow
        },
{
    let good = |b: BuildView| !bad.contains(b.signature);
    let passed = rules.filter(good);
    let once = list::deduplicated(passed);
    lemma_first_stays(rules, bad, i);
    rules.lemma_filter_len(good);
    lemma_fewer(passed);
    let k = choose|k: int| 0 <= k < once.len() && once[k] == rules[i];
    laws::law_priority_order(once, d, rtype, client, k);
    laws::law_pruning_keeps_decisions(once, d, rtype, client);
}

proof fn lemma_fewer(rules: Seq<BuildView>)
    ensures
        list::deduplicated(rules).len() <= rules.len(),
    decreases rules.len(),
{
    if rules.len() > 0 {
        lemma_fewer(rules.drop_last());
    }
}

/// The first that passes a filter is the first that is kept.
proof fn lemma_first_kept(s: Seq<usize>, p: spec_fn(usize) -> bool, k: int)
    requires
        0 <= k < s.len(),
        p(s[k]),
        forall|j: int| 0 <= j < k ==> !p(#[trigger] s[j]),
    ensures
        s.filter(p).len() > 0,
        s.filter(p)[0] == s[k],
    decreases s.len(),
{
    reveal(Seq::filter);
    let rest = s.drop_last();
    if k < rest.len() {
        assert(rest[k] == s[k]);
        assert forall|j: int| 0 <= j < k implies !p(#[trigger] rest[j]) by {
            assert(rest[j] == s[j]);
        }
        lemma_first_kept(rest, p, k);
    } else {
        assert(rest.filter(p).len() == 0) by {
            assert forall|j: int| 0 <= j < rest.len() implies !p(#[trigger] rest[j]) by {
                assert(rest[j] == s[j]);
            }
            lemma_none_kept(rest, p);
        }
    }
}

proof fn lemma_none_kept(s: Seq<usize>, p: spec_fn(usize) -> bool)
    requires
        forall|j: int| 0 <= j < s.len() ==> !p(#[trigger] s[j]),
    ensures
        s.filter(p).len() == 0,
    decreases s.len(),
{
    reveal(Seq::filter);
    if s.len() > 0 {
        let rest = s.drop_last();
        assert(forall|j: int| 0 <= j < rest.len() ==> #[trigger] rest[j] == s[j]);
        lemma_none_kept(rest, p);
    }
}

/// The first candidate stays the winner until one counts more.
proof fn lemma_winner_stays(
    rules: Seq<BuildView>,
    ids: Seq<usize>,
    d: Seq<char>,
    rtype: Seq<char>,
    client: ClientView,
)
    requires
        ids.len() > 0,
        engine::applicable(rules[ids[0] as int].rule, d, rtype, client),
    ensures
        engine::winner(rules, ids, d, rtype, client) matches Some(w) && (w == ids[0]
            || rules[w as int].rule.priority() > rules[ids[0] as int].rule.priority()),
    decreases ids.len(),
{
    let rest = ids.drop_last();
    if rest.len() > 0 {
        assert(rest[0] == ids[0]);
        lemma_winner_stays(rules, rest, d, rtype, client);
    } else {
        assert(ids.last() == ids[0]);
        assert(engine::winner(rules, rest, d, rtype, client) is None);
    }
}

/// Of the rules that name just the name that is asked for, the one that was read first
/// decides, unless one that counts more acts on the query.
pub proof fn law_first_read_decides(
    rules: Seq<BuildView>,
    i: int,
    d: Seq<char>,
    rtype: Seq<char>,
    client: ClientView,
)
    requires
        rules.len() <= usize::MAX,
        0 <= i < rules.len(),
        rules[i].rule.pattern == PatternView::Exact(d),
        forall|j: int| 0 <= j < i ==> (#[trigger] rules[j]).rule.pattern != PatternView::Exact(d),
        rules[i].rule.mods matches Some(m) ==> agrees(m, rules[i].rule.action, d, rtype, client),
    ensures
        engine::deciding(rules, d, rtype, client) matches Some(w) && (w == i || {
            let (one, other) = (rules[w as int].rule, rules[i].rule);
            one.important() && !other.important() || (one.important() == other.important()
                && one.action == Action::Allow && other.action != Action::Allow)
        }),
{
    law_modifiers_agree(rules[i].rule, d, rtype, client);
    let p = PatternView::Exact(d);
    let test = |id: usize| rules[id as int].rule.pattern == p;
    let all = engine::all_ids(rules);
    assert(all[i] == i as usize);
    assert forall|j: int| 0 <= j < i implies !test(#[trigger] all[j]) by {
        assert(all[j] == j as usize);
        assert(rules[j].rule.pattern != p);
    }
    lemma_first_kept(all, test, i);
    let named = engine::ids_with(rules, p);
    assert(named[0] == i as usize);
    let ids = engine::first_candidates(rules, d);
    assert(ids[0] == named[0]);
    lemma_winner_stays(rules, ids, d, rtype, client);
    laws::law_decider_acts(rules, d, rtype, client);
}

/// How the lines of a list are counted: none counts as two things, and each count is zero
/// just where there is no such line.
pub proof fn law_line_counts(lines: Seq<Seq<char>>)
    ensures
        list::rule_line_count(lines) + list::unsupported_count(lines) + list::error_count(lines)
            <= lines.len(),
        list::unsupported_count(lines) > 0 <==> exists|i: int|
            0 <= i < lines.len() && (parser::parsed(#[trigger] lines[i]) matches Ok(p) && p
                is Unsupported),
        list::error_count(lines) > 0 <==> exists|i: int|
            0 <= i < lines.len() && parser::parsed(#[trigger] lines[i]) is Err,
    decreases lines.len(),
{
    if lines.len() > 0 {
        let rest = lines.drop_last();
        law_line_counts(rest);
        let n = lines.len() - 1;
        assert(lines[n] == lines.last());
        if exists|i: int|
            0 <= i < rest.len() && (parser::parsed(#[trigger] rest[i]) matches Ok(p) && p
                is Unsupported) {
            let i = choose|i: int|
                0 <= i < rest.len() && (parser::parsed(#[trigger] rest[i]) matches Ok(p) && p
                    is Unsupported);
            assert(lines[i] == rest[i]);
        }
        if exists|i: int| 0 <= i < rest.len() && parser::parsed(#[trigger] rest[i]) is Err {
            let i = choose|i: int|
                0 <= i < rest.len() && parser::parsed(#[trigger] rest[i]) is Err;
            assert(lines[i] == rest[i]);
        }
        if exists|i: int|
            0 <= i < lines.len() && (parser::parsed(#[trigger] lines[i]) matches Ok(p) && p
                is Unsupported) {
            let i = choose|i: int|
                0 <= i < lines.len() && (parser::parsed(#[trigger] lines[i]) matches Ok(p) && p
                    is Unsupported);
            if i < n {
                assert(rest[i] == lines[i]);
            }
        }
        if exists|i: int| 0 <= i < lines.len() && parser::parsed(#[trigger] lines[i]) is Err {
            let i = choose|i: int|
                0 <= i < lines.len() && parser::parsed(#[trigger] lines[i]) is Err;
            if i < n {
                assert(rest[i] == lines[i]);
            }
        }
    }
}

/// A `$badfilter` rule cancels its signature and does not act; every other rule acts.
pub proof fn law_badfilter(rules: Seq<BuildView>, i: int)
    requires
        0 <= i < rules.len(),
    ensures
        rules[i].badfilter ==> list::cancelled(rules).contains(rules[i].signature),
        !rules[i].badfilter ==> list::acting(rules).contains(rules[i]),
        forall|k: int|
            0 <= k < list::acting(rules).len() ==> !(#[trigger] list::acting(rules)[k]).badfilter,
        forall|sig: Seq<char>| #[trigger]
            list::cancelled(rules).contains(sig) ==> exists|j: int|
                0 <= j < rules.len() && (#[trigger] rules[j]).badfilter && rules[j].signature
                    == sig,
{
    let acts = |b: BuildView| !b.badfilter;
    lemma_all_pass(rules, acts);
    if acts(rules[i]) {
        lemma_passes(rules, acts, i);
    }
}

proof fn lemma_all_pass(s: Seq<BuildView>, p: spec_fn(BuildView) -> bool)
    ensures
        forall|k: int| 0 <= k < s.filter(p).len() ==> p(#[trigger] s.filter(p)[k]),
    decreases s.len(),
{
    reveal(Seq::filter);
    if s.len() > 0 {
        lemma_all_pass(s.drop_last(), p);
    }
}

proof fn lemma_passes(s: Seq<BuildView>, p: spec_fn(BuildView) -> bool, i: int)
    requires
        0 <= i < s.len(),
        p(s[i]),
    ensures
        s.filter(p).contains(s[i]),
    decreases s.len(),
{
    reveal(Seq::filter);
    let rest = s.drop_last();
    if i < rest.len() {
        assert(rest[i] == s[i]);
        lemma_passes(rest, p, i);
        let m = choose|m: int| 0 <= m < rest.filter(p).len() && rest.filter(p)[m] == s[i];
        assert(s.filter(p)[m] == s[i]);
    } else {
        assert(s.filter(p)[s.filter(p).len() - 1] == s[i]);
    }
}

} // verus!
