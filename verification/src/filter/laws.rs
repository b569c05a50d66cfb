//! What holds of the filter as a whole.

use vstd::prelude::*;

use crate::filter::engine;
use crate::filter::list;
use crate::filter::parser;
use crate::filter::regexes;
use crate::filter::rule::{Action, BuildView, ClientView, PatternView, RuleView};
use crate::filter::scan;
use crate::filter::token;
use crate::text;

verus! {

/// Whether a pattern matches a name.
pub open spec fn pattern_matches(p: PatternView, d: Seq<char>) -> bool {
    match p {
        PatternView::Exact(e) => e == d,
        PatternView::Subdomain(b) => engine::subdomain_of(d, b),
        PatternView::Wildcard(src) => regexes::regex_matches(src, d),
        PatternView::Regex(src) => regexes::regex_matches(src, d),
    }
}

/// Whether a rule has something to say about a query.
pub open spec fn acts(r: RuleView, d: Seq<char>, rtype: Seq<char>, client: ClientView) -> bool {
    pattern_matches(r.pattern, d) && engine::applicable(r, d, rtype, client)
}

/// Whether a rule is a wildcard or regex rule that cannot outrank a plain domain
/// block. These alone are indexed by tokens.
pub open spec fn is_indexed(r: RuleView) -> bool {
    scan::source_of(r.pattern) is Some && !engine::overrides(r)
}

/// Whether the name `d` has all the tokens that a rule can be indexed under, so
/// that the index leads from the name to the rule. A regex rule has no such
/// tokens, and the index leads to it from every name.
pub open spec fn has_tokens_of(b: BuildView, d: Seq<char>) -> bool {
    forall|t: u32| #[trigger]
        b.index_tokens.contains(t) ==> token::query_tokens(d).contains(t)
}

/// Whether the rule `i` matches the name `d` and is looked at for it: an indexed
/// rule only where `d` has the token that it is indexed under.
spec fn considered(rules: Seq<BuildView>, i: int, d: Seq<char>) -> bool {
    &&& pattern_matches(rules[i].rule.pattern, d)
    &&& is_indexed(rules[i].rule) ==> (scan::rarest(
        rules,
        engine::scan_ids(rules, false),
        rules[i].index_tokens,
    ) matches Some(t) ==> token::query_tokens(d).contains(t))
}

/// The names that a subdomain rule must name to match: the name and what
/// stands after each of its dots.
proof fn lemma_suffixes(d: Seq<char>, i: int, b: Seq<char>)
    requires
        0 <= i <= d.len(),
    ensures
        engine::suffixes_from(d, i).contains(b) <==> b == d.skip(i) || exists|j: int|
            i <= j < d.len() && #[trigger] d[j] == '.' && b == d.skip(j + 1),
    decreases d.len() - i,
{
    let e = text::find_from(d, '.', i);
    text::lemma_find(d, '.', i);
    let all = engine::suffixes_from(d, i);
    if e < d.len() {
        lemma_suffixes(d, e + 1, b);
        let rest = engine::suffixes_from(d, e + 1);
        assert(all == seq![d.skip(i)] + rest);
        if b == d.skip(i) {
            assert(all[0] == b);
        }
        if rest.contains(b) {
            let k = choose|k: int| 0 <= k < rest.len() && rest[k] == b;
            assert(all[k + 1] == b);
            if b == d.skip(e + 1) {
                assert(d[e] == '.');
            }
        }
        if all.contains(b) {
            let k = choose|k: int| 0 <= k < all.len() && all[k] == b;
            if k > 0 {
                assert(rest[k - 1] == b);
            }
        }
        if exists|j: int| i <= j < d.len() && #[trigger] d[j] == '.' && b == d.skip(j + 1) {
            let j = choose|j: int| i <= j < d.len() && #[trigger] d[j] == '.' && b == d.skip(j + 1);
            if j > e {
                assert(e + 1 <= j < d.len() && d[j] == '.' && b == d.skip(j + 1));
            }
        }
    } else {
        assert(all == seq![d.skip(i)]);
        if b == d.skip(i) {
            assert(all[0] == b);
        }
    }
}

/// A subdomain rule is found exactly for its domain and the names below it.
proof fn lemma_suffix_iff_subdomain(d: Seq<char>, b: Seq<char>)
    ensures
        engine::suffixes_from(d, 0).contains(b) <==> engine::subdomain_of(d, b),
{
    lemma_suffixes(d, 0, b);
    assert(d.skip(0) =~= d);
    if exists|j: int| 0 <= j < d.len() && #[trigger] d[j] == '.' && b == d.skip(j + 1) {
        let j = choose|j: int| 0 <= j < d.len() && #[trigger] d[j] == '.' && b == d.skip(j + 1);
        assert(b.len() == d.len() - j - 1);
    }
    if engine::subdomain_of(d, b) && d != b {
        let j = d.len() - b.len() - 1;
        assert(d[j] == '.' && b == d.skip(j + 1));
    }
}

/// The winner applies and is among the highest.
proof fn lemma_winner(
    rules: Seq<BuildView>,
    ids: Seq<usize>,
    d: Seq<char>,
    rtype: Seq<char>,
    client: ClientView,
)
    ensures
        match engine::winner(rules, ids, d, rtype, client) {
            Some(w) => {
                &&& ids.contains(w)
                &&& engine::applicable(rules[w as int].rule, d, rtype, client)
                &&& forall|k: int|
                    0 <= k < ids.len() && engine::applicable(
                        rules[#[trigger] ids[k] as int].rule,
                        d,
                        rtype,
                        client,
                    ) ==> rules[ids[k] as int].rule.priority() <= rules[w as int].rule.priority()
            },
            None => forall|k: int|
                0 <= k < ids.len() ==> !engine::applicable(
                    rules[#[trigger] ids[k] as int].rule,
                    d,
                    rtype,
                    client,
                ),
        },
    decreases ids.len(),
{
    if ids.len() > 0 {
        let rest = ids.drop_last();
        lemma_winner(rules, rest, d, rtype, client);
        assert(forall|k: int| 0 <= k < rest.len() ==> rest[k] == ids[k]);
        let w = engine::winner(rules, ids, d, rtype, client);
        if w is Some {
            if w == Some(ids.last()) {
                assert(ids[ids.len() - 1] == ids.last());
            } else {
                let k = choose|k: int| 0 <= k < rest.len() && rest[k] == w->0;
                assert(ids[k] == w->0);
            }
        }
        assert forall|k: int|
            0 <= k < ids.len() && engine::applicable(
                rules[#[trigger] ids[k] as int].rule,
                d,
                rtype,
                client,
            ) implies (w matches Some(x) && rules[ids[k] as int].rule.priority()
            <= rules[x as int].rule.priority()) by {
            if k < rest.len() {
                assert(rest[k] == ids[k]);
            } else {
                assert(ids[k] == ids.last());
            }
        }
    }
}

/// Nothing is blocked, rewritten or excepted without cause: the rule that decides
/// about a query matches its name, and its `$dnstype`, `$client`, `$ctag` and
/// `$denyallow` let it act.
pub proof fn law_decider_acts(
    rules: Seq<BuildView>,
    d: Seq<char>,
    rtype: Seq<char>,
    client: ClientView,
)
    requires
        rules.len() <= usize::MAX,
    ensures
        engine::deciding(rules, d, rtype, client) matches Some(w) ==> w < rules.len() && acts(
            rules[w as int].rule,
            d,
            rtype,
            client,
        ),
{
    let first = engine::first_candidates(rules, d);
    let second = engine::second_candidates(rules, d);
    lemma_winner(rules, first, d, rtype, client);
    lemma_winner(rules, second, d, rtype, client);
    if let Some(w) = engine::deciding(rules, d, rtype, client) {
        if first.contains(w) {
            engine::lemma_first_candidates(rules, d, w);
            if let PatternView::Subdomain(b) = rules[w as int].rule.pattern {
                lemma_suffix_iff_subdomain(d, b);
            }
        } else {
            let ids = engine::scan_ids(rules, false);
            scan::lemma_scanned_members(rules, ids, true, d, token::query_tokens(d), w);
            engine::lemma_scan_ids(rules, false, w);
        }
    }
}

/// The rule that decides about a query is the highest of those that are looked at
/// and apply.
proof fn lemma_decider(rules: Seq<BuildView>, d: Seq<char>, rtype: Seq<char>, client: ClientView)
    requires
        rules.len() <= usize::MAX,
    ensures
        match engine::deciding(rules, d, rtype, client) {
            Some(w) => {
                &&& w < rules.len()
                &&& considered(rules, w as int, d)
                &&& engine::applicable(rules[w as int].rule, d, rtype, client)
                &&& forall|i: int|
                    0 <= i < rules.len() && #[trigger] considered(rules, i, d)
                        && engine::applicable(rules[i].rule, d, rtype, client)
                        ==> rules[i].rule.priority() <= rules[w as int].rule.priority()
            },
            None => forall|i: int|
                0 <= i < rules.len() && #[trigger] considered(rules, i, d)
                    ==> !engine::applicable(rules[i].rule, d, rtype, client),
        },
{
    let first = engine::first_candidates(rules, d);
    let second = engine::second_candidates(rules, d);
    let block_ids = engine::scan_ids(rules, false);
    lemma_winner(rules, first, d, rtype, client);
    lemma_winner(rules, second, d, rtype, client);
    // What is a candidate.
    assert forall|i: int| 0 <= i < rules.len() implies {
        let r = (#[trigger] rules[i]).rule;
        &&& first.contains(i as usize) <==> considered(rules, i, d) && !is_indexed(r)
        &&& second.contains(i as usize) <==> considered(rules, i, d) && is_indexed(r)
    } by {
        let x = i as usize;
        engine::lemma_first_candidates(rules, d, x);
        if let PatternView::Subdomain(b) = rules[i].rule.pattern {
            lemma_suffix_iff_subdomain(d, b);
        }
        scan::lemma_scanned_members(rules, block_ids, true, d, token::query_tokens(d), x);
        engine::lemma_scan_ids(rules, false, x);
    }
    engine::lemma_candidates_in_range(rules, d);
    let w = engine::deciding(rules, d, rtype, client);
    assert forall|i: int|
        0 <= i < rules.len() && #[trigger] considered(rules, i, d) && engine::applicable(
            rules[i].rule,
            d,
            rtype,
            client,
        ) implies (w matches Some(x) && rules[i].rule.priority()
        <= rules[x as int].rule.priority()) by {
        if first.contains(i as usize) {
            let k = choose|k: int| 0 <= k < first.len() && first[k] == i as usize;
            assert(engine::applicable(rules[first[k] as int].rule, d, rtype, client));
        } else {
            assert(rules[i].rule == rules[i].rule);
            assert(second.contains(i as usize));
            let k = choose|k: int| 0 <= k < second.len() && second[k] == i as usize;
            assert(engine::applicable(rules[second[k] as int].rule, d, rtype, client));
        }
    }
    if let Some(x) = w {
        if engine::winner(rules, first, d, rtype, client) is Some {
            let k = choose|k: int| 0 <= k < first.len() && first[k] == x;
            assert(first[k] < rules.len());
        } else {
            let k = choose|k: int| 0 <= k < second.len() && second[k] == x;
            assert(second[k] < rules.len());
        }
        assert(rules[x as int].rule == rules[x as int].rule);
    }
}

/// The rule that decides about a query is one that acts on it, and none that
/// acts on it ranks higher; without a decider no rule acts on the query. A rule
/// that is indexed by tokens counts where the name has the rule's tokens (see
/// [`law_bounded_tokens`](crate::filter::token::law_bounded_tokens)); any other
/// counts always.
pub proof fn law_decider_ranks_highest(
    rules: Seq<BuildView>,
    d: Seq<char>,
    rtype: Seq<char>,
    client: ClientView,
)
    requires
        rules.len() <= usize::MAX,
    ensures
        match engine::deciding(rules, d, rtype, client) {
            Some(w) => {
                &&& w < rules.len()
                &&& acts(rules[w as int].rule, d, rtype, client)
                &&& forall|i: int|
                    0 <= i < rules.len() && acts((#[trigger] rules[i]).rule, d, rtype, client) && (
                    is_indexed(rules[i].rule) ==> has_tokens_of(rules[i], d))
                        ==> rules[i].rule.priority() <= rules[w as int].rule.priority()
            },
            None => forall|i: int|
                0 <= i < rules.len() && (is_indexed((#[trigger] rules[i]).rule) ==> has_tokens_of(
                    rules[i],
                    d,
                )) ==> !acts(rules[i].rule, d, rtype, client),
        },
{
    lemma_decider(rules, d, rtype, client);
    assert forall|i: int|
        0 <= i < rules.len() && acts((#[trigger] rules[i]).rule, d, rtype, client) && (is_indexed(
            rules[i].rule,
        ) ==> has_tokens_of(rules[i], d)) implies considered(rules, i, d) by {
        lemma_rarest_is_own(rules, engine::scan_ids(rules, false), rules[i].index_tokens);
    }
}

/// The token a rule is indexed under is one of its own.
proof fn lemma_rarest_is_own(rules: Seq<BuildView>, ids: Seq<usize>, tokens: Seq<u32>)
    ensures
        scan::rarest(rules, ids, tokens) matches Some(t) ==> tokens.contains(t),
    decreases tokens.len(),
{
    if tokens.len() > 0 {
        let rest = tokens.drop_last();
        lemma_rarest_is_own(rules, ids, rest);
        if let Some(t) = scan::rarest(rules, ids, rest) {
            let k = choose|k: int| 0 <= k < rest.len() && rest[k] == t;
            assert(tokens[k] == t);
        }
        assert(tokens[tokens.len() - 1] == tokens.last());
    }
}

/// Rule priority: an `$important` rule that acts on a query decides it before
/// any other; failing that an `@@` exception does; failing that a block or a
/// rewrite. A plain wildcard block counts where the name has its tokens; any
/// other rule counts always.
pub proof fn law_priority_order(
    rules: Seq<BuildView>,
    d: Seq<char>,
    rtype: Seq<char>,
    client: ClientView,
    i: int,
)
    requires
        rules.len() <= usize::MAX,
        0 <= i < rules.len(),
        acts(rules[i].rule, d, rtype, client),
        is_indexed(rules[i].rule) ==> has_tokens_of(rules[i], d),
    ensures
        engine::deciding(rules, d, rtype, client) matches Some(w) && {
            let decider = rules[w as int].rule;
            &&& rules[i].rule.important() ==> decider.important()
            &&& rules[i].rule.action == Action::Allow && !decider.important() ==> decider.action
                == Action::Allow
            &&& rules[i].rule.important() && rules[i].rule.action == Action::Allow ==> decider.action
                == Action::Allow
        },
{
    law_decider_ranks_highest(rules, d, rtype, client);
}

/// Without rules that look at the client, every client gets the same verdict.
pub proof fn law_client_independent(
    rules: Seq<BuildView>,
    d: Seq<char>,
    rtype: Seq<char>,
    one: ClientView,
    other: ClientView,
)
    requires
        rules.len() <= usize::MAX,
        !engine::any_client_dependent(rules),
    ensures
        engine::deciding(rules, d, rtype, one) == engine::deciding(rules, d, rtype, other),
{
    engine::lemma_candidates_in_range(rules, d);
    lemma_winner_ignores_client(rules, engine::first_candidates(rules, d), d, rtype, one, other);
    lemma_winner_ignores_client(rules, engine::second_candidates(rules, d), d, rtype, one, other);
}

proof fn lemma_winner_ignores_client(
    rules: Seq<BuildView>,
    ids: Seq<usize>,
    d: Seq<char>,
    rtype: Seq<char>,
    one: ClientView,
    other: ClientView,
)
    requires
        !engine::any_client_dependent(rules),
        forall|k: int| 0 <= k < ids.len() ==> #[trigger] ids[k] < rules.len(),
    ensures
        engine::winner(rules, ids, d, rtype, one) == engine::winner(rules, ids, d, rtype, other),
    decreases ids.len(),
{
    if ids.len() > 0 {
        let rest = ids.drop_last();
        assert(forall|k: int| 0 <= k < rest.len() ==> rest[k] == ids[k]);
        lemma_winner_ignores_client(rules, rest, d, rtype, one, other);
        let x = ids[ids.len() - 1];
        assert(!engine::is_client_dependent(rules[x as int].rule));
    }
}

/// A query name is matched without regard to the case of its letters and to a
/// trailing dot.
pub proof fn law_name_form(d: Seq<char>)
    ensures
        engine::query_name(text::lowered(d)) == engine::query_name(d),
        engine::query_name(d.push('.')) == engine::query_name(d),
        engine::query_name(engine::query_name(d)) == engine::query_name(d),
{
    lemma_strip_of_lowered(d);
    assert(d.push('.').drop_last() =~= d);
    lemma_lowered_twice(text::strip_end(d, '.'));
    let s = text::strip_end(d, '.');
    lemma_strip_of_lowered(s);
    lemma_strip_twice(d);
}

proof fn lemma_lowered_twice(s: Seq<char>)
    ensures
        text::lowered(text::lowered(s)) == text::lowered(s),
{
    assert(text::lowered(text::lowered(s)) =~= text::lowered(s));
}

proof fn lemma_strip_of_lowered(d: Seq<char>)
    ensures
        text::strip_end(text::lowered(d), '.') == text::lowered(text::strip_end(d, '.')),
        text::lowered(text::strip_end(text::lowered(d), '.')) == text::lowered(
            text::strip_end(d, '.'),
        ),
    decreases d.len(),
{
    if d.len() > 0 && d.last() == '.' {
        assert(text::lowered(d).drop_last() =~= text::lowered(d.drop_last()));
        lemma_strip_of_lowered(d.drop_last());
    }
    lemma_lowered_twice(text::strip_end(d, '.'));
}

proof fn lemma_strip_twice(d: Seq<char>)
    ensures
        text::strip_end(text::strip_end(d, '.'), '.') == text::strip_end(d, '.'),
    decreases d.len(),
{
    if d.len() > 0 && d.last() == '.' {
        lemma_strip_twice(d.drop_last());
    }
}

/// What a filter keeps: items that were there and pass.
proof fn lemma_kept(s: Seq<BuildView>, p: spec_fn(BuildView) -> bool)
    ensures
        forall|k: int|
            0 <= k < s.filter(p).len() ==> s.contains(#[trigger] s.filter(p)[k]) && p(
                s.filter(p)[k],
            ),
        forall|i: int| 0 <= i < s.len() && p(#[trigger] s[i]) ==> s.filter(p).contains(s[i]),
    decreases s.len(),
{
    reveal(Seq::filter);
    if s.len() > 0 {
        let rest = s.drop_last();
        lemma_kept(rest, p);
        let kept = s.filter(p);
        let before = rest.filter(p);
        assert forall|k: int| 0 <= k < kept.len() implies s.contains(#[trigger] kept[k]) && p(
            kept[k],
        ) by {
            if k < before.len() {
                assert(kept[k] == before[k]);
                let m = choose|m: int| 0 <= m < rest.len() && rest[m] == before[k];
                assert(s[m] == kept[k]);
            } else {
                assert(s[s.len() - 1] == kept[k]);
            }
        }
        assert forall|i: int| 0 <= i < s.len() && p(#[trigger] s[i]) implies kept.contains(s[i]) by {
            if i < rest.len() {
                assert(rest[i] == s[i]);
                let m = choose|m: int| 0 <= m < before.len() && before[m] == s[i];
                assert(kept[m] == s[i]);
            } else {
                assert(kept[kept.len() - 1] == s[i]);
            }
        }
    }
}

/// What deduplication keeps: rules that were there, each signature once.
proof fn lemma_deduplicated(rules: Seq<BuildView>)
    ensures
        forall|k: int|
            0 <= k < list::deduplicated(rules).len() ==> rules.contains(
                #[trigger] list::deduplicated(rules)[k],
            ),
        forall|j: int, k: int|
            0 <= j < k < list::deduplicated(rules).len() ==> (#[trigger] list::deduplicated(
                rules,
            )[j]).signature != (#[trigger] list::deduplicated(rules)[k]).signature,
        forall|i: int|
            0 <= i < rules.len() ==> list::has_signature(
                list::deduplicated(rules),
                (#[trigger] rules[i]).signature,
            ),
    decreases rules.len(),
{
    if rules.len() > 0 {
        let rest = rules.drop_last();
        lemma_deduplicated(rest);
        let before = list::deduplicated(rest);
        let now = list::deduplicated(rules);
        let last = rules.last();
        assert forall|k: int| 0 <= k < now.len() implies rules.contains(#[trigger] now[k]) by {
            if k < before.len() {
                assert(now[k] == before[k]);
                let m = choose|m: int| 0 <= m < rest.len() && rest[m] == before[k];
                assert(rules[m] == now[k]);
            } else {
                assert(rules[rules.len() - 1] == now[k]);
            }
        }
        assert forall|j: int, k: int| 0 <= j < k < now.len() implies (#[trigger] now[j]).signature
            != (#[trigger] now[k]).signature by {
            assert(now[j] == before[j]);
            if k < before.len() {
                assert(now[k] == before[k]);
            } else {
                assert(rest.contains(before[j]));
                let m = choose|m: int| 0 <= m < rest.len() && rest[m] == before[j];
                assert(rest[m].signature == now[j].signature);
            }
        }
        assert forall|i: int| 0 <= i < rules.len() implies list::has_signature(
            now,
            (#[trigger] rules[i]).signature,
        ) by {
            let sig = rules[i].signature;
            if i < rest.len() || list::has_signature(rest, sig) {
                if i < rest.len() {
                    assert(rest[i] == rules[i]);
                } else {
                    let m = choose|m: int| 0 <= m < rest.len() && (#[trigger] rest[m]).signature == sig;
                    assert(list::has_signature(before, rest[m].signature));
                }
                let k = choose|k: int| 0 <= k < before.len() && (#[trigger] before[k]).signature == sig;
                assert(now[k].signature == sig);
            } else {
                assert(now[now.len() - 1].signature == sig);
            }
        }
    }
}

/// The rules in force are among those that were read, none of them is
/// cancelled, and no two share a signature.
pub proof fn law_in_force(rules: Seq<BuildView>, bad: Set<Seq<char>>)
    ensures
        forall|k: int|
            0 <= k < list::in_force(rules, bad).len() ==> rules.contains(
                #[trigger] list::in_force(rules, bad)[k],
            ) && !bad.contains(list::in_force(rules, bad)[k].signature),
        forall|j: int, k: int|
            0 <= j < k < list::in_force(rules, bad).len() ==> (#[trigger] list::in_force(
                rules,
                bad,
            )[j]).signature != (#[trigger] list::in_force(rules, bad)[k]).signature,
{
    let good = |b: BuildView| !bad.contains(b.signature);
    let passed = rules.filter(good);
    let once = list::deduplicated(passed);
    let keep = |b: BuildView| !list::redundant(b.rule, list::subsumers(once));
    let all = list::in_force(rules, bad);
    lemma_kept(rules, good);
    lemma_deduplicated(passed);
    lemma_kept(once, keep);
    lemma_filter_order(once, keep);
    assert forall|k: int| 0 <= k < all.len() implies rules.contains(#[trigger] all[k])
        && !bad.contains(all[k].signature) by {
        assert(once.contains(all[k]));
        let m = choose|m: int| 0 <= m < once.len() && once[m] == all[k];
        assert(passed.contains(once[m]));
        let n = choose|n: int| 0 <= n < passed.len() && passed[n] == once[m];
        assert(rules.contains(passed[n]));
    }
}

/// A filter of rules with different signatures has different signatures.
proof fn lemma_filter_order(s: Seq<BuildView>, p: spec_fn(BuildView) -> bool)
    requires
        forall|j: int, k: int|
            0 <= j < k < s.len() ==> (#[trigger] s[j]).signature != (#[trigger] s[k]).signature,
    ensures
        forall|j: int, k: int|
            0 <= j < k < s.filter(p).len() ==> (#[trigger] s.filter(p)[j]).signature != (
            #[trigger] s.filter(p)[k]).signature,
    decreases s.len(),
{
    reveal(Seq::filter);
    if s.len() > 0 {
        let rest = s.drop_last();
        assert forall|j: int, k: int| 0 <= j < k < rest.len() implies (#[trigger] rest[j]).signature
            != (#[trigger] rest[k]).signature by {
            assert(rest[j] == s[j] && rest[k] == s[k]);
        }
        lemma_filter_order(rest, p);
        lemma_kept(rest, p);
        let kept = s.filter(p);
        let before = rest.filter(p);
        assert forall|j: int, k: int| 0 <= j < k < kept.len() implies (#[trigger] kept[j]).signature
            != (#[trigger] kept[k]).signature by {
            assert(kept[j] == before[j]);
            if k < before.len() {
                assert(kept[k] == before[k]);
            } else {
                assert(rest.contains(before[j]));
                let m = choose|m: int| 0 <= m < rest.len() && rest[m] == before[j];
                assert(s[m] == before[j]);
                assert(s[m].signature != s[s.len() - 1].signature);
            }
        }
    }
}

/// Names after a dot are shorter.
proof fn lemma_suffix_lengths(d: Seq<char>, i: int)
    requires
        0 <= i <= d.len(),
    ensures
        engine::suffixes_from(d, i).len() > 0,
        forall|k: int|
            0 <= k < engine::suffixes_from(d, i).len() ==> (#[trigger] engine::suffixes_from(
                d,
                i,
            )[k]).len() <= d.len() - i,
        forall|k: int|
            1 <= k < engine::suffixes_from(d, i).len() ==> (#[trigger] engine::suffixes_from(
                d,
                i,
            )[k]).len() < d.len() - i,
    decreases d.len() - i,
{
    let e = text::find_from(d, '.', i);
    text::lemma_find(d, '.', i);
    let all = engine::suffixes_from(d, i);
    if e < d.len() {
        lemma_suffix_lengths(d, e + 1);
        let rest = engine::suffixes_from(d, e + 1);
        assert forall|k: int| 1 <= k < all.len() implies (#[trigger] all[k]).len() < d.len() - i by {
            assert(all[k] == rest[k - 1]);
        }
    }
}

/// Being a subdomain carries over.
proof fn lemma_subdomain_transitive(d: Seq<char>, b: Seq<char>, c: Seq<char>)
    requires
        engine::subdomain_of(d, b),
        engine::subdomain_of(b, c),
    ensures
        engine::subdomain_of(d, c),
{
    if d != b && b != c {
        let n = d.len() - b.len();
        assert(d.skip(d.len() - c.len()) =~= b.skip(b.len() - c.len())) by {
            assert(d.skip(n) == b);
            assert(b.skip(b.len() - c.len()) == d.skip(n).skip(b.len() - c.len()));
            assert(d.skip(n).skip(b.len() - c.len()) =~= d.skip(n + (b.len() - c.len())));
        }
        assert(d[d.len() - c.len() - 1] == d.skip(n)[b.len() - c.len() - 1]);
    }
}

/// Where a plain block covers a name, one that is not redundant does.
proof fn lemma_cover_survives(rules: Seq<BuildView>, i: int, d: Seq<char>, b: Seq<char>) -> (k: int)
    requires
        0 <= i < rules.len(),
        list::is_plain_block(rules[i].rule),
        rules[i].rule.pattern == PatternView::Subdomain(b),
        engine::subdomain_of(d, b),
    ensures
        0 <= k < rules.len(),
        list::is_plain_block(rules[k].rule),
        rules[k].rule.pattern matches PatternView::Subdomain(c) && engine::subdomain_of(d, c),
        !list::redundant(rules[k].rule, list::subsumers(rules)),
    decreases b.len(),
{
    let subs = list::subsumers(rules);
    if !list::redundant(rules[i].rule, subs) {
        i
    } else {
        let all = engine::suffixes_from(b, 0);
        let n = choose|n: int| 1 <= n < all.len() && subs.contains(#[trigger] all[n]);
        let c = all[n];
        lemma_suffix_lengths(b, 0);
        assert(all.contains(c));
        lemma_suffix_iff_subdomain(b, c);
        lemma_subdomain_transitive(d, b, c);
        let m = choose|m: int|
            0 <= m < rules.len() && list::is_plain_block((#[trigger] rules[m]).rule)
                && rules[m].rule.pattern == PatternView::Subdomain(c);
        lemma_cover_survives(rules, m, d, c)
    }
}

/// Where the same tokens occur as often, the same token is the rarest.
proof fn lemma_same_rarest(
    one: Seq<BuildView>,
    one_ids: Seq<usize>,
    other: Seq<BuildView>,
    other_ids: Seq<usize>,
    tokens: Seq<u32>,
)
    requires
        forall|t: u32| #[trigger]
            scan::occurrences(one, one_ids, t) == scan::occurrences(other, other_ids, t),
    ensures
        scan::rarest(one, one_ids, tokens) == scan::rarest(other, other_ids, tokens),
    decreases tokens.len(),
{
    if tokens.len() > 0 {
        lemma_same_rarest(one, one_ids, other, other_ids, tokens.drop_last());
    }
}

/// What occurs among rules does not depend on rules that come after them.
proof fn lemma_occurrences_local(list: Seq<BuildView>, b: BuildView, ids: Seq<usize>, t: u32)
    requires
        forall|k: int| 0 <= k < ids.len() ==> #[trigger] ids[k] < list.len(),
    ensures
        scan::occurrences(list.push(b), ids, t) == scan::occurrences(list, ids, t),
    decreases ids.len(),
{
    if ids.len() > 0 {
        let rest = ids.drop_last();
        assert(forall|k: int| 0 <= k < rest.len() ==> rest[k] == ids[k]);
        lemma_occurrences_local(list, b, rest, t);
        assert(ids[ids.len() - 1] == ids.last());
    }
}

/// What one more rule adds to the tokens that are indexed.
proof fn lemma_indexed_push(list: Seq<BuildView>, b: BuildView, t: u32)
    requires
        list.len() < usize::MAX,
    ensures
        scan::occurrences(list.push(b), engine::scan_ids(list.push(b), false), t)
            == scan::occurrences(list, engine::scan_ids(list, false), t) + if is_indexed(b.rule) {
            scan::count_in(b.index_tokens, t)
        } else {
            0
        },
{
    let ids = engine::scan_ids(list, false);
    engine::lemma_scan_ids_push(list, b, false);
    assert forall|k: int| 0 <= k < ids.len() implies #[trigger] ids[k] < list.len() by {
        assert(ids.contains(ids[k]));
        engine::lemma_scan_ids(list, false, ids[k]);
    }
    lemma_occurrences_local(list, b, ids, t);
    if is_indexed(b.rule) {
        assert(ids.push(list.len() as usize).drop_last() =~= ids);
        assert(list.push(b)[list.len() as int] == b);
    }
}

/// Dropping redundant blocks leaves the index of wildcard rules as it is.
proof fn lemma_pruned_index(rules: Seq<BuildView>, subs: Set<Seq<char>>)
    requires
        rules.len() <= usize::MAX,
    ensures
        forall|t: u32| #[trigger]
            scan::occurrences(rules, engine::scan_ids(rules, false), t) == scan::occurrences(
                rules.filter(|b: BuildView| !list::redundant(b.rule, subs)),
                engine::scan_ids(
                    rules.filter(|b: BuildView| !list::redundant(b.rule, subs)),
                    false,
                ),
                t,
            ),
    decreases rules.len(),
{
    reveal(Seq::filter);
    let keep = |b: BuildView| !list::redundant(b.rule, subs);
    let less = rules.filter(keep);
    rules.lemma_filter_len(keep);
    if rules.len() > 0 {
        let rest = rules.drop_last();
        let last = rules.last();
        lemma_pruned_index(rest, subs);
        assert(rest.push(last) =~= rules);
        rest.lemma_filter_len(keep);
        assert forall|t: u32| #[trigger]
            scan::occurrences(rules, engine::scan_ids(rules, false), t) == scan::occurrences(
                less,
                engine::scan_ids(less, false),
                t,
            ) by {
            assert(scan::occurrences(rest, engine::scan_ids(rest, false), t) == scan::occurrences(
                rest.filter(keep),
                engine::scan_ids(rest.filter(keep), false),
                t,
            ));
            lemma_indexed_push(rest, last, t);
            if keep(last) {
                lemma_indexed_push(rest.filter(keep), last, t);
            }
        }
    } else {
        assert(less =~= rules);
    }
}

/// Dropping redundant blocks does not change what is filtered: every query is
/// decided by a rule of the same rank as before, or by none as before; and
/// where no rewrite acts on it, with the same action.
pub proof fn law_pruning_keeps_decisions(
    rules: Seq<BuildView>,
    d: Seq<char>,
    rtype: Seq<char>,
    client: ClientView,
)
    requires
        rules.len() <= usize::MAX,
    ensures
        match (
            engine::deciding(rules, d, rtype, client),
            engine::deciding(list::pruned(rules), d, rtype, client),
        ) {
            (None, None) => true,
            (Some(w), Some(v)) => {
                let before = rules[w as int].rule;
                let after = list::pruned(rules)[v as int].rule;
                &&& before.priority() == after.priority()
                &&& (forall|i: int|
                    0 <= i < rules.len() && acts((#[trigger] rules[i]).rule, d, rtype, client)
                        ==> rules[i].rule.action != Action::Rewrite) ==> before.action
                    == after.action
            },
            _ => false,
        },
{
    let keep = |b: BuildView| !list::redundant(b.rule, list::subsumers(rules));
    let less = list::pruned(rules);
    lemma_kept(rules, keep);
    rules.lemma_filter_len(keep);
    lemma_pruned_index(rules, list::subsumers(rules));
    lemma_decider(rules, d, rtype, client);
    lemma_decider(less, d, rtype, client);
    assert forall|i: int, k: int|
        0 <= i < rules.len() && 0 <= k < less.len() && rules[i] == less[k] implies #[trigger] considered(
        rules,
        i,
        d,
    ) == #[trigger] considered(less, k, d) by {
        lemma_same_rarest(
            rules,
            engine::scan_ids(rules, false),
            less,
            engine::scan_ids(less, false),
            rules[i].index_tokens,
        );
    }
    // Whatever was looked at still has a rule of at least its rank.
    assert forall|i: int|
        0 <= i < rules.len() && #[trigger] considered(rules, i, d) && engine::applicable(
            rules[i].rule,
            d,
            rtype,
            client,
        ) implies exists|k: int|
        0 <= k < less.len() && #[trigger] considered(less, k, d) && engine::applicable(
            less[k].rule,
            d,
            rtype,
            client,
        ) && less[k].rule.priority() >= rules[i].rule.priority() by {
        if keep(rules[i]) {
            let k = choose|k: int| 0 <= k < less.len() && less[k] == rules[i];
            assert(considered(less, k, d));
        } else {
            let subs = list::subsumers(rules);
            let dom = match rules[i].rule.pattern {
                PatternView::Subdomain(b) => b,
                PatternView::Exact(e) => e,
                _ => d,
            };
            assert(engine::subdomain_of(d, dom));
            let all = engine::suffixes_from(dom, 0);
            let c = if rules[i].rule.pattern is Exact && subs.contains(dom) {
                dom
            } else {
                let n = choose|n: int| 1 <= n < all.len() && subs.contains(#[trigger] all[n]);
                assert(all.contains(all[n]));
                lemma_suffix_iff_subdomain(dom, all[n]);
                all[n]
            };
            assert(engine::subdomain_of(dom, c));
            lemma_subdomain_transitive(d, dom, c);
            let m = choose|m: int|
                0 <= m < rules.len() && list::is_plain_block((#[trigger] rules[m]).rule)
                    && rules[m].rule.pattern == PatternView::Subdomain(c);
            let n = lemma_cover_survives(rules, m, d, c);
            assert(keep(rules[n]));
            let k = choose|k: int| 0 <= k < less.len() && less[k] == rules[n];
            assert(considered(less, k, d));
        }
    }
    assert forall|k: int| 0 <= k < less.len() implies rules.contains(#[trigger] less[k]) by {}
    if let Some(w) = engine::deciding(rules, d, rtype, client) {
        assert(considered(rules, w as int, d));
        assert(acts(rules[w as int].rule, d, rtype, client));
    }
    if let Some(v) = engine::deciding(less, d, rtype, client) {
        assert(rules.contains(less[v as int]));
        let m = choose|m: int| 0 <= m < rules.len() && rules[m] == less[v as int];
        assert(considered(less, v as int, d));
        assert(considered(rules, m, d));
        assert(acts(rules[m].rule, d, rtype, client));
    }
}

/// `badfilter` as a modifier list.
proof fn lemma_badfilter_text()
    ensures
        text::split("badfilter"@, ',') == seq!["badfilter"@],
        text::trim("badfilter"@) == "badfilter"@,
        "badfilter"@.len() > 0,
{
    reveal_strlit("badfilter");
    let b = "badfilter"@;
    assert(!b.contains(',')) by {
        assert forall|k: int| 0 <= k < b.len() implies b[k] != ',' by {}
    }
    text::lemma_split_whole(b, ',');
}

/// One more text at the end of a filtered and trimmed list.
proof fn lemma_modifier_list_push(parts: Seq<Seq<char>>, t: Seq<char>)
    requires
        text::trim(t).len() > 0,
    ensures
        parts.push(t).map_values(|x: Seq<char>| text::trim(x)).filter(|x: Seq<char>| x.len() > 0)
            == parts.map_values(|x: Seq<char>| text::trim(x)).filter(
            |x: Seq<char>| x.len() > 0,
        ).push(text::trim(t)),
{
    reveal(Seq::filter);
    let trimmed = parts.map_values(|x: Seq<char>| text::trim(x));
    let now = parts.push(t).map_values(|x: Seq<char>| text::trim(x));
    assert(now =~= trimmed.push(text::trim(t)));
    assert(now.drop_last() =~= trimmed);
}

/// A `$badfilter` rule has the signature of the rule it cancels: adding
/// `badfilter` to the modifiers of a rule leaves its signature as it is.
pub proof fn law_badfilter_signature(allow: bool, pattern: Seq<char>, mods: Seq<char>)
    ensures
        parser::signature_of(allow, pattern, Some(mods.push(',') + "badfilter"@))
            == parser::signature_of(allow, pattern, Some(mods)),
        parser::signature_of(allow, pattern, Some("badfilter"@)) == parser::signature_of(
            allow,
            pattern,
            None,
        ),
{
    let b = "badfilter"@;
    let keep = |t: Seq<char>| t != b;
    lemma_badfilter_text();
    text::lemma_split_join(mods, b, ',');
    let parts = text::split(mods, ',');
    assert(parts + seq![b] =~= parts.push(b));
    lemma_modifier_list_push(parts, b);
    let without = parser::modifier_list(Some(mods));
    let with = parser::modifier_list(Some(mods.push(',') + b));
    assert(with == without.push(b));
    reveal(Seq::filter);
    assert(with.drop_last() =~= without);
    assert(with.filter(keep) == without.filter(keep));
    let none = Seq::<Seq<char>>::empty();
    lemma_modifier_list_push(none, b);
    assert(none.map_values(|x: Seq<char>| text::trim(x)).filter(|x: Seq<char>| x.len() > 0)
        =~= none);
    assert(none.push(b) =~= seq![b]);
    let only = parser::modifier_list(Some(b));
    assert(only == none.push(b));
    assert(only.drop_last() =~= none);
    assert(only.filter(keep) =~= none.filter(keep));
    assert(parser::modifier_list(None) == none);
}

/// How often a modifier stands in a modifier list, whatever spaces are around it.
pub open spec fn modifier_count(mods: Seq<char>, modifier: Seq<char>) -> nat {
    text::split(mods, ',').map_values(|t: Seq<char>| text::trim(t)).to_multiset().count(modifier)
}

/// The case of a rule's pattern does not matter to its signature, nor does the
/// order of its modifiers, the spaces around them, blanks between commas, or
/// `badfilter` among them. `badfilter` alone is like no modifiers, and an exception
/// differs from a block by the `@@` in front only.
pub proof fn law_signature_ignores_form(
    allow: bool,
    pattern: Seq<char>,
    other_pattern: Seq<char>,
    mods: Seq<char>,
    other_mods: Seq<char>,
)
    requires
        text::lowered(pattern) == text::lowered(other_pattern),
        forall|m: Seq<char>|
            m.len() > 0 && m != "badfilter"@ ==> #[trigger] modifier_count(mods, m)
                == modifier_count(other_mods, m),
    ensures
        parser::signature_of(allow, pattern, Some(mods)) == parser::signature_of(
            allow,
            other_pattern,
            Some(other_mods),
        ),
        parser::signature_of(allow, pattern, Some(mods)) == parser::signature_of(
            allow,
            text::uppered(pattern),
            Some(other_mods),
        ),
        parser::signature_of(allow, pattern, Some("badfilter"@)) == parser::signature_of(
            allow,
            pattern,
            None,
        ),
        parser::signature_of(true, pattern, Some(mods)) == "@@"@ + parser::signature_of(
            false,
            pattern,
            Some(mods),
        ),
{
    law_badfilter_signature(allow, pattern, mods);
    law_signature_parts(allow, pattern, Some(other_mods));
    law_signature_parts(allow, pattern, Some(mods));
    let keep = |t: Seq<char>| t != "badfilter"@;
    let filled = |t: Seq<char>| t.len() > 0;
    let le = |a: Seq<char>, b: Seq<char>| text::lex_le(a, b);
    let one = text::split(mods, ',').map_values(|t: Seq<char>| text::trim(t));
    let other = text::split(other_mods, ',').map_values(|t: Seq<char>| text::trim(t));
    lemma_filter_multiset(one, filled);
    lemma_filter_multiset(other, filled);
    lemma_filter_multiset(one.filter(filled), keep);
    lemma_filter_multiset(other.filter(filled), keep);
    let fa = one.filter(filled).filter(keep);
    let fb = other.filter(filled).filter(keep);
    assert forall|m: Seq<char>| #[trigger] fa.to_multiset().count(m) == fb.to_multiset().count(
        m,
    ) by {
        assert(modifier_count(mods, m) == one.to_multiset().count(m));
        assert(modifier_count(other_mods, m) == other.to_multiset().count(m));
    }
    assert(fa.to_multiset() =~= fb.to_multiset());
    text::lemma_lex_order();
    fa.lemma_sort_by_ensures(le);
    fb.lemma_sort_by_ensures(le);
    vstd::seq_lib::lemma_sorted_unique(text::sorted_texts(fa), text::sorted_texts(fb), le);
}

/// The signature of a rule is that of its pattern in capitals; and the one of an
/// exception is that of the block with the same pattern and modifiers behind `@@`.
pub proof fn law_signature_parts(allow: bool, pattern: Seq<char>, mods: Option<Seq<char>>)
    ensures
        parser::signature_of(allow, text::uppered(pattern), mods) == parser::signature_of(
            allow,
            pattern,
            mods,
        ),
        parser::signature_of(true, pattern, mods) == "@@"@ + parser::signature_of(
            false,
            pattern,
            mods,
        ),
{
    assert(text::lowered(text::uppered(pattern)) =~= text::lowered(pattern));
    assert(parser::signature_of(true, pattern, mods) =~= "@@"@ + parser::signature_of(
        false,
        pattern,
        mods,
    ));
}

/// How often a filtered list has an item.
proof fn lemma_filter_multiset(s: Seq<Seq<char>>, p: spec_fn(Seq<char>) -> bool)
    ensures
        forall|x: Seq<char>| #[trigger]
            s.filter(p).to_multiset().count(x) == if p(x) {
                s.to_multiset().count(x)
            } else {
                0
            },
    decreases s.len(),
{
    broadcast use vstd::seq_lib::group_to_multiset_ensures;
    broadcast use vstd::multiset::group_multiset_axioms;

    reveal(Seq::filter);
    if s.len() > 0 {
        let rest = s.drop_last();
        lemma_filter_multiset(rest, p);
        assert(rest.push(s.last()) =~= s);
        vstd::seq_lib::to_multiset_build(rest, s.last());
        vstd::seq_lib::to_multiset_build(rest.filter(p), s.last());
    } else {
        assert(s.filter(p) =~= Seq::empty());
        assert(s =~= Seq::empty());
    }
}

/// A hosts-file line never gives a rule about one of the names that must not
/// be blocked, such as `localhost`.
pub proof fn law_hosts_noise(line: Seq<char>)
    ensures
        parser::hosts_of(line) matches Some(rules) ==> forall|i: int|
            0 <= i < rules.len() ==> ((#[trigger] rules[i]).rule.pattern matches PatternView::Exact(
                d,
            ) && d.len() > 0 && !parser::is_noise(d)),
{
    let words = text::words(line);
    if parser::hosts_of(line) is Some {
        let ip = crate::net::ip_of_text(words[0])->0;
        let hosts = parser::before_comment(words.drop_first());
        let usable = |h: Seq<char>| parser::is_usable_host(h);
        lemma_filtered_pass(hosts, usable);
        let kept = hosts.filter(usable);
        let rules = parser::hosts_of(line)->0;
        assert forall|i: int| 0 <= i < rules.len() implies ((#[trigger] rules[i]).rule.pattern
            matches PatternView::Exact(d) && d.len() > 0 && !parser::is_noise(d)) by {
            assert(usable(kept[i]));
            assert(rules[i] == parser::host_rule(words[0], ip, kept[i]));
        }
    }
}

proof fn lemma_filtered_pass(s: Seq<Seq<char>>, p: spec_fn(Seq<char>) -> bool)
    ensures
        forall|k: int| 0 <= k < s.filter(p).len() ==> p(#[trigger] s.filter(p)[k]),
    decreases s.len(),
{
    reveal(Seq::filter);
    if s.len() > 0 {
        lemma_filtered_pass(s.drop_last(), p);
    }
}

} // verus!
