//! Filter-list compilation.

use vstd::hash_set::StringHashSet;
use vstd::prelude::*;

use crate::filter::engine;
use crate::filter::engine::FilterEngine;
use crate::filter::parser;
use crate::filter::parser::{parse_chars, Parsed, ParsedView};
use crate::filter::rule;
use crate::filter::rule::{Action, BuildRule, BuildView, Pattern, PatternView, RuleView};
use crate::text;
use crate::text::{chars_of, find_char, part, split_chars, string_of};

verus! {

/// Per-list statistics gathered while compiling.
#[derive(Debug, Clone)]
pub struct ListStats {
    pub list_id: u32,
    pub name: String,
    /// Non-empty, non-comment lines that produced rules.
    pub rules: usize,
    /// Lines skipped because they carried unsupported (HTTP) modifiers.
    pub unsupported: usize,
    /// Lines that failed to parse.
    pub errors: usize,
}

/// What a [`ListStats`] says.
pub struct StatsView {
    pub list_id: u32,
    pub name: Seq<char>,
    pub rules: nat,
    pub unsupported: nat,
    pub errors: nat,
}

impl View for ListStats {
    type V = StatsView;

    open spec fn view(&self) -> StatsView {
        StatsView {
            list_id: self.list_id,
            name: self.name@,
            rules: self.rules as nat,
            unsupported: self.unsupported as nat,
            errors: self.errors as nat,
        }
    }
}

impl Default for ListStats {
    fn default() -> (r: Self)
        ensures
            r@ == (StatsView { list_id: 0, name: Seq::empty(), rules: 0, unsupported: 0, errors: 0 }),
    {
        ListStats { list_id: 0, name: String::new(), rules: 0, unsupported: 0, errors: 0 }
    }
}

impl ListStats {
    /// Another value that says the same.
    pub fn copied(&self) -> (r: ListStats)
        ensures
            r@ == self@,
    {
        ListStats {
            list_id: self.list_id,
            name: self.name.clone(),
            rules: self.rules,
            unsupported: self.unsupported,
            errors: self.errors,
        }
    }
}

/// The rule as one of the list `list_id`.
pub open spec fn in_list(b: BuildView, list_id: u32) -> BuildView {
    BuildView { rule: RuleView { list_id, ..b.rule }, ..b }
}

/// The rules that a line of the list `list_id` gives.
pub open spec fn line_rules(line: Seq<char>, list_id: u32) -> Seq<BuildView> {
    match parser::parsed(line) {
        Ok(ParsedView::Rules(rules)) => rules.map_values(|b: BuildView| in_list(b, list_id)),
        _ => Seq::empty(),
    }
}

/// The rules that lines of the list `list_id` give, in order.
pub open spec fn lines_rules(lines: Seq<Seq<char>>, list_id: u32) -> Seq<BuildView>
    decreases lines.len(),
{
    if lines.len() == 0 {
        Seq::empty()
    } else {
        lines_rules(lines.drop_last(), list_id) + line_rules(lines.last(), list_id)
    }
}

/// The rules that act: those without `$badfilter`.
pub open spec fn acting(rules: Seq<BuildView>) -> Seq<BuildView> {
    rules.filter(|b: BuildView| !b.badfilter)
}

/// The signatures that `$badfilter` rules cancel.
pub open spec fn cancelled(rules: Seq<BuildView>) -> Set<Seq<char>> {
    Set::new(
        |sig: Seq<char>|
            exists|i: int|
                0 <= i < rules.len() && (#[trigger] rules[i]).badfilter && rules[i].signature
                    == sig,
    )
}

/// Whether a line produces a rule that acts.
pub open spec fn produces_rules(line: Seq<char>) -> bool {
    parser::parsed(line) matches Ok(ParsedView::Rules(rules)) && acting(rules).len() > 0
}

/// How many lines produce rules.
pub open spec fn rule_line_count(lines: Seq<Seq<char>>) -> nat
    decreases lines.len(),
{
    if lines.len() == 0 {
        0
    } else {
        rule_line_count(lines.drop_last()) + if produces_rules(lines.last()) {
            1nat
        } else {
            0nat
        }
    }
}

/// How many lines are skipped on purpose.
pub open spec fn unsupported_count(lines: Seq<Seq<char>>) -> nat
    decreases lines.len(),
{
    if lines.len() == 0 {
        0
    } else {
        unsupported_count(lines.drop_last()) + if parser::parsed(lines.last()) matches Ok(
            ParsedView::Unsupported(_),
        ) {
            1nat
        } else {
            0nat
        }
    }
}

/// How many lines fail to parse.
pub open spec fn error_count(lines: Seq<Seq<char>>) -> nat
    decreases lines.len(),
{
    if lines.len() == 0 {
        0
    } else {
        error_count(lines.drop_last()) + if parser::parsed(lines.last()) is Err {
            1nat
        } else {
            0nat
        }
    }
}

/// The statistics of a list.
pub open spec fn list_stats(list_id: u32, name: Seq<char>, text: Seq<char>) -> StatsView {
    let lines = text::split(text, '\n');
    StatsView {
        list_id,
        name,
        rules: rule_line_count(lines),
        unsupported: unsupported_count(lines),
        errors: error_count(lines),
    }
}

/// The rules without those whose signature came before.
pub open spec fn deduplicated(rules: Seq<BuildView>) -> Seq<BuildView>
    decreases rules.len(),
{
    if rules.len() == 0 {
        Seq::empty()
    } else {
        let before = deduplicated(rules.drop_last());
        if has_signature(rules.drop_last(), rules.last().signature) {
            before
        } else {
            before.push(rules.last())
        }
    }
}

/// Whether one of the rules has the signature.
pub open spec fn has_signature(rules: Seq<BuildView>, sig: Seq<char>) -> bool {
    exists|i: int| 0 <= i < rules.len() && (#[trigger] rules[i]).signature == sig
}

/// Whether a rule is a block without modifiers.
pub open spec fn is_plain_block(r: RuleView) -> bool {
    r.action == Action::Block && r.mods is None
}

/// The domains that plain blocks cover with all their subdomains.
pub open spec fn subsumers(rules: Seq<BuildView>) -> Set<Seq<char>> {
    Set::new(
        |d: Seq<char>|
            exists|i: int|
                0 <= i < rules.len() && is_plain_block((#[trigger] rules[i]).rule)
                    && rules[i].rule.pattern == PatternView::Subdomain(d),
    )
}

/// Whether a proper parent of `d` is one of `subs`.
pub open spec fn has_parent_in(subs: Set<Seq<char>>, d: Seq<char>) -> bool {
    exists|k: int|
        1 <= k < engine::suffixes_from(d, 0).len() && subs.contains(
            #[trigger] engine::suffixes_from(d, 0)[k],
        )
}

/// Whether a plain block is covered by one of a parent domain.
pub open spec fn redundant(r: RuleView, subs: Set<Seq<char>>) -> bool {
    is_plain_block(r) && match r.pattern {
        PatternView::Subdomain(d) => has_parent_in(subs, d),
        PatternView::Exact(d) => subs.contains(d) || has_parent_in(subs, d),
        _ => false,
    }
}

/// The rules without the plain blocks that others cover.
pub open spec fn pruned(rules: Seq<BuildView>) -> Seq<BuildView> {
    rules.filter(|b: BuildView| !redundant(b.rule, subsumers(rules)))
}

/// The rules that are in force: not cancelled, each signature once, without
/// those that others cover.
pub open spec fn in_force(rules: Seq<BuildView>, bad: Set<Seq<char>>) -> Seq<BuildView> {
    pruned(deduplicated(rules.filter(|b: BuildView| !bad.contains(b.signature))))
}

/// Accumulates rules from one or more lists, resolves `$badfilter`, and builds
/// a [`FilterEngine`].
pub struct Compiler {
    rules: Vec<BuildRule>,
    badfilter_sigs: StringHashSet,
    stats: Vec<ListStats>,
}

/// What a [`Compiler`] has gathered.
pub struct CompilerView {
    pub rules: Seq<BuildView>,
    pub bad: Set<Seq<char>>,
    pub stats: Seq<StatsView>,
}

impl View for Compiler {
    type V = CompilerView;

    closed spec fn view(&self) -> CompilerView {
        CompilerView {
            rules: rule::build_views(self.rules@),
            bad: self.badfilter_sigs@,
            stats: stats_views(self.stats@),
        }
    }
}

/// What each of the statistics says.
pub open spec fn stats_views(v: Seq<ListStats>) -> Seq<StatsView> {
    v.map_values(|s: ListStats| s@)
}

impl Default for Compiler {
    fn default() -> (r: Self)
        ensures
            r@ == (CompilerView { rules: Seq::empty(), bad: Set::empty(), stats: Seq::empty() }),
    {
        let r: Compiler = Compiler {
            rules: Vec::new(),
            badfilter_sigs: StringHashSet::new(),
            stats: Vec::new(),
        };
        assert(rule::build_views(r.rules@) =~= Seq::empty());
        assert(stats_views(r.stats@) =~= Seq::empty());
        r
    }
}

/// One more rule either acts or cancels.
proof fn lemma_acting_push(rules: Seq<BuildView>, b: BuildView)
    ensures
        acting(rules.push(b)) == if b.badfilter { acting(rules) } else { acting(rules).push(b) },
        cancelled(rules.push(b)) == if b.badfilter {
            cancelled(rules).insert(b.signature)
        } else {
            cancelled(rules)
        },
{
    reveal(Seq::filter);
    let now = rules.push(b);
    assert(now.drop_last() =~= rules);
    let want = if b.badfilter { cancelled(rules).insert(b.signature) } else { cancelled(rules) };
    assert forall|sig: Seq<char>| cancelled(now).contains(sig) <==> #[trigger] want.contains(sig) by {
        if cancelled(rules).contains(sig) {
            let i = choose|i: int|
                0 <= i < rules.len() && (#[trigger] rules[i]).badfilter && rules[i].signature
                    == sig;
            assert(now[i] == rules[i]);
        }
        if b.badfilter && b.signature == sig {
            assert(now[rules.len() as int] == b);
        }
        if cancelled(now).contains(sig) {
            let i = choose|i: int|
                0 <= i < now.len() && (#[trigger] now[i]).badfilter && now[i].signature == sig;
            if i < rules.len() {
                assert(rules[i] == now[i]);
            }
        }
    }
    assert(cancelled(now) =~= want);
}

/// A block of further rules, one after the other.
proof fn lemma_acting_empty()
    ensures
        acting(Seq::empty()) == Seq::<BuildView>::empty(),
        cancelled(Seq::empty()) == Set::<Seq<char>>::empty(),
{
    reveal(Seq::filter);
    assert(acting(Seq::empty()) =~= Seq::empty());
    assert(cancelled(Seq::empty()) =~= Set::empty());
}

impl Compiler {
    /// Every rewrite rule says what to answer.
    #[verifier::type_invariant]
    spec fn wf(self) -> bool {
        all_complete(self.rules@)
    }

    /// A compiler without rules.
    pub fn new() -> (r: Compiler)
        ensures
            r@ == (CompilerView { rules: Seq::empty(), bad: Set::empty(), stats: Seq::empty() }),
    {
        Compiler::default()
    }

    /// Parse and add every line of `text` as belonging to list `list_id`.
    pub fn add_list(&mut self, list_id: u32, name: &str, text: &str) -> (r: ListStats)
        ensures
            r@ == list_stats(list_id, name@, text@),
            final(self)@ == ({
                let rules = lines_rules(text::split(text@, '\n'), list_id);
                CompilerView {
                    rules: old(self)@.rules + acting(rules),
                    bad: old(self)@.bad.union(cancelled(rules)),
                    stats: old(self)@.stats.push(r@),
                }
            }),
    {
        proof {
            use_type_invariant(&*self);
        }
        let chars: Vec<char> = chars_of(text);
        let pieces: Vec<&[char]> = split_chars(chars.as_slice(), '\n');
        let ghost lines = text::split(text@, '\n');
        let ghost rules0 = rule::build_views(self.rules@);
        let ghost bad0 = self.badfilter_sigs@;
        let mut stats: ListStats = ListStats::default();
        stats.list_id = list_id;
        stats.name = name.to_owned();
        let mut rules: Vec<BuildRule> = Vec::new();
        std::mem::swap(&mut rules, &mut self.rules);
        let mut sigs: StringHashSet = StringHashSet::new();
        std::mem::swap(&mut sigs, &mut self.badfilter_sigs);
        let ghost mut got: Seq<BuildView> = Seq::empty();
        let mut i: usize = 0;
        proof {
            lemma_acting_empty();
            assert(lines.take(0) =~= Seq::empty());
            assert(rules0 + acting(got) =~= rules0);
            assert(bad0.union(cancelled(got)) =~= bad0);
        }
        while i < pieces.len()
            invariant
                i <= pieces@.len(),
                text::slices(pieces@) == lines,
                got == lines_rules(lines.take(i as int), list_id),
                all_complete(rules@),
                rule::build_views(rules@) == rules0 + acting(got),
                sigs@ == bad0.union(cancelled(got)),
                stats.list_id == list_id,
                stats.name@ == name@,
                stats.rules == rule_line_count(lines.take(i as int)),
                stats.unsupported == unsupported_count(lines.take(i as int)),
                stats.errors == error_count(lines.take(i as int)),
                stats.rules <= i,
                stats.unsupported <= i,
                stats.errors <= i,
            decreases pieces@.len() - i,
        {
            let line: &[char] = pieces[i];
            proof {
                assert(lines[i as int] == line@);
                assert(lines.take(i + 1).drop_last() =~= lines.take(i as int));
                assert(lines.take(i + 1).last() == line@);
                parser::lemma_parsed_complete(line@);
            }
            match parse_chars(line) {
                Ok(Parsed::Rules(new)) => {
                    let ghost views = rule::build_views(new@);
                    let ghost listed = line_rules(line@, list_id);
                    let ghost got0 = got;
                    assert(listed =~= views.map_values(|b: BuildView| in_list(b, list_id)));
                    assert(got0 + listed.take(0) =~= got0);
                    let mut produced: bool = false;
                    assert(views.take(0) =~= Seq::empty());
                    for b in it: new
                        invariant
                            it.seq() == new@,
                            views == rule::build_views(new@),
                            listed == views.map_values(|b: BuildView| in_list(b, list_id)),
                            forall|k: int|
                                0 <= k < views.len() ==> engine::is_complete(
                                    (#[trigger] views[k]).rule,
                                ),
                            got == got0 + listed.take(it.index() as int),
                            all_complete(rules@),
                            rule::build_views(rules@) == rules0 + acting(got),
                            sigs@ == bad0.union(cancelled(got)),
                            produced == (acting(views.take(it.index() as int)).len() > 0),
                            stats.rules == rule_line_count(lines.take(i as int)),
                            stats.list_id == list_id,
                            stats.name@ == name@,
                            stats.unsupported == unsupported_count(lines.take(i as int)),
                            stats.errors == error_count(lines.take(i as int)),
                            stats.rules <= i,
                            stats.unsupported <= i,
                            stats.errors <= i,
                    {
                        let mut one: BuildRule = b;
                        let ghost k = it.index() as int;
                        assert(one@ == views[k]);
                        assert(engine::is_complete(views[k].rule));
                        one.rule.list_id = list_id;
                        let ghost view = one@;
                        let ghost before = got;
                        proof {
                            assert(view == listed[k]);
                            got = before.push(view);
                            assert(got0 + listed.take(k + 1) =~= got);
                            lemma_acting_push(before, view);
                            lemma_acting_push(views.take(k), views[k]);
                            assert(views.take(k + 1) =~= views.take(k).push(views[k]));
                        }
                        if one.badfilter {
                            sigs.insert(one.signature.clone());
                            assert(sigs@ =~= bad0.union(cancelled(got)));
                        } else {
                            let ghost rules_before = rules@;
                            rules.push(one);
                            proof {
                                assert(rule::build_views(rules@) =~= rule::build_views(
                                    rules_before,
                                ).push(view));
                                assert(rule::build_views(rules@) =~= rules0 + acting(got));
                                assert(all_complete(rules@));
                            }
                            produced = true;
                        }
                    }
                    proof {
                        assert(listed.take(listed.len() as int) =~= listed);
                        assert(views.take(views.len() as int) =~= views);
                    }
                    if produced {
                        stats.rules = stats.rules + 1;
                    }
                },
                Ok(Parsed::Ignored) => {
                    assert(got + line_rules(line@, list_id) =~= got);
                },
                Ok(Parsed::Unsupported(_)) => {
                    assert(got + line_rules(line@, list_id) =~= got);
                    stats.unsupported = stats.unsupported + 1;
                },
                Err(_) => {
                    assert(got + line_rules(line@, list_id) =~= got);
                    stats.errors = stats.errors + 1;
                },
            }
            i = i + 1;
        }
        assert(lines.take(i as int) =~= lines);
        let ghost stats_before = self.stats@;
        std::mem::swap(&mut rules, &mut self.rules);
        std::mem::swap(&mut sigs, &mut self.badfilter_sigs);
        let mut all_stats: Vec<ListStats> = Vec::new();
        std::mem::swap(&mut all_stats, &mut self.stats);
        all_stats.push(stats.copied());
        std::mem::swap(&mut all_stats, &mut self.stats);
        proof {
            assert(stats_views(self.stats@) =~= stats_views(stats_before).push(stats@));
        }
        stats
    }
}

/// Whether every rewrite rule says what to answer.
spec fn all_complete(rules: Seq<BuildRule>) -> bool {
    forall|i: int| 0 <= i < rules.len() ==> engine::is_complete((#[trigger] rules[i])@.rule)
}

/// Signatures of one more rule.
proof fn lemma_has_signature_push(rules: Seq<BuildView>, b: BuildView, sig: Seq<char>)
    ensures
        has_signature(rules.push(b), sig) <==> has_signature(rules, sig) || b.signature == sig,
{
    let now = rules.push(b);
    if has_signature(rules, sig) {
        let i = choose|i: int| 0 <= i < rules.len() && (#[trigger] rules[i]).signature == sig;
        assert(now[i].signature == sig);
    }
    if b.signature == sig {
        assert(now[rules.len() as int].signature == sig);
    }
    if has_signature(now, sig) {
        let i = choose|i: int| 0 <= i < now.len() && (#[trigger] now[i]).signature == sig;
        if i < rules.len() {
            assert(rules[i].signature == sig);
        }
    }
}

/// The domains that plain blocks cover with all their subdomains.
fn collect_subsumers(rules: &Vec<BuildRule>) -> (r: StringHashSet)
    ensures
        r@ == subsumers(rule::build_views(rules@)),
{
    let ghost views = rule::build_views(rules@);
    let mut set: StringHashSet = StringHashSet::new();
    let mut i: usize = 0;
    assert(set@ =~= subsumers(views.take(0)));
    while i < rules.len()
        invariant
            i <= rules@.len(),
            views == rule::build_views(rules@),
            set@ == subsumers(views.take(i as int)),
        decreases rules@.len() - i,
    {
        let b: &BuildRule = &rules[i];
        let ghost before = set@;
        let ghost view = views[i as int];
        assert(view == b@);
        if b.rule.action == Action::Block && b.rule.mods.is_none() {
            if let Pattern::Subdomain(d) = &b.rule.pattern {
                set.insert(d.clone());
            }
        }
        proof {
            let upto = views.take(i + 1);
            assert forall|d: Seq<char>| #[trigger] set@.contains(d) <==> subsumers(upto).contains(
                d,
            ) by {
                if before.contains(d) {
                    let k = choose|k: int|
                        0 <= k < i && is_plain_block((#[trigger] views.take(i as int)[k]).rule)
                            && views.take(i as int)[k].rule.pattern == PatternView::Subdomain(d);
                    assert(upto[k] == views.take(i as int)[k]);
                }
                if is_plain_block(view.rule) && view.rule.pattern == PatternView::Subdomain(d) {
                    assert(upto[i as int] == view);
                }
                if subsumers(upto).contains(d) {
                    let k = choose|k: int|
                        0 <= k < upto.len() && is_plain_block((#[trigger] upto[k]).rule)
                            && upto[k].rule.pattern == PatternView::Subdomain(d);
                    if k < i {
                        assert(views.take(i as int)[k] == upto[k]);
                    }
                }
            }
            assert(set@ =~= subsumers(upto));
        }
        i = i + 1;
    }
    assert(views.take(i as int) =~= views);
    set
}

/// Whether a proper parent of the domain is in the set.
fn parent_in(set: &StringHashSet, domain: &str) -> (r: bool)
    ensures
        r == has_parent_in(set@, domain@),
{
    let d: Vec<char> = chars_of(domain);
    let n: usize = d.len();
    let ghost all = engine::suffixes_from(domain@, 0);
    let mut start: usize = 0;
    let ghost mut count: int = 0;
    assert(engine::suffixes_from(domain@, 0) =~= all.skip(0));
    loop
        invariant
            start <= n,
            n == domain@.len(),
            d@ == domain@,
            all == engine::suffixes_from(domain@, 0),
            0 <= count < all.len(),
            engine::suffixes_from(domain@, start as int) == all.skip(count),
            forall|k: int| 1 <= k <= count ==> !set@.contains(#[trigger] all[k]),
        decreases n - start,
    {
        let e: usize = find_char(d.as_slice(), '.', start);
        let ghost rest = engine::suffixes_from(domain@, start as int);
        if e == n {
            proof {
                assert(rest.len() == 1);
                assert(all.len() == count + 1);
            }
            return false;
        }
        let tail: &[char] = part(d.as_slice(), e + 1, n);
        let name: String = string_of(tail);
        proof {
            let next = engine::suffixes_from(domain@, e + 1);
            assert(rest == seq![domain@.skip(start as int)] + next);
            assert(next =~= all.skip(count + 1)) by {
                assert(all.skip(count).drop_first() =~= all.skip(count + 1));
                assert(rest.drop_first() =~= next);
            }
            assert(next.len() > 0);
            assert(next[0] == domain@.skip(e + 1));
            assert(tail@ =~= domain@.skip(e + 1));
            assert(all[count + 1] == all.skip(count + 1)[0]);
        }
        if set.contains(name.as_str()) {
            assert(set@.contains(all[count + 1]));
            return true;
        }
        proof {
            count = count + 1;
        }
        start = e + 1;
    }
}

/// Whether a rule is a plain block that another one covers.
fn is_redundant(b: &BuildRule, subs: &StringHashSet) -> (r: bool)
    ensures
        r == redundant(b@.rule, subs@),
{
    if b.rule.action != Action::Block || b.rule.mods.is_some() {
        return false;
    }
    match &b.rule.pattern {
        Pattern::Subdomain(d) => parent_in(subs, d.as_str()),
        Pattern::Exact(d) => subs.contains(d.as_str()) || parent_in(subs, d.as_str()),
        _ => false,
    }
}

/// Removes plain blocks covered by an unmodified ancestor subdomain block.
fn prune_redundant(active: Vec<BuildRule>) -> (r: Vec<BuildRule>)
    requires
        all_complete(active@),
    ensures
        rule::build_views(r@) == pruned(rule::build_views(active@)),
        all_complete(r@),
{
    let subs: StringHashSet = collect_subsumers(&active);
    let ghost views = rule::build_views(active@);
    let ghost keep = |b: BuildView| !redundant(b.rule, subs@);
    let mut kept: Vec<BuildRule> = Vec::new();
    proof {
        reveal(Seq::filter);
        assert(rule::build_views(kept@) =~= views.take(0).filter(keep));
    }
    for b in it: active
        invariant
            it.seq() == active@,
            views == rule::build_views(active@),
            keep == (|b: BuildView| !redundant(b.rule, subs@)),
            all_complete(active@),
            all_complete(kept@),
            rule::build_views(kept@) == views.take(it.index() as int).filter(keep),
    {
        let ghost k = it.index() as int;
        let ghost before = kept@;
        let ghost view = b@;
        proof {
            reveal(Seq::filter);
            assert(view == views[k]);
            assert(views.take(k + 1).drop_last() =~= views.take(k));
            assert(engine::is_complete(active@[k]@.rule));
        }
        if !is_redundant(&b, &subs) {
            kept.push(b);
            assert(rule::build_views(kept@) =~= rule::build_views(before).push(view));
        }
        assert(rule::build_views(kept@) =~= views.take(k + 1).filter(keep));
    }
    assert(views.take(views.len() as int) =~= views);
    kept
}

/// The rules that are not cancelled, each signature once.
fn select(rules: Vec<BuildRule>, bad: &StringHashSet) -> (r: Vec<BuildRule>)
    requires
        all_complete(rules@),
    ensures
        rule::build_views(r@) == deduplicated(
            rule::build_views(rules@).filter(|b: BuildView| !bad@.contains(b.signature)),
        ),
        all_complete(r@),
{
    let ghost views = rule::build_views(rules@);
    let ghost good = |b: BuildView| !bad@.contains(b.signature);
    let mut seen: StringHashSet = StringHashSet::new();
    let mut kept: Vec<BuildRule> = Vec::new();
    proof {
        reveal(Seq::filter);
        assert(views.take(0).filter(good) =~= Seq::empty());
        assert(rule::build_views(kept@) =~= deduplicated(views.take(0).filter(good)));
    }
    for b in it: rules
        invariant
            it.seq() == rules@,
            views == rule::build_views(rules@),
            good == (|b: BuildView| !bad@.contains(b.signature)),
            all_complete(rules@),
            all_complete(kept@),
            rule::build_views(kept@) == deduplicated(
                views.take(it.index() as int).filter(good),
            ),
            forall|sig: Seq<char>| #[trigger]
                seen@.contains(sig) <==> has_signature(
                    views.take(it.index() as int).filter(good),
                    sig,
                ),
    {
        let ghost k = it.index() as int;
        let ghost before = kept@;
        let ghost seen_before = seen@;
        let ghost view = b@;
        let ghost passed = views.take(k).filter(good);
        let ghost now = views.take(k + 1).filter(good);
        proof {
            reveal(Seq::filter);
            assert(view == views[k]);
            assert(views.take(k + 1).drop_last() =~= views.take(k));
            assert(engine::is_complete(rules@[k]@.rule));
            assert(now == if good(view) { passed.push(view) } else { passed });
        }
        if !bad.contains(b.signature.as_str()) {
            let fresh: bool = seen.insert(b.signature.clone());
            proof {
                assert(passed.push(view).drop_last() =~= passed);
                assert forall|sig: Seq<char>| #[trigger] seen@.contains(sig) <==> has_signature(
                    now,
                    sig,
                ) by {
                    lemma_has_signature_push(passed, view, sig);
                    assert(seen_before.contains(sig) <==> has_signature(passed, sig));
                }
                assert(fresh == !has_signature(passed, view.signature));
            }
            if fresh {
                kept.push(b);
                assert(rule::build_views(kept@) =~= rule::build_views(before).push(view));
            }
        }
        assert(rule::build_views(kept@) =~= deduplicated(now));
    }
    assert(views.take(views.len() as int) =~= views);
    kept
}

impl Compiler {
    /// Builds an engine after applying `$badfilter` and deduplication.
    pub fn build(self) -> (r: (FilterEngine, Vec<ListStats>))
        ensures
            r.0@ == in_force(self@.rules, self@.bad),
            stats_views(r.1@) == self@.stats,
    {
        proof {
            use_type_invariant(&self);
        }
        let Compiler { rules, badfilter_sigs, stats } = self;
        let active: Vec<BuildRule> = prune_redundant(select(rules, &badfilter_sigs));
        (FilterEngine::from_rules(active), stats)
    }
}

/// Compile a single list's text into an engine.
pub fn compile_one(text: &str) -> (r: FilterEngine)
    ensures
        r@ == ({
            let rules = lines_rules(text::split(text@, '\n'), 0);
            in_force(acting(rules), cancelled(rules))
        }),
{
    let mut c: Compiler = Compiler::new();
    c.add_list(0, "inline", text);
    proof {
        let rules = lines_rules(text::split(text@, '\n'), 0);
        assert(Seq::empty() + acting(rules) =~= acting(rules));
        assert(Set::empty().union(cancelled(rules)) =~= cancelled(rules));
    }
    let (engine, _) = c.build();
    engine
}

} // verus!
