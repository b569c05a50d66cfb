//! Compiled filtering engine.

use std::collections::hash_map::DefaultHasher;
use std::hash::Hasher;

use vstd::prelude::*;
use vstd::std_specs::hash::DefaultHasherAdditionalSpecFns;

use crate::filter::domains::DomainIndex;
use crate::filter::rule;
use crate::filter::rule::{
    Action, BuildRule, BuildView, ClientInfo, ClientView, Pattern, PatternView, RewriteData,
    RewriteView, Rule, RuleMods, RuleView,
};
use crate::filter::scan;
use crate::filter::scan::{build_scan_group, ScanGroup, MAX_RAW_LEN};
use crate::filter::token;
use crate::filter::token::for_each_query_token;
use crate::text;
use crate::text::{
    chars_of, cut_to_bytes, find_char, lower_chars, part, same_chars, string_of, trim_end_char,
};

verus! {

/// Where a matching rule came from.
#[derive(Debug, Clone, PartialEq, Eq)]
pub struct MatchInfo {
    pub rule: String,
    pub list_id: u32,
    pub rule_id: u32,
}

/// The outcome of matching a query against the rules.
#[derive(Debug, Clone, PartialEq, Eq)]
pub enum Verdict {
    /// Not filtered. `rule` is `Some` when an explicit `@@` exception matched.
    Allow { rule: Option<MatchInfo> },
    /// The query should be blocked.
    Block(MatchInfo),
    /// The response should be rewritten.
    Rewrite { info: MatchInfo, data: RewriteData },
}

/// What a [`MatchInfo`] says.
pub struct MatchView {
    pub rule: Seq<char>,
    pub list_id: u32,
    pub rule_id: u32,
}

/// What a [`Verdict`] says.
pub enum VerdictView {
    Allow(Option<MatchView>),
    Block(MatchView),
    Rewrite(MatchView, RewriteView),
}

impl View for MatchInfo {
    type V = MatchView;

    open spec fn view(&self) -> MatchView {
        MatchView { rule: self.rule@, list_id: self.list_id, rule_id: self.rule_id }
    }
}

impl View for Verdict {
    type V = VerdictView;

    open spec fn view(&self) -> VerdictView {
        match self {
            Verdict::Allow { rule } => VerdictView::Allow(
                match rule {
                    Some(m) => Some(m@),
                    None => None,
                },
            ),
            Verdict::Block(m) => VerdictView::Block(m@),
            Verdict::Rewrite { info, data } => VerdictView::Rewrite(info@, data@),
        }
    }
}

impl Verdict {
    /// Whether the query should be blocked.
    pub fn is_blocked(&self) -> (r: bool)
        ensures
            r == (self@ is Block),
    {
        match self {
            Verdict::Block(_) => true,
            _ => false,
        }
    }
}

/// Whether `d` is `base` or a subdomain of it.
pub open spec fn subdomain_of(d: Seq<char>, base: Seq<char>) -> bool {
    ||| d == base
    ||| d.len() > base.len() && d.skip(d.len() - base.len()) == base && d[d.len() - base.len() - 1]
        == '.'
}

/// The name from `i` on, and every shorter one that starts after a dot.
pub open spec fn suffixes_from(d: Seq<char>, i: int) -> Seq<Seq<char>>
    decreases d.len() + 1 - i,
{
    let e = text::find_from(d, '.', i);
    if i < 0 || i > d.len() || e < i || e >= d.len() {
        seq![d.skip(i)]
    } else {
        seq![d.skip(i)] + suffixes_from(d, e + 1)
    }
}

/// A name in the form that rules are matched in: lowercase, without trailing
/// dots.
pub open spec fn query_name(d: Seq<char>) -> Seq<char> {
    text::lowered(text::strip_end(d, '.'))
}

/// The ids of a list's rules.
pub open spec fn all_ids(list: Seq<BuildView>) -> Seq<usize> {
    Seq::new(list.len(), |i: int| i as usize)
}

/// The ids of the rules with the pattern `p`, in order.
pub open spec fn ids_with(list: Seq<BuildView>, p: PatternView) -> Seq<usize> {
    all_ids(list).filter(|id: usize| list[id as int].rule.pattern == p)
}

/// Whether a wildcard or regex rule can outrank a plain domain block.
pub open spec fn overrides(r: RuleView) -> bool {
    r.action == Action::Allow || r.important()
}

/// The ids of the wildcard and regex rules that can outrank a plain domain
/// block, or of the others.
pub open spec fn scan_ids(list: Seq<BuildView>, over: bool) -> Seq<usize> {
    all_ids(list).filter(
        |id: usize|
            scan::source_of(list[id as int].rule.pattern) is Some && overrides(
                list[id as int].rule,
            ) == over,
    )
}

/// The rules that cover one of `names` and its subdomains, name by name.
pub open spec fn suffix_hits(list: Seq<BuildView>, names: Seq<Seq<char>>) -> Seq<usize>
    decreases names.len(),
{
    if names.len() == 0 {
        Seq::empty()
    } else {
        suffix_hits(list, names.drop_last()) + ids_with(list, PatternView::Subdomain(names.last()))
    }
}

/// The exact and subdomain rules about a name: exact ones first, then those
/// about the name and its parents, nearest first.
pub open spec fn domain_hits(list: Seq<BuildView>, d: Seq<char>) -> Seq<usize> {
    ids_with(list, PatternView::Exact(d)) + suffix_hits(list, suffixes_from(d, 0))
}

/// The rules looked at first: domain rules, and wildcard and regex rules that
/// can outrank them.
pub open spec fn first_candidates(list: Seq<BuildView>, d: Seq<char>) -> Seq<usize> {
    domain_hits(list, d) + scan::scanned(list, scan_ids(list, true), false, d, Seq::empty())
}

/// The rules looked at when none of the first applies: the other wildcard and
/// regex rules.
pub open spec fn second_candidates(list: Seq<BuildView>, d: Seq<char>) -> Seq<usize> {
    scan::scanned(list, scan_ids(list, false), true, d, token::query_tokens(d))
}

/// Whether one of `bases` covers the name.
pub open spec fn any_covers(bases: Seq<Seq<char>>, d: Seq<char>) -> bool {
    exists|i: int| 0 <= i < bases.len() && subdomain_of(d, #[trigger] bases[i])
}

/// Whether the modifiers of a rule let it act on a query.
pub open spec fn applicable(
    r: RuleView,
    d: Seq<char>,
    rtype: Seq<char>,
    client: ClientView,
) -> bool {
    match r.mods {
        None => true,
        Some(m) => {
            &&& m.dnstype matches Some(f) ==> rule::lists_admit(f.included, f.excluded, rtype)
            &&& m.client matches Some(f) ==> f.admits(client)
            &&& m.ctag matches Some(f) ==> !rule::share(f.excluded, client.tags) && (
            f.included.len() > 0 ==> rule::share(f.included, client.tags))
            &&& r.action != Action::Allow ==> !any_covers(m.denyallow, d)
        },
    }
}

/// The first of `ids` with the highest priority among those that apply.
pub open spec fn winner(
    list: Seq<BuildView>,
    ids: Seq<usize>,
    d: Seq<char>,
    rtype: Seq<char>,
    client: ClientView,
) -> Option<usize>
    decreases ids.len(),
{
    if ids.len() == 0 {
        None
    } else {
        let before = winner(list, ids.drop_last(), d, rtype, client);
        let r = list[ids.last() as int].rule;
        if applicable(r, d, rtype, client) && (before matches Some(b) ==> r.priority()
            > list[b as int].rule.priority()) {
            Some(ids.last())
        } else {
            before
        }
    }
}

/// The rule that decides about a query, if any.
pub open spec fn deciding(
    list: Seq<BuildView>,
    d: Seq<char>,
    rtype: Seq<char>,
    client: ClientView,
) -> Option<usize> {
    match winner(list, first_candidates(list, d), d, rtype, client) {
        Some(id) => Some(id),
        None => winner(list, second_candidates(list, d), d, rtype, client),
    }
}

/// What the rule `id` says about a query that it decides.
pub open spec fn verdict_of(list: Seq<BuildView>, id: Option<usize>) -> VerdictView {
    match id {
        None => VerdictView::Allow(None),
        Some(id) => {
            let r = scan::stored(list[id as int].rule);
            let info = MatchView { rule: r.raw, list_id: r.list_id, rule_id: id as u32 };
            match r.action {
                Action::Allow => VerdictView::Allow(Some(info)),
                Action::Block => VerdictView::Block(info),
                Action::Rewrite => VerdictView::Rewrite(info, (r.mods->0).rewrite->0),
            }
        },
    }
}

/// Whether a rewrite rule says what to answer.
pub open spec fn is_complete(r: RuleView) -> bool {
    r.action == Action::Rewrite ==> (r.mods matches Some(m) && m.rewrite is Some)
}

/// Whether a rule looks at the client.
pub open spec fn is_client_dependent(r: RuleView) -> bool {
    r.mods matches Some(m) && (m.client is Some || m.ctag is Some)
}

/// Whether one of the rules looks at the client.
pub open spec fn any_client_dependent(list: Seq<BuildView>) -> bool {
    exists|i: int| 0 <= i < list.len() && is_client_dependent((#[trigger] list[i]).rule)
}

/// The bytes of a number, least significant first.
pub open spec fn le_bytes(n: u32) -> Seq<u8> {
    seq![
        (n % 0x100) as u8,
        (n / 0x100 % 0x100) as u8,
        (n / 0x1_0000 % 0x100) as u8,
        (n / 0x100_0000) as u8,
    ]
}

pub open spec fn action_byte(a: Action) -> u8 {
    match a {
        Action::Block => 0,
        Action::Allow => 1,
        Action::Rewrite => 2,
    }
}

/// What is hashed of a list of rules: of each the source line, the list and
/// the action.
pub open spec fn hashed(list: Seq<BuildView>) -> Seq<Seq<u8>>
    decreases list.len(),
{
    if list.len() == 0 {
        Seq::empty()
    } else {
        let r = list.last().rule;
        hashed(list.drop_last()) + seq![
            vstd::utf8::encode_utf8(r.raw),
            seq![0xffu8],
            le_bytes(r.list_id),
            seq![action_byte(r.action)],
        ]
    }
}

/// A compiled, read-only set of filtering rules.
pub struct FilterEngine {
    rules: Vec<Rule>,
    /// Exact-match domain index (hosts entries, fully anchored rules).
    exact: DomainIndex,
    /// Subdomain-match domain index (`||domain^`, bare domains): matches the
    /// domain and any subdomain.
    subdomain: DomainIndex,
    /// Wildcard and regex rules that can override domain matches.
    override_scan: ScanGroup,
    /// Plain wildcard and regex blocks, scanned after higher-priority rules.
    block_scan: ScanGroup,
    /// How many wildcard and regex rules there are of either kind.
    override_rules: usize,
    block_rules: usize,
    /// Whether any verdict depends on the client.
    has_client_dependent_rules: bool,
    /// Stable rule-set content hash.
    content_hash: u64,
    /// The rules that the engine was built from.
    list: Ghost<Seq<BuildView>>,
}

impl View for FilterEngine {
    type V = Seq<BuildView>;

    closed spec fn view(&self) -> Seq<BuildView> {
        self.list@
    }
}

/// Whether `domain` equals `base` or is a subdomain of it.
fn is_subdomain_of(domain: &[char], base: &[char]) -> (r: bool)
    ensures
        r == subdomain_of(domain@, base@),
{
    if same_chars(domain, base) {
        return true;
    }
    let n: usize = domain.len();
    let m: usize = base.len();
    if n <= m {
        return false;
    }
    let tail: &[char] = part(domain, n - m, n);
    assert(tail@ =~= domain@.skip(n - m));
    same_chars(tail, base) && domain[n - m - 1] == '.'
}

/// Whether one of `bases` covers the name.
fn covered_by_any(domain: &[char], bases: &Vec<String>) -> (r: bool)
    ensures
        r == any_covers(text::texts(bases@), domain@),
{
    let ghost list = text::texts(bases@);
    let mut i: usize = 0;
    while i < bases.len()
        invariant
            i <= bases@.len(),
            list == text::texts(bases@),
            forall|k: int| 0 <= k < i ==> !subdomain_of(domain@, #[trigger] list[k]),
        decreases bases@.len() - i,
    {
        let base: Vec<char> = chars_of(bases[i].as_str());
        assert(base@ == list[i as int]);
        if is_subdomain_of(domain, base.as_slice()) {
            return true;
        }
        i = i + 1;
    }
    false
}

impl FilterEngine {
    #[verifier::type_invariant]
    spec fn wf(self) -> bool {
        let list = self.list@;
        &&& scan::keeps(self.rules@, list)
        &&& forall|i: int| 0 <= i < list.len() ==> is_complete((#[trigger] list[i]).rule)
        &&& self.exact.wf()
        &&& forall|d: Seq<char>| #[trigger]
            self.exact.ids(d) == ids_with(list, PatternView::Exact(d))
        &&& self.subdomain.wf()
        &&& forall|d: Seq<char>| #[trigger]
            self.subdomain.ids(d) == ids_with(list, PatternView::Subdomain(d))
        &&& self.override_scan.wf(list, scan_ids(list, true), false)
        &&& self.block_scan.wf(list, scan_ids(list, false), true)
        &&& self.override_rules == scan_ids(list, true).len()
        &&& self.block_rules == scan_ids(list, false).len()
        &&& self.has_client_dependent_rules == any_client_dependent(list)
        &&& self.content_hash == DefaultHasher::spec_finish(hashed(list))
    }

    /// Whether any verdict can depend on the client.
    pub fn has_client_dependent_rules(&self) -> (r: bool)
        ensures
            r == any_client_dependent(self@),
    {
        proof {
            use_type_invariant(self);
        }
        self.has_client_dependent_rules
    }

    /// Stable rule-set generation hash.
    pub fn content_hash(&self) -> (r: u64)
        ensures
            r == DefaultHasher::spec_finish(hashed(self@)),
    {
        proof {
            use_type_invariant(self);
        }
        self.content_hash
    }

    /// How many wildcard and regex rules are scanned, by the kind of scan.
    pub fn scan_report(&self) -> (r: [(&'static str, usize); 2])
        ensures
            r@[0].0@ == "override_rules"@,
            r@[0].1 == scan_ids(self@, true).len(),
            r@[1].0@ == "block_rules"@,
            r@[1].1 == scan_ids(self@, false).len(),
    {
        proof {
            use_type_invariant(self);
        }
        [("override_rules", self.override_rules), ("block_rules", self.block_rules)]
    }

    /// Number of active rules.
    pub fn len(&self) -> (r: usize)
        ensures
            r == self@.len(),
    {
        proof {
            use_type_invariant(self);
        }
        self.rules.len()
    }

    /// Whether there are no active rules.
    pub fn is_empty(&self) -> (r: bool)
        ensures
            r == (self@.len() == 0),
    {
        proof {
            use_type_invariant(self);
        }
        self.rules.len() == 0
    }

    /// Checks rule modifiers against a query.
    fn applicable(
        &self,
        r: &Rule,
        domain: &[char],
        rtype: &str,
        client: &ClientInfo<'_>,
    ) -> (b: bool)
        ensures
            b == applicable(r@, domain@, rtype@, client@),
    {
        let m: &RuleMods = match &r.mods {
            Some(m) => m,
            None => {
                return true;
            },
        };
        if let Some(f) = &m.dnstype {
            if !f.matches(rtype) {
                return false;
            }
        }
        if let Some(f) = &m.client {
            if !f.matches(client) {
                return false;
            }
        }
        if let Some(f) = &m.ctag {
            if !f.matches(client.tags) {
                return false;
            }
        }
        if r.action != Action::Allow && covered_by_any(domain, &m.denyallow) {
            return false;
        }
        true
    }

    /// The first of the candidates with the highest priority among those that
    /// apply.
    fn consider(
        &self,
        ids: &Vec<usize>,
        domain: &[char],
        rtype: &str,
        client: &ClientInfo<'_>,
    ) -> (r: Option<usize>)
        requires
            forall|k: int| 0 <= k < ids@.len() ==> #[trigger] ids@[k] < self@.len(),
        ensures
            r == winner(self@, ids@, domain@, rtype@, client@),
            r matches Some(id) ==> id < self@.len(),
    {
        proof {
            use_type_invariant(self);
        }
        let mut best: Option<usize> = None;
        let mut best_prio: u32 = 0;
        let mut i: usize = 0;
        assert(ids@.take(0) =~= Seq::empty());
        while i < ids.len()
            invariant
                i <= ids@.len(),
                scan::keeps(self.rules@, self@),
                forall|k: int| 0 <= k < ids@.len() ==> #[trigger] ids@[k] < self@.len(),
                best == winner(self@, ids@.take(i as int), domain@, rtype@, client@),
                best matches Some(id) ==> id < self@.len() && best_prio
                    == self@[id as int].rule.priority(),
            decreases ids@.len() - i,
        {
            let id: usize = ids[i];
            let r: &Rule = &self.rules[id];
            assert(r@ == scan::stored(self@[id as int].rule));
            proof {
                assert(ids@.take(i + 1).drop_last() =~= ids@.take(i as int));
                assert(applicable(r@, domain@, rtype@, client@) == applicable(
                    self@[id as int].rule,
                    domain@,
                    rtype@,
                    client@,
                ));
            }
            if self.applicable(r, domain, rtype, client) {
                let prio: u32 = r.priority();
                if best.is_none() || prio > best_prio {
                    best = Some(id);
                    best_prio = prio;
                }
            }
            i = i + 1;
        }
        assert(ids@.take(i as int) =~= ids@);
        best
    }

    /// Collects exact and subdomain candidates.
    fn collect_domain(&self, domain: &[char], out: &mut Vec<usize>)
        ensures
            final(out)@ == old(out)@ + domain_hits(self@, domain@),
    {
        proof {
            use_type_invariant(self);
        }
        let n: usize = domain.len();
        let whole: String = string_of(domain);
        self.exact.collect(whole.as_str(), out);
        let ghost base = out@;
        let ghost all = suffixes_from(domain@, 0);
        let ghost mut seen: Seq<Seq<char>> = Seq::empty();
        let mut start: usize = 0;
        assert(seen + suffixes_from(domain@, 0) =~= all);
        assert(base + suffix_hits(self@, seen) =~= base);
        loop
            invariant
                start <= n,
                n == domain@.len(),
                self.subdomain.wf(),
                forall|d: Seq<char>| #[trigger]
                    self.subdomain.ids(d) == ids_with(self@, PatternView::Subdomain(d)),
                all == suffixes_from(domain@, 0),
                seen + suffixes_from(domain@, start as int) == all,
                out@ == base + suffix_hits(self@, seen),
                base == old(out)@ + ids_with(self@, PatternView::Exact(domain@)),
            decreases n - start,
        {
            let tail: &[char] = part(domain, start, n);
            assert(tail@ =~= domain@.skip(start as int));
            let name: String = string_of(tail);
            let ghost before = out@;
            self.subdomain.collect(name.as_str(), out);
            let e: usize = find_char(domain, '.', start);
            proof {
                let now = seen.push(tail@);
                assert(now.drop_last() =~= seen);
                assert(out@ =~= base + suffix_hits(self@, now));
                seen = now;
            }
            if e == n {
                proof {
                    assert(suffixes_from(domain@, start as int) == seq![tail@]);
                    assert(seen =~= all);
                    assert(out@ =~= old(out)@ + domain_hits(self@, domain@));
                }
                return;
            }
            proof {
                let rest = suffixes_from(domain@, e + 1);
                assert(suffixes_from(domain@, start as int) == seq![tail@] + rest);
                assert(seen + rest =~= all);
            }
            start = e + 1;
        }
    }

    /// Match a query. `domain` is taken without regard to case and trailing
    /// dots; `rtype` is the uppercase record type (e.g. `"A"`, `"AAAA"`).
    pub fn check(&self, domain: &str, rtype: &str, client: &ClientInfo<'_>) -> (r: Verdict)
        ensures
            r@ == verdict_of(
                self@,
                deciding(self@, query_name(domain@), rtype@, client@),
            ),
    {
        let count: usize = self.rules.len();
        proof {
            use_type_invariant(self);
            assert(self@.len() == count);
            lemma_candidates_in_range(self@, query_name(domain@));
        }
        let given: Vec<char> = chars_of(domain);
        let name: Vec<char> = lower_chars(trim_end_char(given.as_slice(), '.'));
        let name_text: String = string_of(name.as_slice());
        let ghost d = query_name(domain@);
        let mut candidates: Vec<usize> = Vec::new();
        let mut tokens: Vec<u32> = Vec::new();
        self.collect_domain(name.as_slice(), &mut candidates);
        self.override_scan.scan(
            &self.rules,
            name_text.as_str(),
            &tokens,
            &mut candidates,
            Ghost(self@),
            Ghost(scan_ids(self@, true)),
            Ghost(false),
        );
        assert(candidates@ =~= first_candidates(self@, d)) by {
            assert(tokens@ =~= Seq::empty());
        }
        let mut best: Option<usize> = self.consider(&candidates, name.as_slice(), rtype, client);
        if best.is_none() {
            for_each_query_token(name_text.as_str(), &mut tokens);
            let mut more: Vec<usize> = Vec::new();
            assert(tokens@ =~= token::query_tokens(d));
            self.block_scan.scan(
                &self.rules,
                name_text.as_str(),
                &tokens,
                &mut more,
                Ghost(self@),
                Ghost(scan_ids(self@, false)),
                Ghost(true),
            );
            assert(more@ =~= second_candidates(self@, d));
            best = self.consider(&more, name.as_slice(), rtype, client);
        }
        match best {
            None => Verdict::Allow { rule: None },
            Some(id) => {
                let r: &Rule = &self.rules[id];
                assert(r@ == scan::stored(self@[id as int].rule));
                assert(is_complete(self@[id as int].rule));
                let info: MatchInfo = MatchInfo {
                    rule: r.raw.clone(),
                    list_id: r.list_id,
                    rule_id: id as u32,
                };
                match r.action {
                    Action::Allow => Verdict::Allow { rule: Some(info) },
                    Action::Block => Verdict::Block(info),
                    Action::Rewrite => {
                        let data: RewriteData = r.mods.as_ref().unwrap().rewrite.as_ref().unwrap().copied();
                        Verdict::Rewrite { info, data }
                    },
                }
            },
        }
    }
}

/// The ids of the rules with a given pattern.
proof fn lemma_ids_with(list: Seq<BuildView>, p: PatternView, x: usize)
    requires
        list.len() <= usize::MAX,
    ensures
        ids_with(list, p).contains(x) <==> x < list.len() && list[x as int].rule.pattern == p,
{
    lemma_all_ids(list, x);
    scan::lemma_filter_members(
        all_ids(list),
        |id: usize| list[id as int].rule.pattern == p,
        x,
    );
}

proof fn lemma_all_ids(list: Seq<BuildView>, x: usize)
    requires
        list.len() <= usize::MAX,
    ensures
        all_ids(list).contains(x) <==> x < list.len(),
{
    if x < list.len() {
        assert(all_ids(list)[x as int] == x);
    }
    if all_ids(list).contains(x) {
        let k = choose|k: int| 0 <= k < all_ids(list).len() && all_ids(list)[k] == x;
        assert(k == x);
    }
}

/// The ids of the scanned rules.
pub proof fn lemma_scan_ids(list: Seq<BuildView>, over: bool, x: usize)
    requires
        list.len() <= usize::MAX,
    ensures
        scan_ids(list, over).contains(x) <==> x < list.len() && scan::source_of(
            list[x as int].rule.pattern,
        ) is Some && overrides(list[x as int].rule) == over,
{
    lemma_all_ids(list, x);
    scan::lemma_filter_members(
        all_ids(list),
        |id: usize|
            scan::source_of(list[id as int].rule.pattern) is Some && overrides(
                list[id as int].rule,
            ) == over,
        x,
    );
}

/// The subdomain rules about one of `names`.
proof fn lemma_suffix_hits(list: Seq<BuildView>, names: Seq<Seq<char>>, x: usize)
    requires
        list.len() <= usize::MAX,
    ensures
        suffix_hits(list, names).contains(x) <==> x < list.len() && (list[x as int].rule.pattern
            matches PatternView::Subdomain(b) && names.contains(b)),
    decreases names.len(),
{
    if names.len() > 0 {
        let rest = names.drop_last();
        let last = names.last();
        lemma_suffix_hits(list, rest, x);
        lemma_ids_with(list, PatternView::Subdomain(last), x);
        scan::lemma_add_contains(
            suffix_hits(list, rest),
            ids_with(list, PatternView::Subdomain(last)),
            x,
        );
        assert forall|b: Seq<char>| names.contains(b) <==> rest.contains(b) || b == last by {
            if rest.contains(b) {
                let k = choose|k: int| 0 <= k < rest.len() && rest[k] == b;
                assert(names[k] == b);
            }
            if b == last {
                assert(names[names.len() - 1] == b);
            }
            if names.contains(b) && b != last {
                let k = choose|k: int| 0 <= k < names.len() && names[k] == b;
                assert(rest[k] == b);
            }
        }
    }
}

/// What the first candidates are.
pub proof fn lemma_first_candidates(list: Seq<BuildView>, d: Seq<char>, x: usize)
    requires
        list.len() <= usize::MAX,
    ensures
        first_candidates(list, d).contains(x) <==> x < list.len() && match list[x as int].rule.pattern {
            PatternView::Exact(e) => e == d,
            PatternView::Subdomain(b) => suffixes_from(d, 0).contains(b),
            _ => scan::hit(list, x, d) && overrides(list[x as int].rule),
        },
{
    lemma_ids_with(list, PatternView::Exact(d), x);
    lemma_suffix_hits(list, suffixes_from(d, 0), x);
    lemma_scan_ids(list, true, x);
    let ids = scan_ids(list, true);
    scan::lemma_scanned_members(list, ids, false, d, Seq::empty(), x);
    scan::lemma_add_contains(
        ids_with(list, PatternView::Exact(d)),
        suffix_hits(list, suffixes_from(d, 0)),
        x,
    );
    scan::lemma_add_contains(
        domain_hits(list, d),
        scan::scanned(list, ids, false, d, Seq::empty()),
        x,
    );
}

/// Every candidate is the id of a rule.
pub proof fn lemma_candidates_in_range(list: Seq<BuildView>, d: Seq<char>)
    requires
        list.len() <= usize::MAX,
    ensures
        forall|k: int|
            0 <= k < first_candidates(list, d).len() ==> #[trigger] first_candidates(list, d)[k]
                < list.len(),
        forall|k: int|
            0 <= k < second_candidates(list, d).len() ==> #[trigger] second_candidates(list, d)[k]
                < list.len(),
{
    let first = first_candidates(list, d);
    assert forall|k: int| 0 <= k < first.len() implies #[trigger] first[k] < list.len() by {
        assert(first.contains(first[k]));
        lemma_first_candidates(list, d, first[k]);
    }
    let second = second_candidates(list, d);
    assert forall|k: int| 0 <= k < second.len() implies #[trigger] second[k] < list.len() by {
        assert(second.contains(second[k]));
        scan::lemma_scanned_members(
            list,
            scan_ids(list, false),
            true,
            d,
            token::query_tokens(d),
            second[k],
        );
        lemma_scan_ids(list, false, second[k]);
    }
}

/// One more rule and the ids that pass a test on the rules.
proof fn lemma_ids_push(
    list: Seq<BuildView>,
    b: BuildView,
    p: spec_fn(BuildView) -> bool,
)
    requires
        list.len() < usize::MAX,
    ensures
        all_ids(list.push(b)).filter(|id: usize| p(list.push(b)[id as int])) == if p(b) {
            all_ids(list).filter(|id: usize| p(list[id as int])).push(list.len() as usize)
        } else {
            all_ids(list).filter(|id: usize| p(list[id as int]))
        },
{
    reveal(Seq::filter);
    let now = list.push(b);
    let q = |id: usize| p(list[id as int]);
    let r = |id: usize| p(now[id as int]);
    assert(all_ids(now).drop_last() =~= all_ids(list));
    assert(all_ids(now).last() == list.len() as usize);
    lemma_filter_agree(all_ids(list), q, r);
}

/// Filters that agree on a sequence select the same items of it.
proof fn lemma_filter_agree(s: Seq<usize>, p: spec_fn(usize) -> bool, q: spec_fn(usize) -> bool)
    requires
        forall|k: int| 0 <= k < s.len() ==> p(#[trigger] s[k]) == q(s[k]),
    ensures
        s.filter(p) == s.filter(q),
    decreases s.len(),
{
    reveal(Seq::filter);
    if s.len() > 0 {
        let rest = s.drop_last();
        assert forall|k: int| 0 <= k < rest.len() implies p(#[trigger] rest[k]) == q(rest[k]) by {
            assert(rest[k] == s[k]);
        }
        lemma_filter_agree(rest, p, q);
        assert(p(s[s.len() - 1]) == q(s[s.len() - 1]));
    }
}

proof fn lemma_ids_with_push(list: Seq<BuildView>, b: BuildView, p: PatternView)
    requires
        list.len() < usize::MAX,
    ensures
        ids_with(list.push(b), p) == if b.rule.pattern == p {
            ids_with(list, p).push(list.len() as usize)
        } else {
            ids_with(list, p)
        },
{
    let test = |x: BuildView| x.rule.pattern == p;
    lemma_ids_push(list, b, test);
    let now = list.push(b);
    lemma_filter_agree(
        all_ids(now),
        |id: usize| test(now[id as int]),
        |id: usize| now[id as int].rule.pattern == p,
    );
    lemma_filter_agree(
        all_ids(list),
        |id: usize| test(list[id as int]),
        |id: usize| list[id as int].rule.pattern == p,
    );
}

/// One more rule joins the scanned ones where it is one of them.
pub proof fn lemma_scan_ids_push(list: Seq<BuildView>, b: BuildView, over: bool)
    requires
        list.len() < usize::MAX,
    ensures
        scan_ids(list.push(b), over) == if scan::source_of(b.rule.pattern) is Some && overrides(
            b.rule,
        ) == over {
            scan_ids(list, over).push(list.len() as usize)
        } else {
            scan_ids(list, over)
        },
{
    let test = |x: BuildView|
        scan::source_of(x.rule.pattern) is Some && overrides(x.rule) == over;
    lemma_ids_push(list, b, test);
    let now = list.push(b);
    lemma_filter_agree(
        all_ids(now),
        |id: usize| test(now[id as int]),
        |id: usize|
            scan::source_of(now[id as int].rule.pattern) is Some && overrides(now[id as int].rule)
                == over,
    );
    lemma_filter_agree(
        all_ids(list),
        |id: usize| test(list[id as int]),
        |id: usize|
            scan::source_of(list[id as int].rule.pattern) is Some && overrides(
                list[id as int].rule,
            ) == over,
    );
}

/// The ids and tokens of the rules to scan.
spec fn is_meta(meta: Seq<(usize, Vec<u32>)>, list: Seq<BuildView>, over: bool) -> bool {
    &&& meta.map_values(|m: (usize, Vec<u32>)| m.0) == scan_ids(list, over)
    &&& forall|k: int|
        0 <= k < meta.len() ==> (#[trigger] meta[k]).0 < list.len() && meta[k].1@
            == list[meta[k].0 as int].index_tokens
}

/// Adds what identifies a rule to a hash.
fn hash_rule(h: &mut DefaultHasher, raw: &str, list_id: u32, action: Action)
    ensures
        final(h)@ == old(h)@ + seq![
            vstd::utf8::encode_utf8(raw@),
            seq![0xffu8],
            le_bytes(list_id),
            seq![action_byte(action)],
        ],
{
    h.write(raw.as_bytes());
    let end: [u8; 1] = [0xff];
    h.write(&end);
    let id: [u8; 4] = [
        (list_id % 0x100) as u8,
        (list_id / 0x100 % 0x100) as u8,
        (list_id / 0x1_0000 % 0x100) as u8,
        (list_id / 0x100_0000) as u8,
    ];
    h.write(&id);
    let act: [u8; 1] = [
        match action {
            Action::Block => 0,
            Action::Allow => 1,
            Action::Rewrite => 2,
        },
    ];
    h.write(&act);
    proof {
        assert(end@ =~= seq![0xffu8]);
        assert(id@ =~= le_bytes(list_id));
        assert(act@ =~= seq![action_byte(action)]);
        assert(h@ =~= old(h)@ + seq![
            vstd::utf8::encode_utf8(raw@),
            seq![0xffu8],
            le_bytes(list_id),
            seq![action_byte(action)],
        ]);
    }
}

impl FilterEngine {
    /// Builds an engine from rules prepared by a
    /// [`Compiler`](crate::filter::list::Compiler).
    pub fn from_rules(rules: Vec<BuildRule>) -> (r: FilterEngine)
        requires
            forall|i: int| 0 <= i < rules@.len() ==> is_complete((#[trigger] rules@[i])@.rule),
        ensures
            r@ == rule::build_views(rules@),
    {
        let total: usize = rules.len();
        let ghost all = rule::build_views(rules@);
        let mut records: Vec<Rule> = Vec::new();
        let mut exact: DomainIndex = DomainIndex::new();
        let mut subdomain: DomainIndex = DomainIndex::new();
        let mut override_meta: Vec<(usize, Vec<u32>)> = Vec::new();
        let mut block_meta: Vec<(usize, Vec<u32>)> = Vec::new();
        let mut has_client_dependent_rules: bool = false;
        let mut ch: DefaultHasher = DefaultHasher::new();
        let ghost mut list: Seq<BuildView> = Seq::empty();
        proof {
            reveal(Seq::filter);
            assert(all_ids(list) =~= Seq::empty());
            assert forall|d: Seq<char>| #[trigger]
                exact.ids(d) == ids_with(list, PatternView::Exact(d)) by {
                assert(ids_with(list, PatternView::Exact(d)) =~= Seq::empty());
            }
            assert forall|d: Seq<char>| #[trigger]
                subdomain.ids(d) == ids_with(list, PatternView::Subdomain(d)) by {
                assert(ids_with(list, PatternView::Subdomain(d)) =~= Seq::empty());
            }
            assert(override_meta@.map_values(|m: (usize, Vec<u32>)| m.0) =~= scan_ids(list, true));
            assert(block_meta@.map_values(|m: (usize, Vec<u32>)| m.0) =~= scan_ids(list, false));
            assert(all.take(0) =~= list);
        }
        for br in it: rules
            invariant
                it.seq() == rules@,
                total == rules@.len(),
                all == rule::build_views(rules@),
                forall|i: int| 0 <= i < all.len() ==> is_complete((#[trigger] all[i]).rule),
                list == all.take(it.index() as int),
                records@.len() == list.len(),
                scan::keeps(records@, list),
                exact.wf(),
                forall|d: Seq<char>| #[trigger]
                    exact.ids(d) == ids_with(list, PatternView::Exact(d)),
                subdomain.wf(),
                forall|d: Seq<char>| #[trigger]
                    subdomain.ids(d) == ids_with(list, PatternView::Subdomain(d)),
                is_meta(override_meta@, list, true),
                is_meta(block_meta@, list, false),
                has_client_dependent_rules == any_client_dependent(list),
                ch@ == hashed(list),
        {
            let ghost view = br@;
            let ghost before = list;
            let id: usize = records.len();
            proof {
                assert(view == all[it.index() as int]);
                list = before.push(view);
                assert(all.take(it.index() + 1) =~= list);
                assert(list.drop_last() =~= before);
            }
            let BuildRule { rule, index_tokens, badfilter: _, signature: _ } = br;
            let Rule { raw, action, pattern, mods, list_id } = rule;
            hash_rule(&mut ch, raw.as_str(), list_id, action);
            let (by_client, important): (bool, bool) = match &mods {
                Some(m) => (m.client.is_some() || m.ctag.is_some(), m.important),
                None => (false, false),
            };
            if by_client {
                has_client_dependent_rules = true;
            }
            proof {
                assert(by_client == is_client_dependent(view.rule));
                assert(list[list.len() - 1] == view);
                assert(forall|i: int| 0 <= i < before.len() ==> list[i] == before[i]);
                if any_client_dependent(before) {
                    let k = choose|k: int|
                        0 <= k < before.len() && is_client_dependent((#[trigger] before[k]).rule);
                    assert(is_client_dependent(list[k].rule));
                }
                if any_client_dependent(list) && !by_client {
                    let k = choose|k: int|
                        0 <= k < list.len() && is_client_dependent((#[trigger] list[k]).rule);
                    assert(is_client_dependent(before[k].rule));
                }
                lemma_scan_ids_push(before, view, true);
                lemma_scan_ids_push(before, view, false);
                assert forall|p: PatternView| #[trigger] ids_with(list, p) == if view.rule.pattern
                    == p {
                    ids_with(before, p).push(before.len() as usize)
                } else {
                    ids_with(before, p)
                } by {
                    lemma_ids_with_push(before, view, p);
                }
            }
            // A wildcard or regex rule "overrides" if its priority can exceed a
            // plain domain block: it is an allow (`@@`) or `$important`.
            let override_capable: bool = action == Action::Allow || important;
            assert(override_capable == overrides(view.rule));
            let ghost over_before = override_meta@;
            let ghost block_before = block_meta@;
            let scanned: bool = match &pattern {
                Pattern::Exact(d) => {
                    exact.push(d, id);
                    false
                },
                Pattern::Subdomain(d) => {
                    subdomain.push(d, id);
                    false
                },
                Pattern::Wildcard(_) => true,
                Pattern::Regex(_) => true,
            };
            if scanned {
                if override_capable {
                    override_meta.push((id, index_tokens));
                } else {
                    block_meta.push((id, index_tokens));
                }
            }
            proof {
                let first = |m: (usize, Vec<u32>)| m.0;
                assert(override_meta@.map_values(first) =~= scan_ids(list, true)) by {
                    if scanned && override_capable {
                        assert(override_meta@.map_values(first) =~= over_before.map_values(
                            first,
                        ).push(id));
                    }
                }
                assert(block_meta@.map_values(first) =~= scan_ids(list, false)) by {
                    if scanned && !override_capable {
                        assert(block_meta@.map_values(first) =~= block_before.map_values(
                            first,
                        ).push(id));
                    }
                }
                assert forall|k: int| 0 <= k < override_meta@.len() implies (
                #[trigger] override_meta@[k]).0 < list.len() && override_meta@[k].1@
                    == list[override_meta@[k].0 as int].index_tokens by {
                    if k < over_before.len() {
                        assert(override_meta@[k] == over_before[k]);
                    }
                }
                assert forall|k: int| 0 <= k < block_meta@.len() implies (
                #[trigger] block_meta@[k]).0 < list.len() && block_meta@[k].1@
                    == list[block_meta@[k].0 as int].index_tokens by {
                    if k < block_before.len() {
                        assert(block_meta@[k] == block_before[k]);
                    }
                }
            }
            let ghost records_before = records@;
            let kept: Rule = Rule {
                raw: cut_to_bytes(raw.as_str(), MAX_RAW_LEN),
                action,
                pattern,
                mods,
                list_id,
            };
            assert(kept@ == scan::stored(view.rule));
            records.push(kept);
        }
        proof {
            assert(list =~= all);
            assert forall|over: bool| scan::all_scanned(list, #[trigger] scan_ids(list, over)) by {
                let ids = scan_ids(list, over);
                assert forall|k: int| 0 <= k < ids.len() implies (#[trigger] ids[k]) < list.len()
                    && scan::source_of(list[ids[k] as int].rule.pattern) is Some by {
                    assert(ids.contains(ids[k]));
                    lemma_scan_ids(list, over, ids[k]);
                }
            }
        }
        let override_rules: usize = override_meta.len();
        let block_rules: usize = block_meta.len();
        let override_scan: ScanGroup = build_scan_group(
            override_meta,
            &records,
            false,
            Ghost(list),
        );
        let block_scan: ScanGroup = build_scan_group(block_meta, &records, true, Ghost(list));
        FilterEngine {
            rules: records,
            exact,
            subdomain,
            override_scan,
            block_scan,
            override_rules,
            block_rules,
            has_client_dependent_rules,
            content_hash: ch.finish(),
            list: Ghost(list),
        }
    }
}

} // verus!
