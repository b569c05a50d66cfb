//! Token-indexed and fallback scans of wildcard and regex rules.

use std::collections::HashMap;

use vstd::prelude::*;

use crate::filter::regexes;
use crate::filter::regexes::{CompiledRegex, CompiledSet};
use crate::filter::rule::{BuildView, Pattern, PatternView, Rule, RuleView};
use crate::text;

verus! {

/// Maximum patterns per fallback set.
pub const FALLBACK_CHUNK: usize = 256;

/// Compiled-size cap for each fallback set (bytes).
pub const FALLBACK_REGEXSET_SIZE_LIMIT: usize = 16777216;

/// Longest source line that is kept with a rule, in bytes.
pub const MAX_RAW_LEN: usize = 65535;

/// The source of a wildcard or regex pattern.
pub open spec fn source_of(p: PatternView) -> Option<Seq<char>> {
    match p {
        PatternView::Wildcard(src) => Some(src),
        PatternView::Regex(src) => Some(src),
        _ => None,
    }
}

/// A rule as an engine keeps it: a long source line is cut.
pub open spec fn stored(r: RuleView) -> RuleView {
    RuleView { raw: text::utf8_prefix(r.raw, MAX_RAW_LEN as nat), ..r }
}

/// Whether `rules` are the rules of `list` as an engine keeps them.
pub open spec fn keeps(rules: Seq<Rule>, list: Seq<BuildView>) -> bool {
    &&& rules.len() == list.len()
    &&& forall|i: int| 0 <= i < list.len() ==> (#[trigger] rules[i])@ == stored(list[i].rule)
}

/// The sources of the rules with the given ids.
pub open spec fn sources(list: Seq<BuildView>, ids: Seq<usize>) -> Seq<Seq<char>> {
    ids.map_values(|id: usize| source_of(list[id as int].rule.pattern)->0)
}

/// Whether the ids are those of wildcard and regex rules of the list.
pub open spec fn all_scanned(list: Seq<BuildView>, ids: Seq<usize>) -> bool {
    forall|k: int|
        0 <= k < ids.len() ==> (#[trigger] ids[k]) < list.len() && source_of(
            list[ids[k] as int].rule.pattern,
        ) is Some
}

/// Whether the wildcard or regex rule `id` matches the domain.
pub open spec fn hit(list: Seq<BuildView>, id: usize, domain: Seq<char>) -> bool {
    source_of(list[id as int].rule.pattern) matches Some(src) && regexes::regex_matches(src, domain)
}

/// Those of `ids` that match the domain.
pub open spec fn hits(list: Seq<BuildView>, ids: Seq<usize>, domain: Seq<char>) -> Seq<usize> {
    ids.filter(|id: usize| hit(list, id, domain))
}

/// How often `t` occurs in `tokens`.
pub open spec fn count_in(tokens: Seq<u32>, t: u32) -> nat
    decreases tokens.len(),
{
    if tokens.len() == 0 {
        0
    } else {
        count_in(tokens.drop_last(), t) + if tokens.last() == t { 1nat } else { 0nat }
    }
}

/// How often `t` occurs among the tokens of the rules with the given ids.
pub open spec fn occurrences(list: Seq<BuildView>, ids: Seq<usize>, t: u32) -> nat
    decreases ids.len(),
{
    if ids.len() == 0 {
        0
    } else {
        occurrences(list, ids.drop_last(), t) + count_in(list[ids.last() as int].index_tokens, t)
    }
}

/// How often a token occurs, as far as it is counted.
pub open spec fn frequency(list: Seq<BuildView>, ids: Seq<usize>, t: u32) -> nat {
    if occurrences(list, ids, t) <= u64::MAX {
        occurrences(list, ids, t)
    } else {
        u64::MAX as nat
    }
}

/// The rarest of `tokens` among the rules with the given ids; the first of
/// several.
pub open spec fn rarest(list: Seq<BuildView>, ids: Seq<usize>, tokens: Seq<u32>) -> Option<u32>
    decreases tokens.len(),
{
    if tokens.len() == 0 {
        None
    } else {
        match rarest(list, ids, tokens.drop_last()) {
            None => Some(tokens.last()),
            Some(b) => if frequency(list, ids, tokens.last()) < frequency(list, ids, b) {
                Some(tokens.last())
            } else {
                Some(b)
            },
        }
    }
}

/// The token under which a rule of the group `ids` is indexed.
pub open spec fn index_token(list: Seq<BuildView>, ids: Seq<usize>, id: usize) -> Option<u32> {
    rarest(list, ids, list[id as int].index_tokens)
}

/// The rules of a group that are indexed under `t`.
pub open spec fn bucket(list: Seq<BuildView>, ids: Seq<usize>, t: u32) -> Seq<usize> {
    ids.filter(|id: usize| index_token(list, ids, id) == Some(t))
}

/// The rules of a group that are scanned for every name: all of them, or in an
/// indexed group those without a token.
pub open spec fn fallback(list: Seq<BuildView>, ids: Seq<usize>, indexed: bool) -> Seq<usize> {
    if indexed {
        ids.filter(|id: usize| index_token(list, ids, id) is None)
    } else {
        ids
    }
}

/// The `k`-th piece of `ids`, of at most [`FALLBACK_CHUNK`] ids.
pub open spec fn chunk(ids: Seq<usize>, k: int) -> Seq<usize> {
    ids.subrange(
        k * FALLBACK_CHUNK,
        if (k + 1) * FALLBACK_CHUNK <= ids.len() {
            (k + 1) * FALLBACK_CHUNK
        } else {
            ids.len() as int
        },
    )
}

/// How many pieces `n` ids make.
pub open spec fn chunk_count(n: nat) -> nat {
    ((n + FALLBACK_CHUNK - 1) / FALLBACK_CHUNK as int) as nat
}

/// Whether the rules with the given ids compile into one set.
pub open spec fn compiles(list: Seq<BuildView>, ids: Seq<usize>) -> bool {
    regexes::set_builds(
        sources(list, ids),
        FALLBACK_REGEXSET_SIZE_LIMIT as nat,
        usize::BITS as nat,
    )
}

/// Those of the first `n` pieces that compile into a set.
pub open spec fn set_chunks(list: Seq<BuildView>, ids: Seq<usize>, n: nat) -> Seq<Seq<usize>>
    decreases n,
{
    if n == 0 {
        Seq::empty()
    } else {
        let before = set_chunks(list, ids, (n - 1) as nat);
        let c = chunk(ids, n - 1);
        if compiles(list, c) {
            before.push(c)
        } else {
            before
        }
    }
}

/// The ids of those of the first `n` pieces that do not.
pub open spec fn loose_ids(list: Seq<BuildView>, ids: Seq<usize>, n: nat) -> Seq<usize>
    decreases n,
{
    if n == 0 {
        Seq::empty()
    } else {
        let before = loose_ids(list, ids, (n - 1) as nat);
        let c = chunk(ids, n - 1);
        if compiles(list, c) {
            before
        } else {
            before + c
        }
    }
}

/// The matching ids of each of `chunks`, one after the other.
pub open spec fn chunk_hits(
    list: Seq<BuildView>,
    chunks: Seq<Seq<usize>>,
    domain: Seq<char>,
) -> Seq<usize>
    decreases chunks.len(),
{
    if chunks.len() == 0 {
        Seq::empty()
    } else {
        chunk_hits(list, chunks.drop_last(), domain) + hits(list, chunks.last(), domain)
    }
}

/// The matching ids under each of `tokens`, one after the other.
pub open spec fn token_hits(
    list: Seq<BuildView>,
    ids: Seq<usize>,
    tokens: Seq<u32>,
    domain: Seq<char>,
) -> Seq<usize>
    decreases tokens.len(),
{
    if tokens.len() == 0 {
        Seq::empty()
    } else {
        token_hits(list, ids, tokens.drop_last(), domain) + hits(
            list,
            bucket(list, ids, tokens.last()),
            domain,
        )
    }
}

/// The rules of the group `ids` found for a name with the given tokens: from
/// the sets, from what no set holds, and from the index.
pub open spec fn scanned(
    list: Seq<BuildView>,
    ids: Seq<usize>,
    indexed: bool,
    domain: Seq<char>,
    tokens: Seq<u32>,
) -> Seq<usize> {
    let fb = fallback(list, ids, indexed);
    let n = chunk_count(fb.len());
    chunk_hits(list, set_chunks(list, fb, n), domain) + hits(list, loose_ids(list, fb, n), domain)
        + if indexed {
        token_hits(list, ids, tokens, domain)
    } else {
        Seq::empty()
    }
}

/// Maps tokens to the ids of the rules indexed under them.
#[derive(Debug)]
pub struct TokenIndex {
    slots: HashMap<u32, usize>,
    buckets: Vec<Vec<usize>>,
}

impl TokenIndex {
    /// Each token has a bucket of its own.
    pub closed spec fn wf(self) -> bool {
        let m = self.slots@;
        &&& forall|t: u32| m.contains_key(t) ==> #[trigger] m[t] < self.buckets@.len()
        &&& forall|t: u32, u: u32|
            m.contains_key(t) && m.contains_key(u) && #[trigger] m[t] == #[trigger] m[u] ==> t == u
    }

    /// The ids under a token, in the order in which they were added.
    pub closed spec fn ids(self, t: u32) -> Seq<usize> {
        if self.slots@.contains_key(t) {
            self.buckets@[self.slots@[t] as int]@
        } else {
            Seq::empty()
        }
    }

    fn new() -> (r: TokenIndex)
        ensures
            r.wf(),
            forall|t: u32| #[trigger] r.ids(t) == Seq::<usize>::empty(),
    {
        TokenIndex { slots: HashMap::new(), buckets: Vec::new() }
    }

    fn push(&mut self, t: u32, id: usize)
        requires
            old(self).wf(),
        ensures
            final(self).wf(),
            forall|u: u32| #[trigger]
                final(self).ids(u) == if u == t {
                    old(self).ids(u).push(id)
                } else {
                    old(self).ids(u)
                },
    {
        broadcast use vstd::std_specs::hash::group_hash_axioms;

        let found: Option<usize> = match self.slots.get(&t) {
            Some(slot) => Some(*slot),
            None => None,
        };
        let ghost before = *self;
        match found {
            Some(slot) => {
                self.buckets[slot].push(id);
                assert forall|u: u32| #[trigger] self.ids(u) == if u == t {
                    before.ids(u).push(id)
                } else {
                    before.ids(u)
                } by {
                    let m = self.slots@;
                    if m.contains_key(u) && u != t {
                        assert(m[u] != m[t]);
                    }
                }
            },
            None => {
                let slot: usize = self.buckets.len();
                let mut bucket: Vec<usize> = Vec::new();
                bucket.push(id);
                self.buckets.push(bucket);
                self.slots.insert(t, slot);
                assert forall|u: u32| #[trigger] self.ids(u) == if u == t {
                    before.ids(u).push(id)
                } else {
                    before.ids(u)
                } by {
                    if u == t {
                        assert(self.ids(u) =~= before.ids(u).push(id));
                    } else if self.slots@.contains_key(u) {
                        assert(before.slots@[u] < before.buckets@.len());
                    }
                }
            },
        }
    }

    /// The bucket of a token.
    fn get(&self, t: u32) -> (r: Option<&Vec<usize>>)
        requires
            self.wf(),
        ensures
            match r {
                Some(v) => v@ == self.ids(t),
                None => self.ids(t) == Seq::<usize>::empty(),
            },
    {
        broadcast use vstd::std_specs::hash::group_hash_axioms;

        match self.slots.get(&t) {
            Some(slot) => Some(&self.buckets[*slot]),
            None => None,
        }
    }
}

/// Token-indexed and fallback wildcard and regex scans.
#[derive(Debug)]
pub struct ScanGroup {
    index: TokenIndex,
    fallback_sets: Vec<(CompiledSet, Vec<usize>)>,
    fallback_individual: Vec<usize>,
}

/// The ids of each set.
spec fn set_ids(sets: Seq<(CompiledSet, Vec<usize>)>) -> Seq<Seq<usize>> {
    sets.map_values(|s: (CompiledSet, Vec<usize>)| s.1@)
}

impl ScanGroup {
    /// Whether this is the scan of the group `ids` of the rules of `list`.
    pub closed spec fn wf(self, list: Seq<BuildView>, ids: Seq<usize>, indexed: bool) -> bool {
        let fb = fallback(list, ids, indexed);
        let n = chunk_count(fb.len());
        &&& all_scanned(list, ids)
        &&& self.index.wf()
        &&& forall|t: u32| #[trigger]
            self.index.ids(t) == if indexed {
                bucket(list, ids, t)
            } else {
                Seq::empty()
            }
        &&& set_ids(self.fallback_sets@) == set_chunks(list, fb, n)
        &&& forall|k: int|
            0 <= k < self.fallback_sets@.len() ==> (#[trigger] self.fallback_sets@[k]).0@
                == sources(list, self.fallback_sets@[k].1@)
        &&& self.fallback_individual@ == loose_ids(list, fb, n)
    }
}

proof fn lemma_occurrences_push(list: Seq<BuildView>, ids: Seq<usize>, k: int, t: u32)
    requires
        0 <= k < ids.len(),
    ensures
        occurrences(list, ids.take(k + 1), t) == occurrences(list, ids.take(k), t) + count_in(
            list[ids[k] as int].index_tokens,
            t,
        ),
{
    assert(ids.take(k + 1).drop_last() =~= ids.take(k));
}

/// Counts how often each token occurs.
fn count_tokens(meta: &Vec<(usize, Vec<u32>)>, Ghost(list): Ghost<Seq<BuildView>>) -> (r: HashMap<
    u32,
    u64,
>)
    requires
        forall|k: int|
            0 <= k < meta@.len() ==> (#[trigger] meta@[k]).1@
                == list[meta@[k].0 as int].index_tokens,
    ensures
        forall|t: u32| frequency(list, meta_ids(meta@), t) == #[trigger] counted(r@, t),
{
    broadcast use vstd::std_specs::hash::group_hash_axioms;

    let ghost ids = meta_ids(meta@);
    let mut freq: HashMap<u32, u64> = HashMap::new();
    let mut i: usize = 0;
    assert(ids.take(0) =~= Seq::empty());
    while i < meta.len()
        invariant
            i <= meta@.len(),
            ids == meta_ids(meta@),
            forall|k: int|
                0 <= k < meta@.len() ==> (#[trigger] meta@[k]).1@
                    == list[meta@[k].0 as int].index_tokens,
            forall|t: u32|
                capped(occurrences(list, ids.take(i as int), t)) == counted(freq@, t),
        decreases meta@.len() - i,
    {
        let toks: &Vec<u32> = &meta[i].1;
        let ghost before = freq@;
        let mut j: usize = 0;
        assert(toks@.take(0) =~= Seq::empty());
        while j < toks.len()
            invariant
                j <= toks@.len(),
                forall|t: u32|
                    capped(
                        occurrences(list, ids.take(i as int), t) + count_in(
                            toks@.take(j as int),
                            t,
                        ),
                    ) == counted(freq@, t),
            decreases toks@.len() - j,
        {
            let t: u32 = toks[j];
            let ghost prev = freq@;
            let seen: u64 = match freq.get(&t) {
                Some(c) => *c,
                None => 0,
            };
            assert(seen == counted(prev, t));
            let next: u64 = if seen < u64::MAX {
                seen + 1
            } else {
                seen
            };
            freq.insert(t, next);
            proof {
                assert(toks@.take(j + 1).drop_last() =~= toks@.take(j as int));
                assert forall|u: u32|
                    capped(
                        occurrences(list, ids.take(i as int), u) + count_in(toks@.take(j + 1), u),
                    ) == counted(freq@, u) by {
                    let n = occurrences(list, ids.take(i as int), u) + count_in(
                        toks@.take(j as int),
                        u,
                    );
                    assert(capped(n) == counted(prev, u));
                }
            }
            j = j + 1;
        }
        proof {
            assert(toks@.take(j as int) =~= toks@);
            assert forall|t: u32|
                capped(occurrences(list, ids.take(i + 1), t)) == counted(freq@, t) by {
                lemma_occurrences_push(list, ids, i as int, t);
                assert(capped(occurrences(list, ids.take(i as int), t) + count_in(toks@, t))
                    == counted(freq@, t));
            }
        }
        i = i + 1;
    }
    proof {
        assert(ids.take(i as int) =~= ids);
        assert forall|t: u32| frequency(list, ids, t) == #[trigger] counted(freq@, t) by {
            assert(capped(occurrences(list, ids, t)) == counted(freq@, t));
        }
    }
    freq
}

/// The ids of the rules to scan.
spec fn meta_ids(meta: Seq<(usize, Vec<u32>)>) -> Seq<usize> {
    meta.map_values(|m: (usize, Vec<u32>)| m.0)
}

spec fn capped(n: nat) -> nat {
    if n <= u64::MAX {
        n
    } else {
        u64::MAX as nat
    }
}

spec fn counted(m: Map<u32, u64>, t: u32) -> nat {
    if m.contains_key(t) {
        m[t] as nat
    } else {
        0
    }
}

/// The rarest of a rule's tokens.
fn pick_rarest(
    tokens: &Vec<u32>,
    freq: &HashMap<u32, u64>,
    Ghost(list): Ghost<Seq<BuildView>>,
    Ghost(ids): Ghost<Seq<usize>>,
) -> (r: Option<u32>)
    requires
        forall|t: u32| frequency(list, ids, t) == #[trigger] counted(freq@, t),
    ensures
        r == rarest(list, ids, tokens@),
{
    broadcast use vstd::std_specs::hash::group_hash_axioms;

    let mut best: Option<u32> = None;
    let mut best_count: u64 = 0;
    let mut i: usize = 0;
    assert(tokens@.take(0) =~= Seq::empty());
    while i < tokens.len()
        invariant
            i <= tokens@.len(),
            forall|t: u32| frequency(list, ids, t) == #[trigger] counted(freq@, t),
            best == rarest(list, ids, tokens@.take(i as int)),
            best matches Some(b) ==> best_count == frequency(list, ids, b),
        decreases tokens@.len() - i,
    {
        let t: u32 = tokens[i];
        let count: u64 = match freq.get(&t) {
            Some(c) => *c,
            None => 0,
        };
        assert(count == counted(freq@, t));
        assert(tokens@.take(i + 1).drop_last() =~= tokens@.take(i as int));
        if best.is_none() || count < best_count {
            best = Some(t);
            best_count = count;
        }
        i = i + 1;
    }
    assert(tokens@.take(i as int) =~= tokens@);
    best
}

/// The compiled regex of a wildcard or regex rule.
fn regex_of(rule: &Rule) -> (r: Option<&CompiledRegex>)
    ensures
        match r {
            Some(re) => source_of(rule@.pattern) == Some(re@),
            None => source_of(rule@.pattern) is None,
        },
{
    match &rule.pattern {
        Pattern::Wildcard(re) => Some(re),
        Pattern::Regex(re) => Some(re),
        _ => None,
    }
}

/// Compiles the rules with the given ids into sets, as far as they compile.
fn build_sets(
    ids: &Vec<usize>,
    rules: &Vec<Rule>,
    Ghost(list): Ghost<Seq<BuildView>>,
) -> (r: (Vec<(CompiledSet, Vec<usize>)>, Vec<usize>))
    requires
        keeps(rules@, list),
        all_scanned(list, ids@),
    ensures
        set_ids(r.0@) == set_chunks(list, ids@, chunk_count(ids@.len())),
        forall|k: int|
            0 <= k < r.0@.len() ==> (#[trigger] r.0@[k]).0@ == sources(
                list,
                r.0@[k].1@,
            ),
        r.1@ == loose_ids(list, ids@, chunk_count(ids@.len())),
{
    let mut sets: Vec<(CompiledSet, Vec<usize>)> = Vec::new();
    let mut loose: Vec<usize> = Vec::new();
    let n: usize = ids.len();
    let mut start: usize = 0;
    let ghost mut k: nat = 0;
    assert(set_ids(sets@) =~= set_chunks(list, ids@, 0));
    while start < n
        invariant
            n == ids@.len(),
            keeps(rules@, list),
            all_scanned(list, ids@),
            start == if k * FALLBACK_CHUNK <= n { k * FALLBACK_CHUNK } else { n as int },
            k <= chunk_count(n as nat),
            start == n ==> k == chunk_count(n as nat),
            set_ids(sets@) == set_chunks(list, ids@, k),
            forall|j: int|
                0 <= j < sets@.len() ==> (#[trigger] sets@[j]).0@ == sources(
                    list,
                    sets@[j].1@,
                ),
            loose@ == loose_ids(list, ids@, k),
        decreases n - start,
    {
        let end: usize = if n - start > FALLBACK_CHUNK {
            start + FALLBACK_CHUNK
        } else {
            n
        };
        let ghost c = chunk(ids@, k as int);
        assert(c =~= ids@.subrange(start as int, end as int));
        let mut pats: Vec<String> = Vec::new();
        let mut members: Vec<usize> = Vec::new();
        let mut i: usize = start;
        assert(text::texts(pats@) =~= sources(list, ids@.subrange(start as int, i as int)));
        assert(members@ =~= ids@.subrange(start as int, i as int));
        while i < end
            invariant
                start <= i <= end <= ids@.len(),
                keeps(rules@, list),
                all_scanned(list, ids@),
                members@ == ids@.subrange(start as int, i as int),
                text::texts(pats@) == sources(list, members@),
            decreases end - i,
        {
            let id: usize = ids[i];
            let ghost before = pats@;
            assert(id < list.len() && source_of(list[id as int].rule.pattern) is Some);
            assert(rules@[id as int]@ == stored(list[id as int].rule));
            match regex_of(&rules[id]) {
                Some(re) => {
                    let ghost members_before = members@;
                    let src: String = regexes::source(re);
                    assert(source_of(list[id as int].rule.pattern) == Some(src@));
                    pats.push(src);
                    members.push(id);
                    assert(members@ =~= ids@.subrange(start as int, i + 1));
                    assert(text::texts(pats@) =~= text::texts(before).push(src@));
                    assert(sources(list, members@) =~= sources(list, members_before).push(src@));
                },
                None => {
                    assert(false);
                },
            }
            i = i + 1;
        }
        assert(members@ == c);
        let ghost sets_before = sets@;
        match regexes::build_set(&pats, FALLBACK_REGEXSET_SIZE_LIMIT) {
            Some(set) => {
                sets.push((set, members));
                assert(set_ids(sets@) =~= set_ids(sets_before).push(c));
            },
            None => {
                let ghost loose_before = loose@;
                loose.append(&mut members);
                assert(loose@ =~= loose_before + c);
            },
        }
        proof {
            k = k + 1;
        }
        start = end;
    }
    (sets, loose)
}

/// Builds a scan group using each rule's rarest safe token.
pub(crate) fn build_scan_group(
    meta: Vec<(usize, Vec<u32>)>,
    rules: &Vec<Rule>,
    token_index: bool,
    Ghost(list): Ghost<Seq<BuildView>>,
) -> (r: ScanGroup)
    requires
        keeps(rules@, list),
        all_scanned(list, meta@.map_values(|m: (usize, Vec<u32>)| m.0)),
        forall|k: int|
            0 <= k < meta@.len() ==> (#[trigger] meta@[k]).1@
                == list[meta@[k].0 as int].index_tokens,
    ensures
        r.wf(list, meta@.map_values(|m: (usize, Vec<u32>)| m.0), token_index),
{
    let ghost ids = meta_ids(meta@);
    let mut index: TokenIndex = TokenIndex::new();
    let mut rest: Vec<usize> = Vec::new();
    if token_index {
        let freq: HashMap<u32, u64> = count_tokens(&meta, Ghost(list));
        let ghost untokened = |id: usize| index_token(list, ids, id) is None;
        let mut i: usize = 0;
        proof {
            reveal(Seq::filter);
            assert(ids.take(0) =~= Seq::empty());
            assert(rest@ =~= ids.take(0).filter(untokened));
            assert forall|t: u32| #[trigger] index.ids(t) == bucket_of(list, ids, ids.take(0), t) by {
                assert(bucket_of(list, ids, ids.take(0), t) =~= Seq::empty());
            }
        }
        while i < meta.len()
            invariant
                i <= meta@.len(),
                ids == meta_ids(meta@),
                untokened == (|id: usize| index_token(list, ids, id) is None),
                forall|t: u32| frequency(list, ids, t) == #[trigger] counted(freq@, t),
                forall|k: int|
                    0 <= k < meta@.len() ==> (#[trigger] meta@[k]).1@
                        == list[meta@[k].0 as int].index_tokens,
                index.wf(),
                forall|t: u32| #[trigger]
                    index.ids(t) == bucket_of(list, ids, ids.take(i as int), t),
                rest@ == ids.take(i as int).filter(untokened),
            decreases meta@.len() - i,
        {
            let id: usize = meta[i].0;
            let ghost before = index;
            let ghost rest_before = rest@;
            proof {
                reveal(Seq::filter);
                assert(ids[i as int] == id);
                assert(ids.take(i + 1).drop_last() =~= ids.take(i as int));
                assert(ids.take(i + 1).last() == id);
            }
            match pick_rarest(&meta[i].1, &freq, Ghost(list), Ghost(ids)) {
                Some(t) => {
                    index.push(t, id);
                },
                None => {
                    rest.push(id);
                },
            }
            proof {
                assert(rest@ =~= ids.take(i + 1).filter(untokened));
                assert forall|t: u32| #[trigger]
                    index.ids(t) == bucket_of(list, ids, ids.take(i + 1), t) by {
                    assert(before.ids(t) == bucket_of(list, ids, ids.take(i as int), t));
                }
            }
            i = i + 1;
        }
        proof {
            assert(ids.take(i as int) =~= ids);
            assert forall|t: u32| #[trigger] index.ids(t) == bucket(list, ids, t) by {
                assert(index.ids(t) == bucket_of(list, ids, ids, t));
            }
        }
    } else {
        let mut i: usize = 0;
        assert(rest@ =~= ids.take(0));
        while i < meta.len()
            invariant
                i <= meta@.len(),
                ids == meta_ids(meta@),
                rest@ == ids.take(i as int),
            decreases meta@.len() - i,
        {
            rest.push(meta[i].0);
            assert(rest@ =~= ids.take(i + 1));
            i = i + 1;
        }
        assert(ids.take(i as int) =~= ids);
    }
    proof {
        assert(rest@ == fallback(list, ids, token_index));
        lemma_filter_subset(ids, |id: usize| index_token(list, ids, id) is None);
        assert(all_scanned(list, rest@)) by {
            assert forall|k: int| 0 <= k < rest@.len() implies (#[trigger] rest@[k]) < list.len()
                && source_of(list[rest@[k] as int].rule.pattern) is Some by {
                assert(ids.contains(rest@[k]));
                let j = choose|j: int| 0 <= j < ids.len() && ids[j] == rest@[k];
                assert(ids[j] < list.len());
            }
        }
    }
    let (fallback_sets, fallback_individual): (
        Vec<(CompiledSet, Vec<usize>)>,
        Vec<usize>,
    ) = build_sets(&rest, rules, Ghost(list));
    ScanGroup { index, fallback_sets, fallback_individual }
}

/// The bucket of `t` filled from `part` of a group only.
spec fn bucket_of(list: Seq<BuildView>, ids: Seq<usize>, part: Seq<usize>, t: u32) -> Seq<usize> {
    part.filter(|id: usize| index_token(list, ids, id) == Some(t))
}

/// What a filter keeps was there before.
proof fn lemma_filter_subset(s: Seq<usize>, p: spec_fn(usize) -> bool)
    ensures
        forall|k: int| 0 <= k < s.filter(p).len() ==> s.contains(#[trigger] s.filter(p)[k]),
    decreases s.len(),
{
    reveal(Seq::filter);
    if s.len() > 0 {
        let rest = s.drop_last();
        lemma_filter_subset(rest, p);
        assert forall|k: int| 0 <= k < s.filter(p).len() implies s.contains(
            #[trigger] s.filter(p)[k],
        ) by {
            if k < rest.filter(p).len() {
                assert(rest.contains(rest.filter(p)[k]));
                let m = choose|m: int| 0 <= m < rest.len() && rest[m] == rest.filter(p)[k];
                assert(s[m] == s.filter(p)[k]);
            } else {
                assert(s[s.len() - 1] == s.filter(p)[k]);
            }
        }
    }
}

/// The indices below `n` of the ids whose sources match.
spec fn matching_below(
    list: Seq<BuildView>,
    ids: Seq<usize>,
    domain: Seq<char>,
    n: int,
) -> Seq<int> {
    Seq::new(n as nat, |i: int| i).filter(
        |i: int| regexes::regex_matches(sources(list, ids)[i], domain),
    )
}

/// The ids at the matching indices are the matching ids.
proof fn lemma_set_hits(list: Seq<BuildView>, ids: Seq<usize>, domain: Seq<char>, n: int)
    requires
        0 <= n <= ids.len(),
        all_scanned(list, ids),
    ensures
        matching_below(list, ids, domain, n).map_values(|i: int| ids[i]) == hits(
            list,
            ids.take(n),
            domain,
        ),
        forall|k: int|
            0 <= k < matching_below(list, ids, domain, n).len() ==> 0
                <= #[trigger] matching_below(list, ids, domain, n)[k] < n,
    decreases n,
{
    reveal(Seq::filter);
    let p = |i: int| regexes::regex_matches(sources(list, ids)[i], domain);
    let all = Seq::new(n as nat, |i: int| i);
    if n > 0 {
        lemma_set_hits(list, ids, domain, n - 1);
        let less = Seq::new((n - 1) as nat, |i: int| i);
        assert(all.drop_last() =~= less);
        assert(ids.take(n).drop_last() =~= ids.take(n - 1));
        let id = ids[n - 1];
        assert(p(n - 1) == hit(list, id, domain));
        assert(all.filter(p).map_values(|i: int| ids[i]) =~= hits(list, ids.take(n), domain));
    } else {
        assert(all.filter(p).map_values(|i: int| ids[i]) =~= hits(list, ids.take(n), domain));
    }
}

impl ScanGroup {
    /// Appends those of `ids` that match the domain to `out`.
    fn check_each(
        ids: &Vec<usize>,
        rules: &Vec<Rule>,
        domain: &str,
        out: &mut Vec<usize>,
        Ghost(list): Ghost<Seq<BuildView>>,
    )
        requires
            keeps(rules@, list),
            all_scanned(list, ids@),
        ensures
            final(out)@ == old(out)@ + hits(list, ids@, domain@),
    {
        let ghost p = |id: usize| hit(list, id, domain@);
        let mut i: usize = 0;
        proof {
            reveal(Seq::filter);
            assert(ids@.take(0) =~= Seq::empty());
            assert(old(out)@ + ids@.take(0).filter(p) =~= old(out)@);
        }
        while i < ids.len()
            invariant
                i <= ids@.len(),
                keeps(rules@, list),
                all_scanned(list, ids@),
                p == (|id: usize| hit(list, id, domain@)),
                out@ == old(out)@ + ids@.take(i as int).filter(p),
            decreases ids@.len() - i,
        {
            let id: usize = ids[i];
            assert(id < list.len());
            assert(rules@[id as int]@ == stored(list[id as int].rule));
            let found: bool = match regex_of(&rules[id]) {
                Some(re) => regexes::is_match(re, domain),
                None => false,
            };
            assert(found == hit(list, id, domain@));
            if found {
                out.push(id);
            }
            proof {
                reveal(Seq::filter);
                assert(ids@.take(i + 1).drop_last() =~= ids@.take(i as int));
                assert(out@ =~= old(out)@ + ids@.take(i + 1).filter(p));
            }
            i = i + 1;
        }
        assert(ids@.take(i as int) =~= ids@);
    }

    /// Collects the matching rules of the group.
    pub(crate) fn scan(
        &self,
        rules: &Vec<Rule>,
        domain: &str,
        tokens: &Vec<u32>,
        out: &mut Vec<usize>,
        Ghost(list): Ghost<Seq<BuildView>>,
        Ghost(ids): Ghost<Seq<usize>>,
        Ghost(indexed): Ghost<bool>,
    )
        requires
            keeps(rules@, list),
            self.wf(list, ids, indexed),
        ensures
            final(out)@ == old(out)@ + scanned(list, ids, indexed, domain@, tokens@),
    {
        let ghost fb = fallback(list, ids, indexed);
        let ghost n = chunk_count(fb.len());
        let ghost chunks = set_chunks(list, fb, n);
        proof {
            lemma_filter_subset(ids, |id: usize| index_token(list, ids, id) is None);
            assert(all_scanned(list, fb)) by {
                assert forall|k: int| 0 <= k < fb.len() implies (#[trigger] fb[k]) < list.len()
                    && source_of(list[fb[k] as int].rule.pattern) is Some by {
                    assert(ids.contains(fb[k]));
                    let j = choose|j: int| 0 <= j < ids.len() && ids[j] == fb[k];
                    assert(ids[j] < list.len());
                }
            }
            lemma_chunks_scanned(list, fb, n);
        }
        let mut i: usize = 0;
        assert(chunks.take(0) =~= Seq::empty());
        assert(old(out)@ + chunk_hits(list, chunks.take(0), domain@) =~= old(out)@);
        while i < self.fallback_sets.len()
            invariant
                i <= self.fallback_sets@.len(),
                set_ids(self.fallback_sets@) == chunks,
                forall|k: int|
                    0 <= k < self.fallback_sets@.len() ==> (#[trigger] self.fallback_sets@[k]).0@ == sources(list, self.fallback_sets@[k].1@),
                forall|k: int| 0 <= k < chunks.len() ==> all_scanned(list, #[trigger] chunks[k]),
                out@ == old(out)@ + chunk_hits(list, chunks.take(i as int), domain@),
            decreases self.fallback_sets@.len() - i,
        {
            let set: &CompiledSet = &self.fallback_sets[i].0;
            let members: &Vec<usize> = &self.fallback_sets[i].1;
            let ghost c = members@;
            assert(chunks[i as int] == c);
            let found: Vec<usize> = regexes::set_matches(set, domain);
            let ghost as_ints = found@.map_values(|i: usize| i as int);
            let ghost want = hits(list, c, domain@);
            proof {
                assert(sources(list, c).len() == c.len());
                lemma_set_hits(list, c, domain@, c.len() as int);
                assert(c.take(c.len() as int) =~= c);
                assert(as_ints == matching_below(list, c, domain@, c.len() as int));
            }
            let mut j: usize = 0;
            let ghost before = out@;
            assert(before + want.take(0) =~= before);
            while j < found.len()
                invariant
                    j <= found@.len(),
                    as_ints == found@.map_values(|i: usize| i as int),
                    as_ints.map_values(|i: int| c[i]) == want,
                    forall|k: int| 0 <= k < as_ints.len() ==> 0 <= #[trigger] as_ints[k] < c.len(),
                    c == members@,
                    out@ == before + want.take(j as int),
                decreases found@.len() - j,
            {
                assert(as_ints[j as int] == found@[j as int]);
                out.push(members[found[j]]);
                assert(want[j as int] == c[as_ints[j as int]]);
                assert(out@ =~= before + want.take(j + 1));
                j = j + 1;
            }
            proof {
                assert(want.take(j as int) =~= want);
                assert(chunks.take(i + 1).drop_last() =~= chunks.take(i as int));
                assert(out@ =~= old(out)@ + chunk_hits(list, chunks.take(i + 1), domain@));
            }
            i = i + 1;
        }
        assert(chunks.take(i as int) =~= chunks);
        ScanGroup::check_each(&self.fallback_individual, rules, domain, out, Ghost(list));
        let ghost base = out@;
        let mut k: usize = 0;
        assert(tokens@.take(0) =~= Seq::empty());
        assert(base + indexed_hits(list, ids, indexed, tokens@.take(0), domain@) =~= base);
        while k < tokens.len()
            invariant
                k <= tokens@.len(),
                keeps(rules@, list),
                self.wf(list, ids, indexed),
                out@ == base + indexed_hits(
                    list,
                    ids,
                    indexed,
                    tokens@.take(k as int),
                    domain@,
                ),
            decreases tokens@.len() - k,
        {
            let t: u32 = tokens[k];
            let ghost before = out@;
            let ghost b = self.index.ids(t);
            proof {
                reveal(Seq::filter);
                lemma_filter_subset(ids, |id: usize| index_token(list, ids, id) == Some(t));
                assert(all_scanned(list, b)) by {
                    assert forall|m: int| 0 <= m < b.len() implies (#[trigger] b[m]) < list.len()
                        && source_of(list[b[m] as int].rule.pattern) is Some by {
                        assert(ids.contains(b[m]));
                        let j = choose|j: int| 0 <= j < ids.len() && ids[j] == b[m];
                        assert(ids[j] < list.len());
                    }
                }
            }
            match self.index.get(t) {
                Some(found) => {
                    ScanGroup::check_each(found, rules, domain, out, Ghost(list));
                },
                None => {
                    assert(hits(list, b, domain@) =~= Seq::empty());
                    assert(out@ =~= before + hits(list, b, domain@));
                },
            }
            proof {
                assert(tokens@.take(k + 1).drop_last() =~= tokens@.take(k as int));
                assert(out@ == before + hits(list, b, domain@));
                if !indexed {
                    assert(hits(list, b, domain@) =~= Seq::empty());
                }
                assert(out@ =~= base + indexed_hits(
                    list,
                    ids,
                    indexed,
                    tokens@.take(k + 1),
                    domain@,
                ));
            }
            k = k + 1;
        }
        proof {
            assert(tokens@.take(k as int) =~= tokens@);
            assert(out@ =~= old(out)@ + scanned(list, ids, indexed, domain@, tokens@));
        }
    }
}

/// What the index of a group gives; a group that is not indexed has none.
spec fn indexed_hits(
    list: Seq<BuildView>,
    ids: Seq<usize>,
    indexed: bool,
    tokens: Seq<u32>,
    domain: Seq<char>,
) -> Seq<usize> {
    if indexed {
        token_hits(list, ids, tokens, domain)
    } else {
        Seq::empty()
    }
}

/// The pieces of scanned ids are scanned ids.
proof fn lemma_chunks_scanned(list: Seq<BuildView>, ids: Seq<usize>, n: nat)
    requires
        all_scanned(list, ids),
        n <= chunk_count(ids.len()),
    ensures
        forall|k: int|
            0 <= k < set_chunks(list, ids, n).len() ==> all_scanned(
                list,
                #[trigger] set_chunks(list, ids, n)[k],
            ),
        all_scanned(list, loose_ids(list, ids, n)),
    decreases n,
{
    if n > 0 {
        lemma_chunks_scanned(list, ids, (n - 1) as nat);
        let c = chunk(ids, n - 1);
        assert(all_scanned(list, c)) by {
            assert forall|k: int| 0 <= k < c.len() implies (#[trigger] c[k]) < list.len()
                && source_of(list[c[k] as int].rule.pattern) is Some by {
                assert(c[k] == ids[(n - 1) * FALLBACK_CHUNK + k]);
            }
        }
        let before = set_chunks(list, ids, (n - 1) as nat);
        let now = set_chunks(list, ids, n);
        assert forall|k: int| 0 <= k < now.len() implies all_scanned(list, #[trigger] now[k]) by {
            if k < before.len() {
                assert(now[k] == before[k]);
            } else {
                assert(now[k] == c);
            }
        }
        let loose_before = loose_ids(list, ids, (n - 1) as nat);
        let loose = loose_ids(list, ids, n);
        assert forall|k: int| 0 <= k < loose.len() implies (#[trigger] loose[k]) < list.len()
            && source_of(list[loose[k] as int].rule.pattern) is Some by {
            if k < loose_before.len() {
                assert(loose[k] == loose_before[k]);
            } else {
                assert(loose[k] == c[k - loose_before.len()]);
            }
        }
    }
}

/// A filter keeps exactly the items that pass.
pub proof fn lemma_filter_members(s: Seq<usize>, p: spec_fn(usize) -> bool, x: usize)
    ensures
        s.filter(p).contains(x) <==> s.contains(x) && p(x),
    decreases s.len(),
{
    reveal(Seq::filter);
    if s.len() > 0 {
        let rest = s.drop_last();
        lemma_filter_members(rest, p, x);
        lemma_push_contains(rest, s.last(), x);
        assert(rest.push(s.last()) =~= s);
        lemma_push_contains(rest.filter(p), s.last(), x);
    }
}

proof fn lemma_push_contains(s: Seq<usize>, y: usize, x: usize)
    ensures
        s.push(y).contains(x) <==> s.contains(x) || x == y,
{
    if s.contains(x) {
        let k = choose|k: int| 0 <= k < s.len() && s[k] == x;
        assert(s.push(y)[k] == x);
    }
    if x == y {
        assert(s.push(y)[s.len() as int] == x);
    }
    if s.push(y).contains(x) && x != y {
        let k = choose|k: int| 0 <= k < s.push(y).len() && s.push(y)[k] == x;
        assert(s[k] == x);
    }
}

pub proof fn lemma_add_contains(s: Seq<usize>, t: Seq<usize>, x: usize)
    ensures
        (s + t).contains(x) <==> s.contains(x) || t.contains(x),
{
    if s.contains(x) {
        let k = choose|k: int| 0 <= k < s.len() && s[k] == x;
        assert((s + t)[k] == x);
    }
    if t.contains(x) {
        let k = choose|k: int| 0 <= k < t.len() && t[k] == x;
        assert((s + t)[s.len() + k] == x);
    }
    if (s + t).contains(x) {
        let k = choose|k: int| 0 <= k < (s + t).len() && (s + t)[k] == x;
        if k < s.len() {
            assert(s[k] == x);
        } else {
            assert(t[k - s.len()] == x);
        }
    }
}

/// The first `n` pieces of `ids`.
spec fn first_chunks(ids: Seq<usize>, n: nat) -> Seq<usize> {
    ids.take(if n * FALLBACK_CHUNK <= ids.len() { n * FALLBACK_CHUNK } else { ids.len() as int })
}

/// Sets and what no set holds together give every matching id of the pieces.
proof fn lemma_chunk_members(
    list: Seq<BuildView>,
    ids: Seq<usize>,
    n: nat,
    domain: Seq<char>,
    x: usize,
)
    requires
        n <= chunk_count(ids.len()),
    ensures
        chunk_hits(list, set_chunks(list, ids, n), domain).contains(x) || hits(
            list,
            loose_ids(list, ids, n),
            domain,
        ).contains(x) <==> first_chunks(ids, n).contains(x) && hit(list, x, domain),
    decreases n,
{
    let p = |id: usize| hit(list, id, domain);
    if n == 0 {
        lemma_filter_members(loose_ids(list, ids, 0), p, x);
    } else {
        let m = (n - 1) as nat;
        lemma_chunk_members(list, ids, m, domain, x);
        let c = chunk(ids, m as int);
        assert(first_chunks(ids, n) =~= first_chunks(ids, m) + c);
        lemma_add_contains(first_chunks(ids, m), c, x);
        lemma_filter_members(c, p, x);
        let sets = set_chunks(list, ids, m);
        let loose = loose_ids(list, ids, m);
        lemma_filter_members(loose, p, x);
        if compiles(list, c) {
            assert(sets.push(c).drop_last() =~= sets);
            lemma_add_contains(chunk_hits(list, sets, domain), hits(list, c, domain), x);
        } else {
            lemma_add_contains(loose, c, x);
            lemma_filter_members(loose + c, p, x);
        }
    }
}

/// The index gives every matching id under one of the tokens.
proof fn lemma_token_members(
    list: Seq<BuildView>,
    ids: Seq<usize>,
    tokens: Seq<u32>,
    domain: Seq<char>,
    x: usize,
)
    ensures
        token_hits(list, ids, tokens, domain).contains(x) <==> ids.contains(x) && hit(
            list,
            x,
            domain,
        ) && (index_token(list, ids, x) matches Some(t) && tokens.contains(t)),
    decreases tokens.len(),
{
    if tokens.len() > 0 {
        let rest = tokens.drop_last();
        let t = tokens.last();
        lemma_token_members(list, ids, rest, domain, x);
        lemma_filter_members(ids, |id: usize| index_token(list, ids, id) == Some(t), x);
        lemma_filter_members(bucket(list, ids, t), |id: usize| hit(list, id, domain), x);
        lemma_add_contains(
            token_hits(list, ids, rest, domain),
            hits(list, bucket(list, ids, t), domain),
            x,
        );
        assert forall|u: u32| tokens.contains(u) <==> rest.contains(u) || u == t by {
            if rest.contains(u) {
                let k = choose|k: int| 0 <= k < rest.len() && rest[k] == u;
                assert(tokens[k] == u);
            }
            if u == t {
                assert(tokens[tokens.len() - 1] == u);
            }
            if tokens.contains(u) && u != t {
                let k = choose|k: int| 0 <= k < tokens.len() && tokens[k] == u;
                assert(rest[k] == u);
            }
        }
    }
}

/// What a scan finds: the matching rules of the group, those that are indexed
/// under a token only where the name has it.
pub proof fn lemma_scanned_members(
    list: Seq<BuildView>,
    ids: Seq<usize>,
    indexed: bool,
    domain: Seq<char>,
    tokens: Seq<u32>,
    x: usize,
)
    ensures
        scanned(list, ids, indexed, domain, tokens).contains(x) <==> ids.contains(x) && hit(
            list,
            x,
            domain,
        ) && (indexed ==> (index_token(list, ids, x) matches Some(t) ==> tokens.contains(t))),
{
    let fb = fallback(list, ids, indexed);
    let n = chunk_count(fb.len());
    lemma_chunk_members(list, fb, n, domain, x);
    assert(first_chunks(fb, n) =~= fb);
    lemma_filter_members(ids, |id: usize| index_token(list, ids, id) is None, x);
    lemma_token_members(list, ids, tokens, domain, x);
    let sets = chunk_hits(list, set_chunks(list, fb, n), domain);
    let loose = hits(list, loose_ids(list, fb, n), domain);
    let last = if indexed { token_hits(list, ids, tokens, domain) } else { Seq::empty() };
    lemma_add_contains(sets, loose, x);
    lemma_add_contains(sets + loose, last, x);
}

} // verus!
