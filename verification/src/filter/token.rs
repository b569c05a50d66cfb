//! Tokenization for wildcard and regex reverse indexing.

use vstd::prelude::*;

use crate::text;
use crate::text::{chars_of, is_ascii_alphanumeric, lower_char, part};

verus! {

/// Minimum token length, the same for pattern and query tokenization.
pub const MIN_TOKEN_LEN: usize = 3;

/// FNV-1a, 32 bits, over the characters of `s` with ASCII capitals made small.
pub open spec fn hash_of(s: Seq<char>) -> u32
    decreases s.len(),
{
    if s.len() == 0 {
        0x811c_9dc5u32
    } else {
        (hash_of(s.drop_last()) ^ text::lower(s.last()) as u32).wrapping_mul(0x0100_0193u32)
    }
}

/// The end of the run of letters and digits that starts at `i`.
pub open spec fn run_end(s: Seq<char>, i: int) -> int
    decreases s.len() - i,
{
    if i >= s.len() || !text::is_alphanumeric(s[i]) {
        i
    } else {
        run_end(s, i + 1)
    }
}

/// The maximal runs of letters and digits in `s` from `i` on: where each
/// starts and ends.
pub open spec fn runs_from(s: Seq<char>, i: int) -> Seq<(int, int)>
    decreases s.len() - i,
{
    if i >= s.len() {
        Seq::empty()
    } else if !text::is_alphanumeric(s[i]) {
        runs_from(s, i + 1)
    } else if run_end(s, i) <= i || run_end(s, i) > s.len() {
        Seq::empty()
    } else {
        seq![(i, run_end(s, i))] + runs_from(s, run_end(s, i))
    }
}

/// Whether a run is long enough to be a token.
pub open spec fn is_token(run: (int, int)) -> bool {
    run.1 - run.0 >= MIN_TOKEN_LEN
}

/// Whether the characters next to the run are there and are not `*`, so that
/// every name the pattern matches has the run as a run of its own.
pub open spec fn is_bounded(s: Seq<char>, run: (int, int)) -> bool {
    &&& run.0 > 0 && s[run.0 - 1] != '*'
    &&& run.1 < s.len() && s[run.1] != '*'
}

/// The hashes of the given runs, in order.
pub open spec fn run_hashes(s: Seq<char>, runs: Seq<(int, int)>) -> Seq<u32> {
    runs.map_values(|r: (int, int)| hash_of(s.subrange(r.0, r.1)))
}

/// The token hashes of a query name, in order of appearance, repeats included.
pub open spec fn query_tokens(s: Seq<char>) -> Seq<u32> {
    run_hashes(s, runs_from(s, 0).filter(|r: (int, int)| is_token(r)))
}

/// The hashes of the bounded tokens of a pattern, in order of appearance.
pub open spec fn pattern_tokens(s: Seq<char>) -> Seq<u32> {
    run_hashes(s, runs_from(s, 0).filter(|r: (int, int)| is_token(r) && is_bounded(s, r)))
}

pub open spec fn strictly_increasing(s: Seq<u32>) -> bool {
    forall|i: int, j: int| 0 <= i < j < s.len() ==> #[trigger] s[i] < #[trigger] s[j]
}

proof fn lemma_run_end(s: Seq<char>, i: int)
    requires
        0 <= i <= s.len(),
    ensures
        i <= run_end(s, i) <= s.len(),
        i < s.len() && text::is_alphanumeric(s[i]) ==> i < run_end(s, i),
        forall|j: int| i <= j < run_end(s, i) ==> text::is_alphanumeric(#[trigger] s[j]),
        run_end(s, i) < s.len() ==> !text::is_alphanumeric(s[run_end(s, i)]),
    decreases s.len() - i,
{
    if i < s.len() && text::is_alphanumeric(s[i]) {
        lemma_run_end(s, i + 1);
    }
}

/// FNV-1a 32-bit hash of a text, case-insensitive on ASCII.
pub fn fast_hash(s: &[char]) -> (r: u32)
    ensures
        r == hash_of(s@),
{
    let mut h: u32 = 0x811c_9dc5;
    let mut i: usize = 0;
    while i < s.len()
        invariant
            i <= s@.len(),
            h == hash_of(s@.take(i as int)),
        decreases s@.len() - i,
    {
        assert(s@.take(i + 1).drop_last() =~= s@.take(i as int));
        h = (h ^ lower_char(s[i]) as u32).wrapping_mul(0x0100_0193);
        i = i + 1;
    }
    assert(s@.take(i as int) =~= s@);
    h
}

/// The tokens of `s`: all of them, or only the bounded ones.
fn collect(s: &[char], bounded: bool) -> (r: Vec<u32>)
    ensures
        r@ == if bounded { pattern_tokens(s@) } else { query_tokens(s@) },
{
    let ghost keep = |r: (int, int)| is_token(r) && (bounded ==> is_bounded(s@, r));
    let n: usize = s.len();
    let mut r: Vec<u32> = Vec::new();
    let mut i: usize = 0;
    let ghost mut seen: Seq<(int, int)> = Seq::empty();
    proof {
        reveal(Seq::filter);
        assert(seen + runs_from(s@, 0) =~= runs_from(s@, 0));
        assert(r@ =~= run_hashes(s@, seen.filter(keep)));
    }
    while i < n
        invariant
            i <= n,
            n == s@.len(),
            keep == (|r: (int, int)| is_token(r) && (bounded ==> is_bounded(s@, r))),
            seen + runs_from(s@, i as int) == runs_from(s@, 0),
            r@ == run_hashes(s@, seen.filter(keep)),
        decreases n - i,
    {
        if !is_ascii_alphanumeric(s[i]) {
            i = i + 1;
            continue;
        }
        let start: usize = i;
        while i < n && is_ascii_alphanumeric(s[i])
            invariant
                start <= i <= n,
                n == s@.len(),
                run_end(s@, start as int) == run_end(s@, i as int),
            decreases n - i,
        {
            i = i + 1;
        }
        proof {
            lemma_run_end(s@, start as int);
        }
        let left_ok: bool = start > 0 && s[start - 1] != '*';
        let right_ok: bool = i < n && s[i] != '*';
        let ghost run = (start as int, i as int);
        let ghost before = r@;
        if i - start >= MIN_TOKEN_LEN && (!bounded || (left_ok && right_ok)) {
            r.push(fast_hash(part(s, start, i)));
        }
        proof {
            reveal(Seq::filter);
            assert(runs_from(s@, start as int) == seq![run] + runs_from(s@, i as int));
            assert(seen + (seq![run] + runs_from(s@, i as int)) =~= seen.push(run) + runs_from(
                s@,
                i as int,
            ));
            assert(seen.push(run).drop_last() =~= seen);
            assert(r@ =~= run_hashes(s@, seen.push(run).filter(keep)));
            seen = seen.push(run);
        }
    }
    proof {
        assert(seen + Seq::empty() =~= seen);
        if bounded {
            assert(keep =~= (|r: (int, int)| is_token(r) && is_bounded(s@, r)));
        } else {
            assert(keep =~= (|r: (int, int)| is_token(r)));
        }
    }
    r
}

/// The values of `v` in increasing order, each once.
fn sorted_dedup(v: &Vec<u32>) -> (r: Vec<u32>)
    ensures
        r@ == increasing_values(v@),
        is_increasing_of(r@, v@),
{
    let mut r: Vec<u32> = Vec::new();
    let mut i: usize = 0;
    while i < v.len()
        invariant
            i <= v@.len(),
            strictly_increasing(r@),
            forall|x: u32| r@.contains(x) <==> v@.take(i as int).contains(x),
        decreases v@.len() - i,
    {
        let x: u32 = v[i];
        let mut at: usize = r.len();
        while at > 0 && r[at - 1] > x
            invariant
                at <= r@.len(),
                forall|k: int| at <= k < r@.len() ==> #[trigger] r@[k] > x,
            decreases at,
        {
            at = at - 1;
        }
        let ghost before = r@;
        let ghost upto = v@.take(i + 1);
        assert(upto =~= v@.take(i as int).push(x));
        assert forall|y: u32| #[trigger] upto.contains(y) <==> before.contains(y) || y == x by {
            if v@.take(i as int).contains(y) {
                let k = choose|k: int| 0 <= k < i && v@.take(i as int)[k] == y;
                assert(upto[k] == y);
            }
            if y == x {
                assert(upto[i as int] == y);
            }
        }
        if at > 0 && r[at - 1] == x {
            assert(before.contains(x));
        } else {
            r.insert(at, x);
            assert forall|y: u32| #[trigger] r@.contains(y) <==> before.contains(y) || y == x by {
                if before.contains(y) {
                    let k = choose|k: int| 0 <= k < before.len() && before[k] == y;
                    assert(r@[if k < at { k } else { k + 1 }] == y);
                }
                if y == x {
                    assert(r@[at as int] == x);
                }
                if r@.contains(y) && y != x {
                    let k = choose|k: int| 0 <= k < r@.len() && r@[k] == y;
                    assert(before[if k < at { k } else { k - 1 }] == y);
                }
            }
        }
        i = i + 1;
    }
    assert(v@.take(i as int) =~= v@);
    proof {
        assert(is_increasing_of(r@, v@));
        lemma_increasing_unique(r@, increasing_values(v@), v@);
    }
    r
}

/// Whether `v` lists the values of `s` in increasing order, each once.
pub open spec fn is_increasing_of(v: Seq<u32>, s: Seq<u32>) -> bool {
    strictly_increasing(v) && forall|x: u32| #[trigger] v.contains(x) <==> s.contains(x)
}

/// The values of `s` in increasing order, each once.
pub open spec fn increasing_values(s: Seq<u32>) -> Seq<u32> {
    choose|v: Seq<u32>| is_increasing_of(v, s)
}

/// There is only one such list.
proof fn lemma_increasing_unique(v: Seq<u32>, w: Seq<u32>, s: Seq<u32>)
    requires
        is_increasing_of(v, s),
        is_increasing_of(w, s),
    ensures
        v == w,
{
    lemma_increasing_prefix(v, w, s, v.len() as int);
    lemma_increasing_prefix(w, v, s, w.len() as int);
    assert(v =~= w);
}

proof fn lemma_increasing_prefix(v: Seq<u32>, w: Seq<u32>, s: Seq<u32>, n: int)
    requires
        is_increasing_of(v, s),
        is_increasing_of(w, s),
        0 <= n <= v.len(),
    ensures
        n <= w.len(),
        forall|i: int| 0 <= i < n ==> v[i] == w[i],
    decreases n,
{
    if n > 0 {
        lemma_increasing_prefix(v, w, s, n - 1);
        assert(v.contains(v[n - 1]));
        assert(w.contains(v[n - 1]));
        let k = choose|k: int| 0 <= k < w.len() && w[k] == v[n - 1];
        if k < n - 1 {
            assert(v[k] == w[k] && v[k] < v[n - 1]);
        }
        assert(w.contains(w[n - 1]));
        assert(v.contains(w[n - 1]));
        let m = choose|m: int| 0 <= m < v.len() && v[m] == w[n - 1];
        if m < n - 1 {
            assert(w[m] == v[m] && w[m] < w[n - 1]);
        }
        if k > n - 1 {
            assert(w[n - 1] < w[k]);
            if m > n - 1 {
                assert(v[n - 1] < v[m]);
            }
        }
    }
}

/// Writes the deduplicated token hashes of a query name into `tokens`.
pub fn tokenize_query_into(name: &str, tokens: &mut Vec<u32>)
    ensures
        final(tokens)@ == increasing_values(query_tokens(name@)),
        is_increasing_of(final(tokens)@, query_tokens(name@)),
{
    let chars: Vec<char> = chars_of(name);
    *tokens = sorted_dedup(&collect(chars.as_slice(), false));
}

/// Returns the deduplicated token hashes of a query name.
pub fn tokenize_query(name: &str) -> (r: Vec<u32>)
    ensures
        r@ == increasing_values(query_tokens(name@)),
        is_increasing_of(r@, query_tokens(name@)),
{
    let mut tokens: Vec<u32> = Vec::new();
    tokenize_query_into(name, &mut tokens);
    tokens
}

/// Appends the token hashes of a query name to `tokens`, in order of
/// appearance and without deduplicating.
pub fn for_each_query_token(name: &str, tokens: &mut Vec<u32>)
    ensures
        final(tokens)@ == old(tokens)@ + query_tokens(name@),
{
    let chars: Vec<char> = chars_of(name);
    let mut found: Vec<u32> = collect(chars.as_slice(), false);
    tokens.append(&mut found);
}

/// Returns the hashes of a wildcard pattern's tokens that are bounded on both
/// sides.
pub fn tokenize_pattern_safe(body: &str) -> (r: Vec<u32>)
    ensures
        r@ == increasing_values(pattern_tokens(body@)),
        is_increasing_of(r@, pattern_tokens(body@)),
{
    let chars: Vec<char> = chars_of(body);
    sorted_dedup(&collect(chars.as_slice(), true))
}

proof fn lemma_hash_ignores_case(s: Seq<char>)
    ensures
        hash_of(text::lowered(s)) == hash_of(s),
    decreases s.len(),
{
    if s.len() > 0 {
        lemma_hash_ignores_case(s.drop_last());
        assert(text::lowered(s).drop_last() =~= text::lowered(s.drop_last()));
        assert(text::lower(text::lower(s.last())) == text::lower(s.last()));
    }
}

proof fn lemma_run_end_ignores_case(s: Seq<char>, i: int)
    requires
        0 <= i <= s.len(),
    ensures
        run_end(text::lowered(s), i) == run_end(s, i),
    decreases s.len() - i,
{
    if i < s.len() {
        lemma_run_end_ignores_case(s, i + 1);
    }
}

proof fn lemma_runs_ignore_case(s: Seq<char>, i: int)
    requires
        0 <= i <= s.len(),
    ensures
        runs_from(text::lowered(s), i) == runs_from(s, i),
        forall|k: int|
            0 <= k < runs_from(s, i).len() ==> 0 <= (#[trigger] runs_from(s, i)[k]).0
                <= runs_from(s, i)[k].1 <= s.len(),
    decreases s.len() - i,
{
    if i < s.len() {
        lemma_run_end(s, i);
        lemma_run_end_ignores_case(s, i);
        if !text::is_alphanumeric(s[i]) {
            lemma_runs_ignore_case(s, i + 1);
        } else {
            lemma_runs_ignore_case(s, run_end(s, i));
        }
    }
}

/// Tokens do not depend on the case of ASCII letters.
pub proof fn law_tokens_ignore_case(s: Seq<char>, t: Seq<char>)
    requires
        text::lowered(s) == text::lowered(t),
    ensures
        query_tokens(s) == query_tokens(t),
{
    lemma_tokens_of_lowered(s);
    lemma_tokens_of_lowered(t);
}

proof fn lemma_tokens_of_lowered(s: Seq<char>)
    ensures
        query_tokens(text::lowered(s)) == query_tokens(s),
{
    let low = text::lowered(s);
    lemma_runs_ignore_case(s, 0);
    let runs = runs_from(s, 0);
    let kept = runs.filter(|r: (int, int)| is_token(r));
    lemma_filter_from(runs, |r: (int, int)| is_token(r));
    assert forall|k: int| 0 <= k < kept.len() implies hash_of(
        low.subrange((#[trigger] kept[k]).0, kept[k].1),
    ) == hash_of(s.subrange(kept[k].0, kept[k].1)) by {
        let r = kept[k];
        assert(runs.contains(r));
        assert(low.subrange(r.0, r.1) =~= text::lowered(s.subrange(r.0, r.1)));
        lemma_hash_ignores_case(s.subrange(r.0, r.1));
    }
    assert(run_hashes(low, kept) =~= run_hashes(s, kept));
}

/// What a filter keeps was there before.
proof fn lemma_filter_from(s: Seq<(int, int)>, p: spec_fn((int, int)) -> bool)
    ensures
        forall|k: int| 0 <= k < s.filter(p).len() ==> s.contains(#[trigger] s.filter(p)[k]),
    decreases s.len(),
{
    reveal(Seq::filter);
    if s.len() > 0 {
        let rest = s.drop_last();
        lemma_filter_from(rest, p);
        assert forall|k: int| 0 <= k < s.filter(p).len() implies s.contains(
            #[trigger] s.filter(p)[k],
        ) by {
            if k < rest.filter(p).len() {
                assert(rest.contains(rest.filter(p)[k]));
                let m = choose|m: int| 0 <= m < rest.len() && rest[m] == rest.filter(p)[k];
                assert(s[m] == s.filter(p)[k]);
            } else {
                assert(s[s.len() - 1] == s.filter(p)[k]);
            }
        }
    }
}

/// Whether `c` separates the parts of a host name: anything but letters,
/// digits, `.`, `_` and `-`.
pub open spec fn is_separator(c: char) -> bool {
    !text::is_alphanumeric(c) && c != '.' && c != '_' && c != '-'
}

/// Whether the wildcard pattern `p` from `i` on matches `s` from `j` on: `*`
/// any stretch, `^` a separator or the end, any other character itself without
/// regard to case; up to the end of `s` where `end` asks for it.
pub open spec fn glob_at(p: Seq<char>, i: int, s: Seq<char>, j: int, end: bool) -> bool
    decreases p.len() - i, s.len() - j,
{
    if i >= p.len() {
        end ==> j == s.len()
    } else if p[i] == '*' {
        glob_at(p, i + 1, s, j, end) || (j < s.len() && glob_at(p, i, s, j + 1, end))
    } else if p[i] == '^' {
        ||| j < s.len() && is_separator(s[j]) && glob_at(p, i + 1, s, j + 1, end)
        ||| j == s.len() && glob_at(p, i + 1, s, j, end)
    } else {
        j < s.len() && text::lower(s[j]) == text::lower(p[i]) && glob_at(p, i + 1, s, j + 1, end)
    }
}

/// Whether the wildcard pattern `p` matches the name `s`: from a label
/// boundary, from the start, or from anywhere.
pub open spec fn glob_matches(
    p: Seq<char>,
    subdomain_anchor: bool,
    start_anchor: bool,
    end_anchor: bool,
    s: Seq<char>,
) -> bool {
    exists|j: int|
        0 <= j <= s.len() && (if subdomain_anchor {
            j == 0 || s[j - 1] == '.'
        } else {
            start_anchor ==> j == 0
        }) && #[trigger] glob_at(p, 0, s, j, end_anchor)
}

/// A match of a pattern passes every place of the pattern.
proof fn lemma_glob_reaches(p: Seq<char>, i: int, s: Seq<char>, j: int, end: bool, a: int) -> (at:
    int)
    requires
        0 <= i < a < p.len(),
        0 <= j <= s.len(),
        glob_at(p, i, s, j, end),
        p[a - 1] != '*',
        !text::is_alphanumeric(p[a - 1]),
        text::is_alphanumeric(p[a]),
    ensures
        0 < at <= s.len(),
        glob_at(p, a, s, at, end),
        !text::is_alphanumeric(s[at - 1]),
    decreases a - i, s.len() - j,
{
    if p[i] == '*' {
        if glob_at(p, i + 1, s, j, end) {
            lemma_glob_reaches(p, i + 1, s, j, end, a)
        } else {
            lemma_glob_reaches(p, i, s, j + 1, end, a)
        }
    } else {
        let next = if p[i] == '^' && !(j < s.len() && is_separator(s[j]) && glob_at(
            p,
            i + 1,
            s,
            j + 1,
            end,
        )) {
            j
        } else {
            j + 1
        };
        if i + 1 == a {
            assert(glob_at(p, a, s, next, end));
            assert(next < s.len());
            next
        } else {
            lemma_glob_reaches(p, i + 1, s, next, end, a)
        }
    }
}

/// A run of letters and digits in the pattern is matched by the same run.
proof fn lemma_glob_run(p: Seq<char>, a: int, b: int, s: Seq<char>, j: int, end: bool)
    requires
        0 <= a <= b <= p.len(),
        0 <= j <= s.len(),
        glob_at(p, a, s, j, end),
        forall|k: int| a <= k < b ==> text::is_alphanumeric(#[trigger] p[k]),
    ensures
        j + (b - a) <= s.len(),
        glob_at(p, b, s, j + (b - a), end),
        forall|k: int| 0 <= k < b - a ==> text::lower(#[trigger] s[j + k]) == text::lower(p[a + k]),
    decreases b - a,
{
    if a < b {
        assert(text::is_alphanumeric(p[a]));
        lemma_glob_run(p, a + 1, b, s, j + 1, end);
        assert forall|k: int| 0 <= k < b - a implies text::lower(#[trigger] s[j + k])
            == text::lower(p[a + k]) by {
            if k > 0 {
                assert(text::lower(s[(j + 1) + (k - 1)]) == text::lower(p[(a + 1) + (k - 1)]));
            }
        }
    }
}

/// A maximal run is among the runs.
proof fn lemma_run_listed(s: Seq<char>, i: int, x: int, y: int)
    requires
        0 <= i <= x < y <= s.len(),
        forall|k: int| x <= k < y ==> text::is_alphanumeric(#[trigger] s[k]),
        x > i ==> !text::is_alphanumeric(s[x - 1]),
        y < s.len() ==> !text::is_alphanumeric(s[y]),
    ensures
        runs_from(s, i).contains((x, y)),
    decreases x - i,
{
    lemma_run_end(s, i);
    if i == x {
        lemma_run_end_is(s, x, y);
        assert(runs_from(s, i)[0] == (x, y));
    } else if !text::is_alphanumeric(s[i]) {
        lemma_run_listed(s, i + 1, x, y);
    } else {
        let e = run_end(s, i);
        if e > x - 1 {
            assert(text::is_alphanumeric(s[x - 1]));
        }
        lemma_run_listed(s, e, x, y);
        let rest = runs_from(s, e);
        let k = choose|k: int| 0 <= k < rest.len() && rest[k] == (x, y);
        assert(runs_from(s, i)[k + 1] == (x, y));
    }
}

proof fn lemma_run_end_is(s: Seq<char>, x: int, y: int)
    requires
        0 <= x <= y <= s.len(),
        forall|k: int| x <= k < y ==> text::is_alphanumeric(#[trigger] s[k]),
        y < s.len() ==> !text::is_alphanumeric(s[y]),
    ensures
        run_end(s, x) == y,
    decreases y - x,
{
    if x < y {
        lemma_run_end_is(s, x + 1, y);
    }
}

/// Whether `run` is a maximal run of letters and digits from `i` on.
spec fn is_maximal(s: Seq<char>, i: int, run: (int, int)) -> bool {
    &&& i <= run.0 < run.1 <= s.len()
    &&& forall|k: int| run.0 <= k < run.1 ==> text::is_alphanumeric(#[trigger] s[k])
    &&& run.0 > 0 ==> !text::is_alphanumeric(s[run.0 - 1])
    &&& run.1 < s.len() ==> !text::is_alphanumeric(s[run.1])
}

/// The runs of `s` are maximal.
proof fn lemma_runs_maximal(s: Seq<char>, i: int)
    requires
        0 <= i <= s.len(),
        i > 0 && i < s.len() && text::is_alphanumeric(s[i]) ==> !text::is_alphanumeric(s[i - 1]),
    ensures
        forall|n: int|
            0 <= n < runs_from(s, i).len() ==> is_maximal(s, i, #[trigger] runs_from(s, i)[n]),
    decreases s.len() - i,
{
    if i < s.len() {
        lemma_run_end(s, i);
        if !text::is_alphanumeric(s[i]) {
            lemma_runs_maximal(s, i + 1);
            let rest = runs_from(s, i + 1);
            assert forall|n: int| 0 <= n < rest.len() implies is_maximal(
                s,
                i,
                #[trigger] rest[n],
            ) by {
                assert(is_maximal(s, i + 1, rest[n]));
            }
        } else {
            let e = run_end(s, i);
            lemma_runs_maximal(s, e);
            let rest = runs_from(s, e);
            assert forall|n: int| 0 <= n < runs_from(s, i).len() implies is_maximal(
                s,
                i,
                #[trigger] runs_from(s, i)[n],
            ) by {
                if n > 0 {
                    assert(runs_from(s, i)[n] == rest[n - 1]);
                    assert(is_maximal(s, e, rest[n - 1]));
                }
            }
        }
    }
}

/// What passes a filter is kept.
proof fn lemma_filter_has(s: Seq<(int, int)>, p: spec_fn((int, int)) -> bool, x: (int, int))
    requires
        s.contains(x),
        p(x),
    ensures
        s.filter(p).contains(x),
    decreases s.len(),
{
    reveal(Seq::filter);
    let rest = s.drop_last();
    if s.last() == x {
        assert(s.filter(p)[s.filter(p).len() - 1] == x);
    } else {
        let k = choose|k: int| 0 <= k < s.len() && s[k] == x;
        assert(rest[k] == x);
        lemma_filter_has(rest, p, x);
        let m = choose|m: int| 0 <= m < rest.filter(p).len() && rest.filter(p)[m] == x;
        assert(s.filter(p)[m] == x);
    }
}

/// Bounded tokens are safe to index under: a name that a wildcard pattern
/// matches has every one of them among its own tokens.
pub proof fn law_bounded_tokens(
    p: Seq<char>,
    subdomain_anchor: bool,
    start_anchor: bool,
    end_anchor: bool,
    s: Seq<char>,
    t: u32,
)
    requires
        glob_matches(p, subdomain_anchor, start_anchor, end_anchor, s),
        pattern_tokens(text::lowered(p)).contains(t),
    ensures
        query_tokens(s).contains(t),
{
    let q = text::lowered(p);
    let j0 = choose|j: int|
        0 <= j <= s.len() && (if subdomain_anchor {
            j == 0 || s[j - 1] == '.'
        } else {
            start_anchor ==> j == 0
        }) && #[trigger] glob_at(p, 0, s, j, end_anchor);
    lemma_glob_of_lowered(p, 0, s, j0, end_anchor);
    let keep = |r: (int, int)| is_token(r) && is_bounded(q, r);
    let runs = runs_from(q, 0);
    let kept = runs.filter(keep);
    let n = choose|n: int| 0 <= n < pattern_tokens(q).len() && pattern_tokens(q)[n] == t;
    let run = kept[n];
    assert(t == hash_of(q.subrange(run.0, run.1)));
    lemma_filter_from(runs, keep);
    lemma_filter_passes(runs, keep);
    assert(runs.contains(run));
    let m = choose|m: int| 0 <= m < runs.len() && runs[m] == run;
    lemma_runs_maximal(q, 0);
    let (a, b) = run;
    assert(is_maximal(q, 0, runs[m]));
    assert(text::is_alphanumeric(q[a]));
    let x = lemma_glob_reaches(q, 0, s, j0, end_anchor, a);
    lemma_glob_run(q, a, b, s, x, end_anchor);
    let y = x + (b - a);
    assert forall|k: int| x <= k < y implies text::is_alphanumeric(#[trigger] s[k]) by {
        assert(text::lower(s[x + (k - x)]) == text::lower(q[a + (k - x)]));
        assert(text::is_alphanumeric(q[a + (k - x)]));
    }
    assert(y < s.len() ==> !text::is_alphanumeric(s[y]));
    lemma_run_listed(s, 0, x, y);
    let test = |r: (int, int)| is_token(r);
    lemma_filter_has(runs_from(s, 0), test, (x, y));
    let found = runs_from(s, 0).filter(test);
    let w = choose|w: int| 0 <= w < found.len() && found[w] == (x, y);
    assert(query_tokens(s)[w] == hash_of(s.subrange(x, y)));
    assert(text::lowered(s.subrange(x, y)) =~= text::lowered(q.subrange(a, b))) by {
        assert forall|k: int| 0 <= k < b - a implies text::lower(#[trigger] s.subrange(x, y)[k])
            == text::lower(q.subrange(a, b)[k]) by {
            assert(text::lower(s[x + k]) == text::lower(q[a + k]));
        }
    }
    lemma_hash_ignores_case(s.subrange(x, y));
    lemma_hash_ignores_case(q.subrange(a, b));
}

proof fn lemma_filter_passes(s: Seq<(int, int)>, p: spec_fn((int, int)) -> bool)
    ensures
        forall|k: int| 0 <= k < s.filter(p).len() ==> p(#[trigger] s.filter(p)[k]),
    decreases s.len(),
{
    reveal(Seq::filter);
    if s.len() > 0 {
        lemma_filter_passes(s.drop_last(), p);
    }
}

proof fn lemma_glob_of_lowered(p: Seq<char>, i: int, s: Seq<char>, j: int, end: bool)
    requires
        0 <= i <= p.len(),
        glob_at(p, i, s, j, end),
    ensures
        glob_at(text::lowered(p), i, s, j, end),
    decreases p.len() - i, s.len() - j,
{
    let q = text::lowered(p);
    if i < p.len() {
        assert(q[i] == text::lower(p[i]));
        if p[i] == '*' {
            if glob_at(p, i + 1, s, j, end) {
                lemma_glob_of_lowered(p, i + 1, s, j, end);
            } else {
                lemma_glob_of_lowered(p, i, s, j + 1, end);
            }
        } else if p[i] == '^' {
            if j < s.len() && is_separator(s[j]) && glob_at(p, i + 1, s, j + 1, end) {
                lemma_glob_of_lowered(p, i + 1, s, j + 1, end);
            } else {
                lemma_glob_of_lowered(p, i + 1, s, j, end);
            }
        } else {
            lemma_glob_of_lowered(p, i + 1, s, j + 1, end);
        }
    }
}

} // verus!
