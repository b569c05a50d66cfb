//! Top-N lists: the names with the highest counts.

use vstd::prelude::*;

use crate::engine::table::Table;
use crate::text;
use crate::text::{chars_of, lex_not_after, same_text};

verus! {

/// A name + count pair for top-N lists.
#[derive(Debug, Clone)]
pub struct TopEntry {
    pub name: String,
    pub count: u64,
}

/// What a [`TopEntry`] says.
pub struct TopView {
    pub name: Seq<char>,
    pub count: u64,
}

impl View for TopEntry {
    type V = TopView;

    open spec fn view(&self) -> TopView {
        TopView { name: self.name@, count: self.count }
    }
}

pub open spec fn top_views(v: Seq<TopEntry>) -> Seq<TopView> {
    v.map_values(|t: TopEntry| t@)
}

/// Whether one entry ranks before another: by a higher count, or else by name.
pub open spec fn ranks_before(a: TopView, b: TopView) -> bool {
    a.count > b.count || (a.count == b.count && a.name != b.name && text::lex_le(a.name, b.name))
}

pub open spec fn names_it(v: Seq<TopView>, name: Seq<char>) -> bool {
    exists|i: int| 0 <= i < v.len() && (#[trigger] v[i]).name == name
}

/// Whether entries are those of the names with the highest counts, so many of them
/// or all, in the order of their rank.
pub open spec fn is_top(v: Seq<TopView>, m: Map<Seq<char>, u64>, n: nat) -> bool {
    &&& v.len() == if m.dom().len() < n {
        m.dom().len()
    } else {
        n
    }
    &&& forall|i: int|
        0 <= i < v.len() ==> m.contains_key((#[trigger] v[i]).name) && m[v[i].name] == v[i].count
    &&& forall|i: int, j: int|
        0 <= i < j < v.len() ==> ranks_before(#[trigger] v[i], #[trigger] v[j])
    &&& forall|name: Seq<char>, i: int|
        m.contains_key(name) && !names_it(v, name) && 0 <= i < v.len() ==> ranks_before(
            #[trigger] v[i],
            TopView { name, count: #[trigger] m[name] },
        )
}

proof fn lemma_rank_transitive(a: TopView, b: TopView, c: TopView)
    requires
        ranks_before(a, b),
        ranks_before(b, c),
    ensures
        ranks_before(a, c),
{
    if a.count == b.count && b.count == c.count {
        text::lemma_lex_transitive(a.name, b.name, c.name);
        if a.name == c.name {
            text::lemma_lex_antisymmetric(a.name, b.name);
        }
    }
}

proof fn lemma_rank_total(a: TopView, b: TopView)
    requires
        a.name != b.name,
    ensures
        ranks_before(a, b) || ranks_before(b, a),
{
    text::lemma_lex_total(a.name, b.name);
}

fn outranks(a: &TopEntry, b: &TopEntry) -> (r: bool)
    ensures
        r == ranks_before(a@, b@),
{
    if a.count != b.count {
        return a.count > b.count;
    }
    let x: Vec<char> = chars_of(a.name.as_str());
    let y: Vec<char> = chars_of(b.name.as_str());
    !same_text(a.name.as_str(), b.name.as_str()) && lex_not_after(x.as_slice(), y.as_slice())
}

/// Whether entries are the highest of some names.
spec fn top_upto(
    v: Seq<TopView>,
    names: Seq<Seq<char>>,
    m: Map<Seq<char>, u64>,
    n: nat,
) -> bool {
    &&& v.len() == if names.len() < n {
        names.len()
    } else {
        n
    }
    &&& forall|i: int|
        0 <= i < v.len() ==> names.contains((#[trigger] v[i]).name) && m[v[i].name] == v[i].count
    &&& forall|i: int, j: int|
        0 <= i < j < v.len() ==> ranks_before(#[trigger] v[i], #[trigger] v[j])
    &&& forall|k: int|
        0 <= k < names.len() ==> names_it(v, #[trigger] names[k]) || (v.len() == n && forall|i: int|
            0 <= i < v.len() ==> ranks_before(
                #[trigger] v[i],
                TopView { name: names[k], count: m[names[k]] },
            ))
}

/// One more entry among the highest.
proof fn lemma_top_step(
    v: Seq<TopView>,
    w: Seq<TopView>,
    names: Seq<Seq<char>>,
    m: Map<Seq<char>, u64>,
    n: nat,
    x: TopView,
    at: int,
)
    requires
        top_upto(v, names, m, n),
        !names.contains(x.name),
        m[x.name] == x.count,
        0 <= at <= v.len(),
        forall|i: int| 0 <= i < at ==> ranks_before(#[trigger] v[i], x),
        forall|i: int| at <= i < v.len() ==> ranks_before(x, #[trigger] v[i]),
        w == (if v.len() < n {
            v.insert(at, x)
        } else {
            v.insert(at, x).drop_last()
        }),
    ensures
        top_upto(w, names.push(x.name), m, n),
{
    let all = v.insert(at, x);
    let more = names.push(x.name);
    assert(more[names.len() as int] == x.name);
    assert forall|k: int| 0 <= k < names.len() implies more[k] == names[k] by {}
    assert forall|i: int, j: int| 0 <= i < j < all.len() implies ranks_before(
        #[trigger] all[i],
        #[trigger] all[j],
    ) by {
        let a = if i < at { v[i] } else if i == at { x } else { v[i - 1] };
        let b = if j < at { v[j] } else if j == at { x } else { v[j - 1] };
        assert(all[i] == a && all[j] == b);
        if i != at && j != at {
            let p = if i < at { i } else { i - 1 };
            let q = if j < at { j } else { j - 1 };
            assert(ranks_before(v[p], v[q]));
        }
    }
    assert forall|i: int| 0 <= i < all.len() implies more.contains((#[trigger] all[i]).name)
        && m[all[i].name] == all[i].count by {
        if i != at {
            let p = if i < at { i } else { i - 1 };
            assert(all[i] == v[p]);
            let k = choose|k: int| 0 <= k < names.len() && names[k] == v[p].name;
            assert(more[k] == v[p].name);
        }
    }
    let fits = v.len() < n;
    assert forall|k: int| 0 <= k < more.len() implies names_it(w, #[trigger] more[k]) || (w.len() == n
        && forall|i: int|
        0 <= i < w.len() ==> ranks_before(
            #[trigger] w[i],
            TopView { name: more[k], count: m[more[k]] },
        )) by {
        let name = more[k];
        let own = TopView { name, count: m[name] };
        if fits {
            if k == names.len() {
                assert(w[at].name == name);
            } else {
                assert(names_it(v, names[k]));
                let p = choose|p: int| 0 <= p < v.len() && (#[trigger] v[p]).name == name;
                let q = if p < at { p } else { p + 1 };
                assert(w[q] == v[p]);
            }
        } else {
            let last = all[all.len() - 1];
            if last.name == name {
                assert forall|i: int| 0 <= i < w.len() implies ranks_before(#[trigger] w[i], own) by {
                    assert(w[i] == all[i]);
                    assert(ranks_before(all[i], all[all.len() - 1]));
                    assert(own == last);
                }
            } else if k == names.len() {
                assert(at < w.len());
                assert(w[at].name == name);
            } else if names_it(v, names[k]) {
                let p = choose|p: int| 0 <= p < v.len() && (#[trigger] v[p]).name == name;
                let q = if p < at { p } else { p + 1 };
                assert(all[q] == v[p]);
                assert(q < w.len());
                assert(w[q].name == name);
            } else {
                assert forall|i: int| 0 <= i < w.len() implies ranks_before(#[trigger] w[i], own) by {
                    assert(w[i] == all[i]);
                    if i == at {
                        let l = v.len() - 1;
                        assert(ranks_before(x, v[l]));
                        assert(ranks_before(v[l], own));
                        lemma_rank_transitive(x, v[l], own);
                    } else {
                        let p = if i < at { i } else { i - 1 };
                        assert(all[i] == v[p]);
                        assert(ranks_before(v[p], own));
                    }
                }
            }
        }
    }
}

/// The names with the highest counts, the highest first, and by name where counts
/// are equal.
pub fn top_n_of(counts: &Table<u64>, n: usize) -> (r: Vec<TopEntry>)
    ensures
        is_top(top_views(r@), counts@, n as nat),
{
    let len: usize = counts.len();
    let ghost names = counts.names();
    let ghost m = counts@;
    let mut out: Vec<TopEntry> = Vec::new();
    let mut i: usize = 0;
    assert(top_views(out@) =~= Seq::empty());
    while i < len
        invariant
            i <= len,
            len == names.len(),
            names == counts.names(),
            names.no_duplicates(),
            m == counts@,
            top_upto(top_views(out@), names.take(i as int), m, n as nat),
        decreases len - i,
    {
        let (name, count): (&str, &u64) = counts.at(i);
        let x = TopEntry { name: name.to_owned(), count: *count };
        let ghost v = top_views(out@);
        let ghost prefix = names.take(i as int);
        proof {
            assert(!prefix.contains(name@)) by {
                if prefix.contains(name@) {
                    let j = choose|j: int| 0 <= j < prefix.len() && prefix[j] == name@;
                    assert(names[j] == names[i as int]);
                }
            }
            assert(names.take(i + 1) =~= prefix.push(name@));
        }
        let mut at: usize = out.len();
        while at > 0 && outranks(&x, &out[at - 1])
            invariant
                at <= out@.len(),
                v == top_views(out@),
                forall|k: int| at <= k < v.len() ==> ranks_before(x@, #[trigger] v[k]),
            decreases at,
        {
            assert(v[at - 1] == out@[at - 1]@);
            at = at - 1;
        }
        proof {
            assert forall|k: int| 0 <= k < at implies ranks_before(#[trigger] v[k], x@) by {
                assert(v[at - 1] == out@[at - 1]@);
                assert(prefix.contains(v[at - 1].name));
                lemma_rank_total(x@, v[at - 1]);
                if k < at - 1 {
                    lemma_rank_transitive(v[k], v[at - 1], x@);
                }
            }
        }
        let ghost own = x@;
        let full: bool = out.len() >= n;
        out.insert(at, x);
        assert(top_views(out@) =~= v.insert(at as int, own));
        if full {
            let _ = out.pop();
            assert(top_views(out@) =~= v.insert(at as int, own).drop_last());
        }
        proof {
            lemma_top_step(v, top_views(out@), prefix, m, n as nat, own, at as int);
        }
        i = i + 1;
    }
    proof {
        let v = top_views(out@);
        assert(names.take(i as int) =~= names);
        assert forall|k: Seq<char>| m.contains_key(k) == names.contains(k) by {
            assert(names.to_set().contains(k) == m.dom().contains(k));
        }
        assert forall|name: Seq<char>, i: int|
            m.contains_key(name) && !names_it(v, name) && 0 <= i < v.len() implies ranks_before(
            #[trigger] v[i],
            TopView { name, count: #[trigger] m[name] },
        ) by {
            let k = choose|k: int| 0 <= k < names.len() && names[k] == name;
            assert(!names_it(v, names[k]));
        }
    }
    out
}

/// There is one list of the highest counts.
pub proof fn law_top_is_unique(
    a: Seq<TopView>,
    b: Seq<TopView>,
    m: Map<Seq<char>, u64>,
    n: nat,
)
    requires
        is_top(a, m, n),
        is_top(b, m, n),
    ensures
        a == b,
    decreases a.len(),
{
    assert forall|i: int| 0 <= i < a.len() implies #[trigger] a[i] == b[i] by {
        lemma_top_agrees(a, b, m, n, i);
    }
    assert(a =~= b);
}

/// Two lists of the highest counts agree in each place.
proof fn lemma_top_agrees(
    a: Seq<TopView>,
    b: Seq<TopView>,
    m: Map<Seq<char>, u64>,
    n: nat,
    i: int,
)
    requires
        is_top(a, m, n),
        is_top(b, m, n),
        0 <= i < a.len(),
    ensures
        a[i] == b[i],
    decreases i,
{
    assert forall|j: int| 0 <= j < i implies #[trigger] a[j] == b[j] by {
        lemma_top_agrees(a, b, m, n, j);
    }
    if a[i].name == b[i].name {
        assert(a[i] == b[i]);
    } else {
        lemma_no_later(a, b, m, n, i);
        lemma_no_later(b, a, m, n, i);
        lemma_rank_transitive(a[i], b[i], a[i]);
    }
}

/// What stands in a place of one list ranks before what stands there in another, if
/// the places before it agree.
proof fn lemma_no_later(a: Seq<TopView>, b: Seq<TopView>, m: Map<Seq<char>, u64>, n: nat, i: int)
    requires
        is_top(a, m, n),
        is_top(b, m, n),
        0 <= i < a.len(),
        a[i].name != b[i].name,
        forall|j: int| 0 <= j < i ==> #[trigger] a[j] == b[j],
    ensures
        ranks_before(a[i], b[i]),
{
    let y = b[i];
    if names_it(a, y.name) {
        let j = choose|j: int| 0 <= j < a.len() && (#[trigger] a[j]).name == y.name;
        if j < i {
            assert(b[j].name == b[i].name);
            assert(ranks_before(b[j], b[i]));
            assert(b[j].count == b[i].count);
        } else {
            assert(j != i);
            assert(ranks_before(a[i], a[j]));
            assert(a[j] == y);
        }
    } else {
        assert(m.contains_key(y.name));
        assert(ranks_before(a[i], TopView { name: y.name, count: m[y.name] }));
    }
}

} // verus!
