//! Counts by name, and a bounded estimator of the most frequent names.

use std::collections::BTreeSet;

use vstd::prelude::*;
use vstd::std_specs::cmp::OrdSpec;

use crate::engine::histogram;
use crate::engine::histogram::plus;
use crate::engine::table::Table;

verus! {

/// Counts by name.
pub type Counts = Map<Seq<char>, u64>;

/// The sums of counts.
pub open spec fn merged_counts(a: Counts, b: Counts) -> Counts {
    Map::new(
        |k: Seq<char>| a.contains_key(k) || b.contains_key(k),
        |k: Seq<char>|
            if a.contains_key(k) && b.contains_key(k) {
                histogram::sum64(a[k], b[k])
            } else if a.contains_key(k) {
                a[k]
            } else {
                b[k]
            },
    )
}

/// With so many more of one name.
pub open spec fn raised(m: Counts, name: Seq<char>, by: u64) -> Counts {
    m.insert(
        name,
        histogram::sum64(
            if m.contains_key(name) {
                m[name]
            } else {
                0
            },
            by,
        ),
    )
}

/// Whether no count is less than that of a name.
pub open spec fn is_least(m: Counts, name: Seq<char>) -> bool {
    m.contains_key(name) && forall|k: Seq<char>| #[trigger] m.contains_key(k) ==> m[name] <= m[k]
}

/// A count in the place of a least one, which it inherits.
pub open spec fn displaced(m: Counts, victim: Seq<char>, name: Seq<char>, by: u64) -> Counts {
    m.remove(victim).insert(name, histogram::sum64(m[victim], by))
}

/// What counting a name makes of counts that hold so many names at most: while
/// there is room each name is counted exactly; after that a new name takes the
/// place of a name with the least count, and inherits that count. Which of several
/// such names goes is left open.
pub open spec fn bumped(m: Counts, after: Counts, name: Seq<char>, by: u64, cap: usize) -> bool {
    if m.contains_key(name) || m.dom().len() < cap {
        after == raised(m, name, by)
    } else if m.dom().len() == 0 {
        after == m
    } else {
        exists|victim: Seq<char>| #[trigger]
            is_least(m, victim) && after == displaced(m, victim, name, by)
    }
}

/// Adds counts by name to others.
pub fn merge_counts(dst: &mut Table<u64>, src: &Table<u64>)
    ensures
        final(dst)@ == merged_counts(old(dst)@, src@),
{
    let ghost start = dst@;
    let n: usize = src.len();
    let ghost names = src.names();
    let mut i: usize = 0;
    while i < n
        invariant
            i <= n,
            n == names.len(),
            names == src.names(),
            names.no_duplicates(),
            names.to_set() == src@.dom(),
            forall|k: Seq<char>| #[trigger]
                names.take(i as int).contains(k) ==> dst@.contains_key(k) && dst@[k]
                    == merged_counts(start, src@)[k],
            forall|k: Seq<char>|
                !names.take(i as int).contains(k) ==> (#[trigger] dst@.contains_key(k)
                    == start.contains_key(k)) && (start.contains_key(k) ==> dst@[k] == start[k]),
        decreases n - i,
    {
        let (name, count): (&str, &u64) = src.at(i);
        let ghost before = dst@;
        proof {
            assert(!names.take(i as int).contains(name@)) by {
                if names.take(i as int).contains(name@) {
                    let j = choose|j: int| 0 <= j < i && names.take(i as int)[j] == name@;
                    assert(names[j] == names[i as int]);
                }
            }
            assert(names.take(i + 1) =~= names.take(i as int).push(name@));
        }
        let value: u64 = match dst.get(name) {
            Some(prev) => plus(*prev, *count),
            None => *count,
        };
        dst.set(name, value);
        proof {
            assert forall|k: Seq<char>| #[trigger] names.take(i + 1).contains(k) implies dst@.contains_key(k)
                && dst@[k] == merged_counts(start, src@)[k] by {
                if k != name@ {
                    let upto = names.take(i + 1);
                    let j = choose|j: int| 0 <= j < upto.len() && upto[j] == k;
                    assert(names.take(i as int)[j] == k);
                    assert(names.take(i as int).contains(k));
                }
            }
            assert forall|k: Seq<char>| !names.take(i + 1).contains(k) implies (
            #[trigger] dst@.contains_key(k) == start.contains_key(k)) && (start.contains_key(k)
                ==> dst@[k] == start[k]) by {
                if names.take(i as int).contains(k) {
                    let j = choose|j: int| 0 <= j < i && names.take(i as int)[j] == k;
                    assert(names.take(i + 1)[j] == k);
                }
                if k == name@ {
                    assert(names.take(i + 1)[i as int] == k);
                }
                assert(before.contains_key(k) == start.contains_key(k));
            }
        }
        i = i + 1;
    }
    proof {
        assert(names.take(i as int) =~= names);
        assert forall|k: Seq<char>| names.contains(k) == src@.contains_key(k) by {
            assert(names.to_set().contains(k) == src@.dom().contains(k));
        }
        assert forall|k: Seq<char>| #[trigger]
            dst@.contains_key(k) == merged_counts(start, src@).contains_key(k) by {
            if names.contains(k) {
                assert(names.take(i as int).contains(k));
            }
        }
        assert(dst@ =~= merged_counts(start, src@));
    }
}

/// Whether an order holds each count with the slot it stands in, and nothing else.
pub open spec fn orders(order: Set<(u64, usize)>, names: Seq<Seq<char>>, m: Counts) -> bool {
    &&& forall|i: int|
        0 <= i < names.len() ==> order.contains((m[#[trigger] names[i]], i as usize))
    &&& forall|r: (u64, usize)| #[trigger]
        order.contains(r) ==> r.1 < names.len() && r.0 == m[names[r.1 as int]]
}

/// A bounded top-K frequency estimator (the Space-Saving algorithm).
///
/// Tracks at most `cap` distinct keys regardless of how many distinct values the
/// stream actually carries. While under `cap` it behaves as an exact counter. Once
/// full, a never-seen key evicts a minimum-count entry and inherits its count plus
/// the increment.
pub struct HeavyHitters {
    counts: Table<u64>,
    /// The counts in ascending order, each with its slot, so that a weakest entry is
    /// found without a scan.
    order: BTreeSet<(u64, usize)>,
}

impl View for HeavyHitters {
    type V = Counts;

    closed spec fn view(&self) -> Counts {
        self.counts@
    }
}

/// The smallest count in an order, with its slot.
fn least_of(order: &BTreeSet<(u64, usize)>) -> (r: Option<(u64, usize)>)
    ensures
        match r {
            Some(x) => order@.contains(x) && forall|y: (u64, usize)| #[trigger]
                order@.contains(y) ==> x.0 <= y.0,
            None => order@ == Set::<(u64, usize)>::empty(),
        },
{
    broadcast use vstd::std_specs::btree::group_btree_axioms;
    broadcast use vstd::laws_cmp::group_laws_cmp;

    for x in it: order.iter()
        invariant
            it.index() == 0,
            it.seq().unref().to_set() == order@,
            vstd::std_specs::btree::increasing_seq(it.seq()),
    {
        proof {
            let all = it.seq();
            assert(vstd::laws_cmp::obeys_cmp::<(u64, usize)>());
            assert(vstd::laws_cmp::obeys_cmp::<&(u64, usize)>());
            assert(all.unref()[0] == *x);
            assert forall|y: (u64, usize)| #[trigger] order@.contains(y) implies x.0 <= y.0 by {
                assert(all.unref().to_set().contains(y));
                let j = choose|j: int| 0 <= j < all.unref().len() && all.unref()[j] == y;
                assert(*all[j] == y);
                if j > 0 {
                    assert(OrdSpec::cmp_spec(&all[0], &all[j]) is Less);
                }
            }
        }
        return Some(*x);
    }
    assert(order@ =~= Set::empty());
    None
}

/// The counts of a table in order.
fn order_of(counts: &Table<u64>) -> (r: BTreeSet<(u64, usize)>)
    ensures
        orders(r@, counts.names(), counts@),
{
    let n: usize = counts.len();
    let ghost names = counts.names();
    let mut order: BTreeSet<(u64, usize)> = BTreeSet::new();
    let mut i: usize = 0;
    while i < n
        invariant
            i <= n,
            n == names.len(),
            names == counts.names(),
            forall|k: int|
                0 <= k < i ==> order@.contains((counts@[#[trigger] names[k]], k as usize)),
            forall|r: (u64, usize)| #[trigger]
                order@.contains(r) ==> r.1 < i && r.0 == counts@[names[r.1 as int]],
        decreases n - i,
    {
        let (_, count): (&str, &u64) = counts.at(i);
        add_count(&mut order, i, *count);
        i = i + 1;
    }
    order
}

/// Moves a count in an order.
fn move_count(order: &mut BTreeSet<(u64, usize)>, slot: usize, was: u64, now: u64)
    ensures
        final(order)@ == old(order)@.remove((was, slot)).insert((now, slot)),
{
    broadcast use vstd::std_specs::btree::group_btree_axioms;
    broadcast use vstd::laws_cmp::group_laws_cmp;

    order.remove(&(was, slot));
    order.insert((now, slot));
}

/// Adds a count to an order.
fn add_count(order: &mut BTreeSet<(u64, usize)>, slot: usize, count: u64)
    ensures
        final(order)@ == old(order)@.insert((count, slot)),
{
    broadcast use vstd::std_specs::btree::group_btree_axioms;
    broadcast use vstd::laws_cmp::group_laws_cmp;

    order.insert((count, slot));
}

/// A slot with another count, and perhaps another name.
proof fn lemma_moved(
    order: Set<(u64, usize)>,
    names: Seq<Seq<char>>,
    m: Counts,
    slot: usize,
    name: Seq<char>,
    now: u64,
)
    requires
        orders(order, names, m),
        names.no_duplicates(),
        names.len() <= usize::MAX,
        slot < names.len(),
        name == names[slot as int] || !names.contains(name),
    ensures
        orders(
            order.remove((m[names[slot as int]], slot)).insert((now, slot)),
            names.update(slot as int, name),
            m.remove(names[slot as int]).insert(name, now),
        ),
{
    let gone = names[slot as int];
    let after = names.update(slot as int, name);
    let order2 = order.remove((m[gone], slot)).insert((now, slot));
    let m2 = m.remove(gone).insert(name, now);
    assert forall|i: int| 0 <= i < after.len() implies order2.contains(
        (m2[#[trigger] after[i]], i as usize),
    ) by {
        if i != slot {
            assert(after[i] == names[i]);
            assert(names[i] != gone && names[i] != name);
            assert(order.contains((m[names[i]], i as usize)));
        }
    }
    assert forall|r: (u64, usize)| #[trigger] order2.contains(r) implies r.1 < after.len() && r.0
        == m2[after[r.1 as int]] by {
        if r != (now, slot) {
            assert(order.contains(r));
            if r.1 != slot {
                let other = names[r.1 as int];
                assert(other != gone && other != name);
            }
        }
    }
}

/// One slot more.
proof fn lemma_added(
    order: Set<(u64, usize)>,
    names: Seq<Seq<char>>,
    m: Counts,
    name: Seq<char>,
    count: u64,
)
    requires
        orders(order, names, m),
        names.len() < usize::MAX,
        !names.contains(name),
    ensures
        orders(
            order.insert((count, names.len() as usize)),
            names.push(name),
            m.insert(name, count),
        ),
{
    let after = names.push(name);
    let n = names.len() as usize;
    assert forall|i: int| 0 <= i < after.len() implies order.insert((count, n)).contains(
        (m.insert(name, count)[#[trigger] after[i]], i as usize),
    ) by {
        if i < names.len() {
            assert(after[i] == names[i]);
            assert(names[i] != name);
            assert(order.contains((m[names[i]], i as usize)));
        }
    }
    assert forall|r: (u64, usize)| #[trigger] order.insert((count, n)).contains(r) implies r.1
        < after.len() && r.0 == m.insert(name, count)[after[r.1 as int]] by {
        if r != (count, n) {
            assert(order.contains(r));
            assert(names[r.1 as int] != name);
        }
    }
}

/// The counts of pairs, of which a later one for the same name counts.
pub open spec fn counts_of(v: Seq<(String, u64)>) -> Counts
    decreases v.len(),
{
    if v.len() == 0 {
        Map::empty()
    } else {
        counts_of(v.drop_last()).insert(v.last().0@, v.last().1)
    }
}

pub fn table_of(v: &Vec<(String, u64)>) -> (r: Table<u64>)
    ensures
        r@ == counts_of(v@),
{
    let mut t: Table<u64> = Table::new();
    let mut i: usize = 0;
    assert(v@.take(0) =~= Seq::empty());
    while i < v.len()
        invariant
            i <= v@.len(),
            t@ == counts_of(v@.take(i as int)),
        decreases v@.len() - i,
    {
        assert(v@.take(i + 1).drop_last() =~= v@.take(i as int));
        t.set(v[i].0.as_str(), v[i].1);
        i = i + 1;
    }
    assert(v@.take(i as int) =~= v@);
    t
}

impl HeavyHitters {
    /// The order is in step with the counts.
    #[verifier::type_invariant]
    closed spec fn wf(self) -> bool {
        orders(self.order@, self.counts.names(), self.counts@)
    }

    pub fn new() -> (r: HeavyHitters)
        ensures
            r@ == Counts::empty(),
    {
        HeavyHitters { counts: Table::new(), order: BTreeSet::new() }
    }

    /// An estimator with counts that were kept elsewhere. The order is rebuilt.
    pub fn from_counts(v: &Vec<(String, u64)>) -> (r: HeavyHitters)
        ensures
            r@ == counts_of(v@),
    {
        let counts: Table<u64> = table_of(v);
        let order: BTreeSet<(u64, usize)> = order_of(&counts);
        HeavyHitters { counts, order }
    }

    /// The names and their counts.
    pub fn counts(&self) -> (r: &Table<u64>)
        ensures
            r@ == self@,
    {
        &self.counts
    }

    /// Record `by` observations of `key`, holding the live key set at `cap`.
    pub fn bump(&mut self, key: &str, by: u64, cap: usize)
        ensures
            bumped(old(self)@, final(self)@, key@, by, cap),
    {
        proof {
            use_type_invariant(&*self);
        }
        let mut taken: HeavyHitters = HeavyHitters::new();
        std::mem::swap(self, &mut taken);
        let HeavyHitters { mut counts, mut order } = taken;
        let n: usize = counts.len();
        let ghost before = counts@;
        let ghost names = counts.names();
        let ghost ordered = order@;
        match counts.find(key) {
            Some(slot) => {
                let was: u64 = *counts.at(slot).1;
                let now: u64 = plus(was, by);
                counts.set(key, now);
                move_count(&mut order, slot, was, now);
                proof {
                    lemma_moved(ordered, names, before, slot, key@, now);
                    assert(names.update(slot as int, key@) =~= names);
                    assert(before.remove(key@).insert(key@, now) =~= before.insert(key@, now));
                }
            },
            None => {
                assert(!names.contains(key@)) by {
                    assert(names.to_set().contains(key@) == before.contains_key(key@));
                }
                if n < cap {
                    counts.set(key, by);
                    add_count(&mut order, n, by);
                    proof {
                        lemma_added(ordered, names, before, key@, by);
                    }
                } else if let Some((least, slot)) = least_of(&order) {
                    let now: u64 = plus(least, by);
                    let ghost victim = names[slot as int];
                    counts.replace(slot, key, now);
                    move_count(&mut order, slot, least, now);
                    proof {
                        lemma_moved(ordered, names, before, slot, key@, now);
                        assert forall|k: Seq<char>| #[trigger] before.contains_key(k) implies before[victim]
                            <= before[k] by {
                            assert(names.to_set().contains(k));
                            let j = choose|j: int| 0 <= j < names.len() && names[j] == k;
                            assert(ordered.contains((before[names[j]], j as usize)));
                        }
                        assert(before.contains_key(victim)) by {
                            assert(names.to_set().contains(victim));
                        }
                        assert(is_least(before, victim) && counts@ == displaced(
                            before,
                            victim,
                            key@,
                            by,
                        ));
                    }
                } else {
                    assert(n == 0) by {
                        if n > 0 {
                            assert(ordered.contains((before[names[0]], 0usize)));
                        }
                    }
                }
            },
        }
        *self = HeavyHitters { counts, order };
    }

    /// Fold another estimator's counts in (used when merging shards for a
    /// snapshot).
    pub fn merge_from(&mut self, other: &HeavyHitters)
        ensures
            final(self)@ == merged_counts(old(self)@, other@),
    {
        let mut taken: HeavyHitters = HeavyHitters::new();
        std::mem::swap(self, &mut taken);
        let HeavyHitters { mut counts, order: _ } = taken;
        merge_counts(&mut counts, &other.counts);
        let order: BTreeSet<(u64, usize)> = order_of(&counts);
        *self = HeavyHitters { counts, order };
    }
}

/// The sum of counts.
pub open spec fn total(m: Counts) -> nat
    decreases m.dom().len(),
{
    if m.dom().finite() && m.dom().len() > 0 {
        let k = m.dom().choose();
        m[k] as nat + total(m.remove(k))
    } else {
        0
    }
}

/// A sum of counts without one of them.
proof fn lemma_total(m: Counts, name: Seq<char>)
    requires
        m.dom().finite(),
        m.contains_key(name),
    ensures
        total(m) == m[name] + total(m.remove(name)),
    decreases m.dom().len(),
{
    let k = m.dom().choose();
    assert(m.dom().contains(name));
    if m.dom().len() == 0 {
        assert(m.dom() =~= Set::empty());
    }
    assert(m.dom().contains(k));
    if k != name {
        lemma_total(m.remove(k), name);
        lemma_total(m.remove(name), k);
        assert(m.remove(k).remove(name) =~= m.remove(name).remove(k));
    }
}

/// A sum of counts with one more of them.
proof fn lemma_total_insert(m: Counts, name: Seq<char>, count: u64)
    requires
        m.dom().finite(),
        !m.contains_key(name),
    ensures
        total(m.insert(name, count)) == total(m) + count,
{
    let after = m.insert(name, count);
    lemma_total(after, name);
    assert(after.remove(name) =~= m);
}

/// One step of the estimator: the name is there afterwards, the sum of all counts
/// grew by what was counted, and no more names are held than before or than the cap
/// lets in. A name that was there, or for which there was room, is all that changed;
/// or else one name with the least count went, and the new one has that count and what
/// was counted.
pub proof fn law_heavy_hitters_step(m: Counts, after: Counts, name: Seq<char>, by: u64, cap: usize)
    requires
        m.dom().finite(),
        cap > 0,
        bumped(m, after, name, by, cap),
        forall|k: Seq<char>| #[trigger] m.contains_key(k) ==> m[k] + by <= u64::MAX,
    ensures
        after.dom().finite(),
        after.contains_key(name),
        total(after) == total(m) + by,
        after.dom().len() <= m.dom().len() || after.dom().len() <= cap,
        m.contains_key(name) ==> after == m.insert(name, (m[name] + by) as u64),
        !m.contains_key(name) && m.dom().len() < cap ==> after == m.insert(name, by),
        !m.contains_key(name) && m.dom().len() >= cap ==> exists|victim: Seq<char>| #[trigger]
            is_least(m, victim) && after == m.remove(victim).insert(
                name,
                (m[victim] + by) as u64,
            ),
{
    if m.contains_key(name) {
        lemma_total(m, name);
        let rest = m.remove(name);
        assert(after =~= rest.insert(name, (m[name] + by) as u64));
        assert(after =~= m.insert(name, (m[name] + by) as u64));
        lemma_total_insert(rest, name, (m[name] + by) as u64);
        assert(after.dom() =~= m.dom());
    } else if m.dom().len() < cap {
        lemma_total_insert(m, name, by);
        assert(after =~= m.insert(name, by));
        assert(after.dom() =~= m.dom().insert(name));
    } else {
        let victim = choose|victim: Seq<char>| #[trigger]
            is_least(m, victim) && after == displaced(m, victim, name, by);
        lemma_total(m, victim);
        let rest = m.remove(victim);
        lemma_total_insert(rest, name, (m[victim] + by) as u64);
        assert(after =~= rest.insert(name, (m[victim] + by) as u64));
        assert(after.dom() =~= m.dom().remove(victim).insert(name));
    }
}

/// The estimator never holds more names than its cap, once it does not.
pub proof fn law_heavy_hitters_bounded(m: Counts, after: Counts, name: Seq<char>, by: u64, cap: usize)
    requires
        m.dom().finite(),
        m.dom().len() <= cap,
        bumped(m, after, name, by, cap),
    ensures
        after.dom().finite(),
        after.dom().len() <= cap,
{
    if m.contains_key(name) {
        assert(after.dom() =~= m.dom().insert(name));
    } else if m.dom().len() < cap {
        assert(after.dom() =~= m.dom().insert(name));
    } else if m.dom().len() > 0 {
        let victim = choose|victim: Seq<char>| #[trigger]
            is_least(m, victim) && after == displaced(m, victim, name, by);
        assert(after.dom() =~= m.dom().remove(victim).insert(name));
    }
}

/// A name that is counted is there afterwards, with a count that is no less than
/// what was seen of it; and no other name that stays changes its count.
pub proof fn law_heavy_hitters_never_undercount(
    m: Counts,
    after: Counts,
    name: Seq<char>,
    by: u64,
    cap: usize,
)
    requires
        m.dom().finite(),
        cap > 0,
        bumped(m, after, name, by, cap),
        forall|k: Seq<char>| #[trigger] m.contains_key(k) ==> m[k] + by <= u64::MAX,
    ensures
        after.contains_key(name),
        after[name] >= by + if m.contains_key(name) {
            m[name] as int
        } else {
            0
        },
        forall|k: Seq<char>|
            k != name && #[trigger] after.contains_key(k) ==> m.contains_key(k) && after[k] == m[k],
{
    if !m.contains_key(name) && m.dom().len() >= cap {
        let victim = choose|victim: Seq<char>| #[trigger]
            is_least(m, victim) && after == displaced(m, victim, name, by);
        assert(m.contains_key(victim));
    }
}

/// Only a name with the least count ever goes: while the estimator is full, a name
/// that was counted more often than another stays.
pub proof fn law_heavy_hitters_keep_frequent(
    m: Counts,
    after: Counts,
    name: Seq<char>,
    by: u64,
    cap: usize,
    frequent: Seq<char>,
    rare: Seq<char>,
)
    requires
        m.dom().finite(),
        bumped(m, after, name, by, cap),
        m.contains_key(frequent),
        m.contains_key(rare),
        m[rare] < m[frequent],
    ensures
        after.contains_key(frequent),
{
    if !m.contains_key(name) && m.dom().len() >= cap && m.dom().len() > 0 {
        let victim = choose|victim: Seq<char>| #[trigger]
            is_least(m, victim) && after == displaced(m, victim, name, by);
        assert(m[victim] <= m[rare]);
    }
}

/// How often a name was seen in a stream of names with their multiplicities.
pub open spec fn seen(stream: Seq<(Seq<char>, u64)>, name: Seq<char>) -> nat
    decreases stream.len(),
{
    if stream.len() == 0 {
        0
    } else {
        seen(stream.drop_last(), name) + if stream.last().0 == name {
            stream.last().1 as nat
        } else {
            0
        }
    }
}

/// How much was seen in a stream.
pub open spec fn volume(stream: Seq<(Seq<char>, u64)>) -> nat
    decreases stream.len(),
{
    if stream.len() == 0 {
        0
    } else {
        volume(stream.drop_last()) + stream.last().1 as nat
    }
}

/// Whether `states` are the counts of an estimator before, between and after the names
/// of a stream.
pub open spec fn is_run(states: Seq<Counts>, stream: Seq<(Seq<char>, u64)>, cap: usize) -> bool {
    &&& states.len() == stream.len() + 1
    &&& states[0] == Counts::empty()
    &&& forall|i: int|
        0 <= i < stream.len() ==> bumped(
            #[trigger] states[i],
            states[i + 1],
            stream[i].0,
            stream[i].1,
            cap,
        )
}

/// Over a whole stream no name that is held is undercounted, and a name that was seen
/// more often than one that is held is held itself: however many names there are, the
/// frequent ones stay. No more names are held than the cap.
pub proof fn law_heavy_hitters_find_frequent(
    states: Seq<Counts>,
    stream: Seq<(Seq<char>, u64)>,
    cap: usize,
)
    requires
        cap > 0,
        is_run(states, stream, cap),
        volume(stream) <= u64::MAX,
    ensures
        states.last().dom().finite(),
        states.last().dom().len() <= cap,
        forall|k: Seq<char>| #[trigger]
            states.last().contains_key(k) ==> seen(stream, k) <= states.last()[k] <= volume(stream),
        forall|k: Seq<char>, held: Seq<char>|
            !states.last().contains_key(k) && #[trigger] states.last().contains_key(held)
                ==> #[trigger] seen(stream, k) <= states.last()[held],
        states.last().dom().len() < cap ==> forall|k: Seq<char>|
            !states.last().contains_key(k) ==> #[trigger] seen(stream, k) == 0,
    decreases stream.len(),
{
    if stream.len() > 0 {
        let past = stream.drop_last();
        let earlier = states.drop_last();
        let (name, by) = stream.last();
        assert(is_run(earlier, past, cap)) by {
            assert forall|i: int| 0 <= i < past.len() implies bumped(
                #[trigger] earlier[i],
                earlier[i + 1],
                past[i].0,
                past[i].1,
                cap,
            ) by {
                assert(bumped(states[i], states[i + 1], stream[i].0, stream[i].1, cap));
            }
        }
        law_heavy_hitters_find_frequent(earlier, past, cap);
        let m = earlier.last();
        let after = states.last();
        assert(m == states[stream.len() - 1]);
        assert(bumped(m, after, name, by, cap));
        law_heavy_hitters_bounded(m, after, name, by, cap);
        assert(stream =~= past.push((name, by)));
        lemma_step(m, after, past, name, by, cap);
    } else {
        assert(states.last() == Counts::empty());
    }
}

proof fn lemma_step(
    m: Counts,
    after: Counts,
    past: Seq<(Seq<char>, u64)>,
    name: Seq<char>,
    by: u64,
    cap: usize,
)
    requires
        cap > 0,
        m.dom().finite(),
        m.dom().len() <= cap,
        bumped(m, after, name, by, cap),
        volume(past.push((name, by))) <= u64::MAX,
        forall|k: Seq<char>| #[trigger]
            m.contains_key(k) ==> seen(past, k) <= m[k] <= volume(past),
        forall|k: Seq<char>, held: Seq<char>|
            !m.contains_key(k) && #[trigger] m.contains_key(held) ==> #[trigger] seen(past, k)
                <= m[held],
        m.dom().len() < cap ==> forall|k: Seq<char>|
            !m.contains_key(k) ==> #[trigger] seen(past, k) == 0,
    ensures
        ({
            let stream = past.push((name, by));
            &&& forall|k: Seq<char>| #[trigger]
                after.contains_key(k) ==> seen(stream, k) <= after[k] <= volume(stream)
            &&& forall|k: Seq<char>, held: Seq<char>|
                !after.contains_key(k) && #[trigger] after.contains_key(held) ==> #[trigger] seen(
                    stream,
                    k,
                ) <= after[held]
            &&& after.dom().len() < cap ==> forall|k: Seq<char>|
                !after.contains_key(k) ==> #[trigger] seen(stream, k) == 0
        }),
{
    let stream = past.push((name, by));
    assert(stream.drop_last() =~= past);
    assert(volume(stream) == volume(past) + by);
    assert forall|k: Seq<char>| #[trigger] seen(stream, k) == seen(past, k) + if k == name {
        by as nat
    } else {
        0
    } by {}
    if m.contains_key(name) {
        assert(after.dom() =~= m.dom());
    } else if m.dom().len() < cap {
        assert(seen(past, name) == 0);
        assert(after.dom() =~= m.dom().insert(name));
    } else {
        let victim = choose|victim: Seq<char>| #[trigger]
            is_least(m, victim) && after == displaced(m, victim, name, by);
        assert(m.contains_key(victim));
        assert(seen(past, name) <= m[victim]);
        assert(after.dom() =~= m.dom().remove(victim).insert(name));
        assert(after[name] == m[victim] + by);
        assert forall|k: Seq<char>, held: Seq<char>|
            !after.contains_key(k) && #[trigger] after.contains_key(held) implies #[trigger] seen(
            stream,
            k,
        ) <= after[held] by {
            assert(k != name);
            let floor = m[victim];
            if k == victim {
                assert(seen(past, k) <= floor);
            } else {
                assert(!m.contains_key(k));
                assert(seen(past, k) <= floor);
            }
            if held != name {
                assert(m.contains_key(held));
                assert(floor <= m[held]);
            }
        }
    }
}

} // verus!
