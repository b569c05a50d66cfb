//! An index from domains to the rules that name them.

use vstd::prelude::*;

verus! {

#[verifier::external_type_specification]
#[verifier::external_body]
#[verifier::reject_recursive_types(K)]
#[verifier::reject_recursive_types(V)]
#[verifier::reject_recursive_types(S)]
pub struct ExAHashMap<K, V, S>(ahash::AHashMap<K, V, S>);

#[verifier::external_type_specification]
#[verifier::external_body]
pub struct ExAHashState(ahash::RandomState);

/// What an `AHashMap` from strings to numbers holds.
pub uninterp spec fn slots_of(m: ahash::AHashMap<String, usize>) -> Map<Seq<char>, usize>;

/// `AHashMap::new`: an empty map.
#[verifier::external_body]
fn new_slots() -> (r: ahash::AHashMap<String, usize>)
    ensures
        slots_of(r).dom() == Set::<Seq<char>>::empty(),
{
    ahash::AHashMap::new()
}

/// `AHashMap::get`: the value under a key, if there is one.
#[verifier::external_body]
fn get_slot(m: &ahash::AHashMap<String, usize>, key: &str) -> (r: Option<usize>)
    ensures
        match r {
            Some(v) => slots_of(*m).contains_key(key@) && slots_of(*m)[key@] == v,
            None => !slots_of(*m).contains_key(key@),
        },
{
    m.get(key).copied()
}

/// `AHashMap::insert`: puts the value under the key, in place of any other.
#[verifier::external_body]
fn insert_slot(m: &mut ahash::AHashMap<String, usize>, key: String, value: usize)
    ensures
        slots_of(*final(m)) == slots_of(*old(m)).insert(key@, value),
{
    m.insert(key, value);
}

/// Maps domains to the ids of the rules that name them.
#[derive(Debug)]
pub struct DomainIndex {
    slots: ahash::AHashMap<String, usize>,
    hits: Vec<Vec<usize>>,
}

impl DomainIndex {
    /// Each domain has a bucket of its own.
    pub closed spec fn wf(self) -> bool {
        let m = slots_of(self.slots);
        &&& forall|d: Seq<char>| m.contains_key(d) ==> #[trigger] m[d] < self.hits@.len()
        &&& forall|d: Seq<char>, e: Seq<char>|
            m.contains_key(d) && m.contains_key(e) && #[trigger] m[d] == #[trigger] m[e] ==> d == e
    }

    /// The ids under a domain, in the order in which they were added.
    pub closed spec fn ids(self, d: Seq<char>) -> Seq<usize> {
        let m = slots_of(self.slots);
        if m.contains_key(d) {
            self.hits@[m[d] as int]@
        } else {
            Seq::empty()
        }
    }

    /// An index without domains.
    pub fn new() -> (r: DomainIndex)
        ensures
            r.wf(),
            forall|d: Seq<char>| #[trigger] r.ids(d) == Seq::<usize>::empty(),
    {
        DomainIndex { slots: new_slots(), hits: Vec::new() }
    }

    /// Adds an id under a domain.
    pub fn push(&mut self, domain: &String, id: usize)
        requires
            old(self).wf(),
        ensures
            final(self).wf(),
            forall|d: Seq<char>| #[trigger]
                final(self).ids(d) == if d == domain@ {
                    old(self).ids(d).push(id)
                } else {
                    old(self).ids(d)
                },
    {
        match get_slot(&self.slots, domain.as_str()) {
            Some(slot) => {
                let ghost before = *self;
                self.hits[slot].push(id);
                assert forall|d: Seq<char>| #[trigger] self.ids(d) == if d == domain@ {
                    before.ids(d).push(id)
                } else {
                    before.ids(d)
                } by {
                    let m = slots_of(self.slots);
                    if m.contains_key(d) && d != domain@ {
                        assert(m[d] != m[domain@]);
                    }
                }
            },
            None => {
                let ghost before = *self;
                let slot: usize = self.hits.len();
                let mut bucket: Vec<usize> = Vec::new();
                bucket.push(id);
                self.hits.push(bucket);
                insert_slot(&mut self.slots, domain.clone(), slot);
                assert forall|d: Seq<char>| #[trigger] self.ids(d) == if d == domain@ {
                    before.ids(d).push(id)
                } else {
                    before.ids(d)
                } by {
                    if d == domain@ {
                        assert(self.ids(d) =~= before.ids(d).push(id));
                    } else if slots_of(self.slots).contains_key(d) {
                        assert(slots_of(before.slots)[d] < before.hits@.len());
                    }
                }
            },
        }
    }

    /// Appends the ids under a domain to `out`.
    pub fn collect(&self, domain: &str, out: &mut Vec<usize>)
        requires
            self.wf(),
        ensures
            final(out)@ == old(out)@ + self.ids(domain@),
    {
        match get_slot(&self.slots, domain) {
            Some(slot) => {
                let bucket: &Vec<usize> = &self.hits[slot];
                let mut i: usize = 0;
                assert(old(out)@ + bucket@.take(0) =~= old(out)@);
                while i < bucket.len()
                    invariant
                        i <= bucket@.len(),
                        out@ == old(out)@ + bucket@.take(i as int),
                    decreases bucket@.len() - i,
                {
                    out.push(bucket[i]);
                    assert(out@ =~= old(out)@ + bucket@.take(i + 1));
                    i = i + 1;
                }
                assert(bucket@.take(i as int) =~= self.ids(domain@));
            },
            None => {
                assert(old(out)@ + self.ids(domain@) =~= old(out)@);
            },
        }
    }
}

} // verus!
