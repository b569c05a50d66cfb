//! Tables by name, whose entries can be walked in a fixed order.

use vstd::hash_map::StringHashMap;
use vstd::prelude::*;

verus! {

/// One entry of a [`Table`].
#[derive(Debug, Clone)]
pub struct Slot<V> {
    pub name: String,
    pub value: V,
}

/// Values by name. Each name has a slot, and an index finds it.
pub struct Table<V: View> {
    index: StringHashMap<usize>,
    slots: Vec<Slot<V>>,
}

/// The names of slots.
pub open spec fn names_in<V>(slots: Seq<Slot<V>>) -> Seq<Seq<char>> {
    slots.map_values(|s: Slot<V>| s.name@)
}

/// Whether an index gives each name the slot it stands in.
spec fn indexes<V>(index: Map<Seq<char>, usize>, slots: Seq<Slot<V>>) -> bool {
    &&& forall|k: Seq<char>|
        #![trigger index.contains_key(k)]
        #![trigger index[k]]
        index.contains_key(k) ==> (index[k] < slots.len() && slots[index[k] as int].name@ == k)
    &&& forall|i: int|
        0 <= i < slots.len() ==> index.contains_key((#[trigger] slots[i]).name@)
            && index[slots[i].name@] == i
}

impl<V: View> View for Table<V> {
    type V = Map<Seq<char>, V::V>;

    closed spec fn view(&self) -> Map<Seq<char>, V::V> {
        Map::new(
            |k: Seq<char>| self.index@.contains_key(k),
            |k: Seq<char>| self.slots@[self.index@[k] as int].value@,
        )
    }
}

impl<V: View> Table<V> {
    #[verifier::type_invariant]
    closed spec fn wf(self) -> bool {
        indexes(self.index@, self.slots@)
    }

    /// The names, in the order of their slots.
    pub closed spec fn names(self) -> Seq<Seq<char>> {
        names_in(self.slots@)
    }

    pub fn new() -> (r: Table<V>)
        ensures
            r@ == Map::<Seq<char>, V::V>::empty(),
            r.names().len() == 0,
    {
        let r = Table { index: StringHashMap::new(), slots: Vec::new() };
        assert(r@ =~= Map::<Seq<char>, V::V>::empty());
        r
    }

    /// The names are those of the table, each once.
    proof fn lemma_names(&self)
        requires
            self.wf(),
        ensures
            self.names().no_duplicates(),
            self.names().to_set() == self@.dom(),
            self@.dom().finite(),
            self@.dom().len() == self.slots@.len(),
    {
        let names = self.names();
        assert forall|i: int, j: int| 0 <= i < names.len() && 0 <= j < names.len() && i != j implies names[i]
            != names[j] by {
            assert(names[i] == self.slots@[i].name@);
            assert(names[j] == self.slots@[j].name@);
        }
        assert forall|k: Seq<char>| names.to_set().contains(k) <==> self@.dom().contains(k) by {
            if names.contains(k) {
                let i = choose|i: int| 0 <= i < names.len() && names[i] == k;
                assert(self.slots@[i].name@ == k);
            }
            if self.index@.contains_key(k) {
                assert(names[self.index@[k] as int] == k);
            }
        }
        assert(names.to_set() =~= self@.dom());
        names.unique_seq_to_set();
    }

    /// How many names there are.
    pub fn len(&self) -> (r: usize)
        ensures
            r == self@.dom().len(),
            self@.dom().finite(),
            r == self.names().len(),
            self.names().no_duplicates(),
            self.names().to_set() == self@.dom(),
    {
        proof {
            use_type_invariant(self);
            self.lemma_names();
        }
        self.slots.len()
    }

    /// The value of a name.
    pub fn get(&self, name: &str) -> (r: Option<&V>)
        ensures
            match r {
                Some(v) => self@.contains_key(name@) && v@ == self@[name@],
                None => !self@.contains_key(name@),
            },
    {
        proof {
            use_type_invariant(self);
        }
        match self.index.get(name) {
            Some(i) => Some(&self.slots[*i].value),
            None => None,
        }
    }

    /// The slot of a name.
    pub fn find(&self, name: &str) -> (r: Option<usize>)
        ensures
            match r {
                Some(i) => i < self.names().len() && self.names()[i as int] == name@
                    && self@.contains_key(name@),
                None => !self@.contains_key(name@),
            },
    {
        proof {
            use_type_invariant(self);
        }
        match self.index.get(name) {
            Some(i) => {
                assert(self.names()[*i as int] == name@);
                Some(*i)
            },
            None => None,
        }
    }

    /// A name and its value.
    pub fn at(&self, i: usize) -> (r: (&str, &V))
        requires
            i < self.names().len(),
        ensures
            r.0@ == self.names()[i as int],
            self@.contains_key(r.0@),
            r.1@ == self@[r.0@],
    {
        proof {
            use_type_invariant(self);
        }
        let slot: &Slot<V> = &self.slots[i];
        (slot.name.as_str(), &slot.value)
    }

    /// Gives a name a value.
    pub fn set(&mut self, name: &str, value: V)
        ensures
            final(self)@ == old(self)@.insert(name@, value@),
            final(self).names() == (if old(self)@.contains_key(name@) {
                old(self).names()
            } else {
                old(self).names().push(name@)
            }),
    {
        proof {
            use_type_invariant(&*self);
        }
        let mut taken: Table<V> = Table::new();
        std::mem::swap(self, &mut taken);
        let Table { mut index, mut slots } = taken;
        let ghost before = old(self)@;
        let ghost named = names_in(slots@);
        let found: Option<usize> = match index.get(name) {
            Some(i) => Some(*i),
            None => None,
        };
        match found {
            Some(i) => {
                let ghost was = slots@;
                slots[i].value = value;
                assert forall|k: int| 0 <= k < slots@.len() implies (#[trigger] slots@[k]).name
                    == was[k].name by {}
                assert(names_in(slots@) =~= named);
            },
            None => {
                let ghost was = slots@;
                let at: usize = slots.len();
                slots.push(Slot { name: name.to_owned(), value });
                index.insert(name.to_owned(), at);
                assert forall|k: int| 0 <= k < was.len() implies (#[trigger] slots@[k]) == was[k] by {}
                assert(names_in(slots@) =~= named.push(name@));
            },
        }
        *self = Table { index, slots };
        assert(self@ =~= before.insert(name@, value@));
    }

    /// Puts another name, with its value, in the place of one.
    pub fn replace(&mut self, i: usize, name: &str, value: V)
        requires
            i < old(self).names().len(),
            !old(self)@.contains_key(name@),
        ensures
            final(self)@ == old(self)@.remove(old(self).names()[i as int]).insert(name@, value@),
            final(self).names() == old(self).names().update(i as int, name@),
    {
        proof {
            use_type_invariant(&*self);
        }
        let mut taken: Table<V> = Table::new();
        std::mem::swap(self, &mut taken);
        let Table { mut index, mut slots } = taken;
        let ghost before = old(self)@;
        let ghost was = slots@;
        let ghost gone = was[i as int].name@;
        index.remove(slots[i].name.as_str());
        slots[i] = Slot { name: name.to_owned(), value };
        index.insert(name.to_owned(), i);
        assert forall|k: int| 0 <= k < slots@.len() && k != i implies (#[trigger] slots@[k])
            == was[k] && was[k].name@ != gone by {}
        assert(names_in(slots@) =~= names_in(was).update(i as int, name@));
        *self = Table { index, slots };
        assert(self@ =~= before.remove(gone).insert(name@, value@));
    }
}

} // verus!
