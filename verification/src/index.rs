//! A set of names in which every name has a slot number, kept in a hash map.

use vstd::prelude::*;
use ahash::AHashMap;
use crate::table::swap_removed;

verus! {

/// The hash map of the `ahash` crate, as an opaque type.
#[verifier::external_type_specification]
#[verifier::external_body]
#[verifier::reject_recursive_types(K)]
#[verifier::reject_recursive_types(V)]
#[verifier::reject_recursive_types(S)]
pub struct ExAHashMap<K, V, S>(ahash::AHashMap<K, V, S>);

/// The hasher factory of the `ahash` crate, as an opaque type.
#[verifier::external_type_specification]
#[verifier::external_body]
pub struct ExRandomState(ahash::RandomState);

/// The slot number that a hash map holds for each name.
pub uninterp spec fn slots_of(m: AHashMap<String, usize>) -> Map<Seq<char>, usize>;

/// `AHashMap::new`: a map that holds no name.
#[verifier::external_body]
fn slots_new() -> (m: AHashMap<String, usize>)
    ensures
        (slots_of(m) == Map::<Seq<char>, usize>::empty()),
{
    AHashMap::new()
}

/// `AHashMap::get`: the slot held for `name`, if the map holds one; names are compared
/// by their characters.
#[verifier::external_body]
fn slots_get(m: &AHashMap<String, usize>, name: &str) -> (r: Option<usize>)
    ensures
        r == (if slots_of(*m).contains_key(name@) {
            Some(slots_of(*m)[name@])
        } else {
            None
        }),
{
    m.get(name).copied()
}

/// `AHashMap::insert`: afterwards the map holds `slot` for `name`, and for every other
/// name what it held before.
#[verifier::external_body]
fn slots_insert(m: &mut AHashMap<String, usize>, name: String, slot: usize)
    ensures
        slots_of(*final(m)) == slots_of(*old(m)).insert(name@, slot),
{
    m.insert(name, slot);
}

/// `AHashMap::remove`: afterwards the map holds nothing for `name`, and for every other
/// name what it held before.
#[verifier::external_body]
fn slots_remove(m: &mut AHashMap<String, usize>, name: &str)
    ensures
        slots_of(*final(m)) == slots_of(*old(m)).remove(name@),
{
    m.remove(name);
}

/// `AHashMap::clone`: a map that holds the same slot for every name.
#[verifier::external_body]
fn slots_clone(m: &AHashMap<String, usize>) -> (r: AHashMap<String, usize>)
    ensures
        slots_of(r) == slots_of(*m),
{
    m.clone()
}

/// Names in a row, each found again by hashing.
///
/// The row gives every name a slot: its position. The hash map holds, for each name,
/// that position, so that a name is found without walking the row.
#[derive(Debug)]
pub struct NameIndex {
    names: Vec<String>,
    slots: AHashMap<String, usize>,
}

impl NameIndex {
    /// The hash map and the row agree: the map holds exactly the names of the row, each
    /// with its position.
    pub closed spec fn wf(&self) -> bool {
        &&& forall|i: int|
            0 <= i < self.names.len() ==> slots_of(self.slots).contains_key(
                #[trigger] self.names[i]@,
            ) && slots_of(self.slots)[self.names[i]@] == i
        &&& forall|k: Seq<char>| #[trigger]
            slots_of(self.slots).contains_key(k) ==> slots_of(self.slots)[k] < self.names.len()
                && self.names[slots_of(self.slots)[k] as int]@ == k
    }

    /// The names, in the order of their slots.
    pub closed spec fn order(&self) -> Seq<Seq<char>> {
        self.names@.map_values(|s: String| s@)
    }

    /// In a well-formed index no name stands in two slots.
    pub proof fn lemma_distinct(&self)
        requires
            self.wf(),
        ensures
            self.order().no_duplicates(),
    {
        assert forall|i: int, j: int|
            0 <= i < self.order().len() && 0 <= j < self.order().len() && i != j
            implies self.order()[i] != self.order()[j] by {
            assert(slots_of(self.slots)[self.names[i]@] == i);
            assert(slots_of(self.slots)[self.names[j]@] == j);
        }
    }

    /// An index without names.
    pub fn new() -> (t: Self)
        ensures
            t.wf(),
            t.order() == Seq::<Seq<char>>::empty(),
    {
        let t = NameIndex { names: Vec::new(), slots: slots_new() };
        assert(t.order() =~= Seq::<Seq<char>>::empty());
        t
    }

    /// The number of names.
    pub fn len(&self) -> (n: usize)
        ensures
            n == self.order().len(),
    {
        self.names.len()
    }

    /// The slot of `name`, if the index holds it.
    pub fn find(&self, name: &str) -> (r: Option<usize>)
        ensures
            self.wf() ==> (r matches Some(i) ==> i < self.order().len() && self.order()[i as int]
                == name@),
            self.wf() ==> (r is None ==> !self.order().contains(name@)),
    {
        let r = slots_get(&self.slots, name);
        proof {
            if self.wf() && r is None && self.order().contains(name@) {
                let i = choose|i: int| 0 <= i < self.order().len() && self.order()[i] == name@;
                assert(slots_of(self.slots).contains_key(self.names[i]@));
            }
        }
        r
    }

    /// The name in slot `i`.
    pub fn name_at(&self, i: usize) -> (name: &String)
        requires
            i < self.order().len(),
        ensures
            name@ == self.order()[i as int],
    {
        &self.names[i]
    }

    /// The names, in the order of their slots.
    pub fn names(&self) -> (names: Vec<String>)
        ensures
            names@.map_values(|s: String| s@) == self.order(),
    {
        let mut names: Vec<String> = Vec::new();
        let mut i: usize = 0;
        while i < self.names.len()
            invariant
                i <= self.names.len(),
                names.len() == i,
                forall|j: int| 0 <= j < i ==> names[j]@ == self.names[j]@,
            decreases self.names.len() - i,
        {
            names.push(self.names[i].clone());
            i += 1;
        }
        assert(names@.map_values(|s: String| s@) =~= self.order());
        names
    }

    /// Gives `name` the next free slot.
    pub fn push(&mut self, name: String)
        requires
            old(self).wf(),
            !old(self).order().contains(name@),
        ensures
            final(self).wf(),
            final(self).order() == old(self).order().push(name@),
    {
        let n = self.names.len();
        let key = name.clone();
        proof {
            if slots_of(self.slots).contains_key(name@) {
                assert(self.order()[slots_of(self.slots)[name@] as int] == name@);
            }
        }
        self.names.push(name);
        slots_insert(&mut self.slots, key, n);
        assert(self.order() =~= old(self).order().push(name@));
        assert forall|i: int| 0 <= i < self.names.len() implies slots_of(self.slots).contains_key(
            #[trigger] self.names[i]@,
        ) && slots_of(self.slots)[self.names[i]@] == i by {
            if i < n {
                assert(self.names[i] == old(self).names[i]);
                assert(old(self).order()[i] == self.names[i]@);
            }
        }
    }

    /// Takes the name out of slot `i`. The name of the last slot moves into slot `i`.
    pub fn swap_remove(&mut self, i: usize) -> (name: String)
        requires
            old(self).wf(),
            i < old(self).order().len(),
        ensures
            final(self).wf(),
            name@ == old(self).order()[i as int],
            final(self).order() == swap_removed(old(self).order(), i as int),
    {
        proof {
            self.lemma_distinct();
        }
        let name = self.names.swap_remove(i);
        slots_remove(&mut self.slots, name.as_str());
        if i < self.names.len() {
            let moved = self.names[i].clone();
            slots_insert(&mut self.slots, moved, i);
        }
        assert(self.order() =~= swap_removed(old(self).order(), i as int));
        proof {
            let last = old(self).order().len() - 1;
            assert forall|j: int| 0 <= j < self.names.len() implies slots_of(
                self.slots,
            ).contains_key(#[trigger] self.names[j]@) && slots_of(self.slots)[self.names[j]@]
                == j by {
                if j == i {
                    assert(self.names[j]@ == old(self).order()[last]);
                } else {
                    assert(self.names[j]@ == old(self).order()[j]);
                    assert(old(self).names[j]@ == old(self).order()[j]);
                }
            }
            assert forall|k: Seq<char>| #[trigger]
                slots_of(self.slots).contains_key(k) implies slots_of(self.slots)[k]
                < self.names.len() && self.names[slots_of(self.slots)[k] as int]@ == k by {
                if i < self.names.len() && k == self.names[i as int]@ {
                } else {
                    assert(slots_of(old(self).slots).contains_key(k));
                    let s = slots_of(old(self).slots)[k] as int;
                    assert(old(self).order()[s] == k);
                    assert(s != i);
                    assert(s != last);
                }
            }
        }
        name
    }
}

impl Clone for NameIndex {
    /// An index that holds the same names in the same slots.
    fn clone(&self) -> (r: Self)
        ensures
            r.order() == self.order(),
            self.wf() ==> r.wf(),
    {
        let mut names: Vec<String> = Vec::new();
        let mut i: usize = 0;
        while i < self.names.len()
            invariant
                i <= self.names.len(),
                names.len() == i,
                forall|j: int| 0 <= j < i ==> names[j]@ == self.names[j]@,
            decreases self.names.len() - i,
        {
            names.push(self.names[i].clone());
            i += 1;
        }
        let r = NameIndex { names, slots: slots_clone(&self.slots) };
        assert(r.order() =~= self.order());
        r
    }
}

} // verus!
