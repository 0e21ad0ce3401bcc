//! A map keyed by repository that remembers the order in which its keys were
//! first inserted.

use vstd::prelude::*;
use crate::model::coordinate::{Coordinate, CoordinateView};
use crate::model::dependency::Revision;

verus! {

/// In a sequence without duplicates an element is found where it stands.
pub proof fn lemma_index_of_unique<A>(s: Seq<A>, i: int)
    requires
        s.no_duplicates(),
        0 <= i < s.len(),
    ensures
        s.contains(s[i]),
        s.index_of(s[i]) == i,
{
    s.index_of_first_ensures(s[i]);
}

/// Taking one element out of a sequence without duplicates leaves the others,
/// and none of them twice.
pub proof fn lemma_remove_unique<A>(s: Seq<A>, i: int)
    requires
        s.no_duplicates(),
        0 <= i < s.len(),
    ensures
        s.remove(i).no_duplicates(),
        forall|x: A| s.remove(i).contains(x) <==> s.contains(x) && x != s[i],
{
    let r = s.remove(i);
    assert forall|x: A| r.contains(x) <==> s.contains(x) && x != s[i] by {
        if r.contains(x) {
            let j = choose|j: int| 0 <= j < r.len() && r[j] == x;
            if j < i {
                assert(s[j] == x);
            } else {
                assert(s[j + 1] == x);
            }
        }
        if s.contains(x) && x != s[i] {
            let j = choose|j: int| 0 <= j < s.len() && s[j] == x;
            if j < i {
                assert(r[j] == x);
            } else {
                assert(r[j - 1] == x);
            }
        }
    }
}

/// A map from coordinates to values that is walked in the order of first
/// insertion. No coordinate is held twice.
pub struct CoordinateMap<V> {
    entries: Vec<(Coordinate, V)>,
}

impl<V> CoordinateMap<V> {
    /// The keys with their values, in the order of first insertion.
    pub closed spec fn entries(&self) -> Seq<(CoordinateView, V)> {
        self.entries@.map_values(|e: (Coordinate, V)| (e.0@, e.1))
    }

    /// The keys, in the order of first insertion.
    pub open spec fn keys(&self) -> Seq<CoordinateView> {
        self.entries().map_values(|e: (CoordinateView, V)| e.0)
    }

    /// The values, each at the index of its key.
    pub open spec fn values(&self) -> Seq<V> {
        self.entries().map_values(|e: (CoordinateView, V)| e.1)
    }

    /// No key occurs twice.
    pub open spec fn wf(&self) -> bool {
        self.keys().no_duplicates()
    }

    /// The value that `key` maps to, where the map holds `key`.
    pub open spec fn value_of(&self, key: CoordinateView) -> V
        recommends
            self.keys().contains(key),
    {
        self.values()[self.keys().index_of(key)]
    }

    pub fn new() -> (r: CoordinateMap<V>)
        ensures
            r.wf(),
            r.entries() == Seq::<(CoordinateView, V)>::empty(),
    {
        let r = CoordinateMap { entries: Vec::new() };
        assert(r.entries() =~= Seq::<(CoordinateView, V)>::empty());
        r
    }

    pub fn len(&self) -> (n: usize)
        ensures
            n == self.entries().len(),
    {
        self.entries.len()
    }

    /// The index of `key`, if the map holds it.
    pub fn position(&self, key: &Coordinate) -> (r: Option<usize>)
        ensures
            match r {
                Some(i) => {
                    &&& i < self.keys().len()
                    &&& self.keys()[i as int] == key@
                    &&& forall|j: int| 0 <= j < i ==> self.keys()[j] != key@
                },
                None => !self.keys().contains(key@),
            },
    {
        let mut i: usize = 0;
        while i < self.entries.len()
            invariant
                i <= self.entries.len(),
                forall|j: int| 0 <= j < i ==> self.keys()[j] != key@,
            decreases self.entries.len() - i,
        {
            if self.entries[i].0 == *key {
                return Some(i);
            }
            i += 1;
        }
        None
    }

    pub fn key(&self, i: usize) -> (r: &Coordinate)
        requires
            i < self.entries().len(),
        ensures
            r@ == self.keys()[i as int],
    {
        &self.entries[i].0
    }

    pub fn value(&self, i: usize) -> (r: &V)
        requires
            i < self.entries().len(),
        ensures
            *r == self.values()[i as int],
    {
        &self.entries[i].1
    }

    /// Adds `key` with `value` behind the keys already held, unless the map
    /// holds `key`: then the map stays as it is and the value comes back.
    pub fn insert_absent(&mut self, key: Coordinate, value: V) -> (r: Option<V>)
        requires
            old(self).wf(),
        ensures
            final(self).wf(),
            old(self).keys().contains(key@) ==> r == Some(value) && *final(self) == *old(self),
            !old(self).keys().contains(key@) ==> r.is_none() && final(self).entries() == old(
                self,
            ).entries().push((key@, value)),
    {
        match self.position(&key) {
            Some(_) => Some(value),
            None => {
                self.entries.push((key, value));
                assert(self.entries() =~= old(self).entries().push((key@, value)));
                assert(self.keys() =~= old(self).keys().push(key@));
                None
            },
        }
    }

    /// Takes `key` and its value out, keeping the order of the others.
    pub fn remove(&mut self, key: &Coordinate) -> (r: Option<V>)
        requires
            old(self).wf(),
        ensures
            final(self).wf(),
            match r {
                Some(value) => {
                    &&& old(self).keys().contains(key@)
                    &&& value == old(self).value_of(key@)
                    &&& final(self).entries() == old(self).entries().remove(
                        old(self).keys().index_of(key@),
                    )
                    &&& forall|k: CoordinateView|
                        final(self).keys().contains(k) <==> old(self).keys().contains(k) && k
                            != key@
                    &&& forall|k: CoordinateView|
                        final(self).keys().contains(k) ==> final(self).value_of(k) == old(
                            self,
                        ).value_of(k)
                },
                None => !old(self).keys().contains(key@) && *final(self) == *old(self),
            },
    {
        match self.position(key) {
            Some(i) => {
                let ghost before = old(self).keys();
                proof {
                    lemma_index_of_unique(before, i as int);
                    lemma_remove_unique(before, i as int);
                }
                let entry = self.entries.remove(i);
                assert(self.entries() =~= old(self).entries().remove(i as int));
                assert(self.keys() =~= before.remove(i as int));
                assert forall|k: CoordinateView| self.keys().contains(k) implies self.value_of(k)
                    == old(self).value_of(k) by {
                    let j = self.keys().index_of(k);
                    self.keys().index_of_first_ensures(k);
                    if j < i {
                        assert(before[j] == k);
                        lemma_index_of_unique(before, j);
                    } else {
                        assert(before[j + 1] == k);
                        lemma_index_of_unique(before, j + 1);
                    }
                }
                Some(entry.1)
            },
            None => None,
        }
    }
}

impl CoordinateMap<Vec<Revision>> {
    /// Notes one more request for `key`: behind the requests already noted
    /// for it, or as the first of a key that is new to the map.
    pub fn record(&mut self, key: &Coordinate, revision: Revision)
        requires
            old(self).wf(),
        ensures
            final(self).wf(),
            old(self).keys().contains(key@) ==> {
                let i = old(self).keys().index_of(key@);
                &&& final(self).keys() == old(self).keys()
                &&& final(self).values()[i]@ == old(self).values()[i]@.push(revision)
                &&& forall|j: int|
                    0 <= j < old(self).entries().len() && j != i ==> final(self).values()[j] == old(
                        self,
                    ).values()[j]
            },
            !old(self).keys().contains(key@) ==> {
                &&& final(self).keys() == old(self).keys().push(key@)
                &&& final(self).values().last()@ == seq![revision]
                &&& forall|j: int|
                    0 <= j < old(self).entries().len() ==> final(self).values()[j] == old(
                        self,
                    ).values()[j]
            },
    {
        match self.position(key) {
            Some(i) => {
                proof {
                    lemma_index_of_unique(old(self).keys(), i as int);
                }
                self.entries[i].1.push(revision);
                assert(self.keys() =~= old(self).keys());
            },
            None => {
                let mut revisions: Vec<Revision> = Vec::new();
                revisions.push(revision);
                self.entries.push((key.clone(), revisions));
                assert(self.keys() =~= old(self).keys().push(key@));
            },
        }
    }
}

} // verus!
