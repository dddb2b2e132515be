//! A set of references to values, told apart by their locations.

use std::collections::HashSet;
use vstd::prelude::*;
use crate::location::{
    Location, Locatable, triple, locations, by_location, lemma_by_location_key,
    lemma_by_location_push, lemma_by_location_remove, lemma_by_location_domain,
    lemma_by_location_take,
};

verus! {

/// References to values of which no two have the same location. The set
/// does not own the values: the references must outlive it.
///
/// The references are kept in a vector. Beside it stands a hash set of
/// their locations, each packed into one number, by which an insertion
/// finds out in constant time whether a location is new.
#[derive(Debug)]
pub struct PointSet<'point, L: Locatable> {
    items: Vec<&'point L>,
    index: HashSet<u128>,
}

/// A location as one number: the three patterns side by side.
pub open spec fn packed(loc: Location) -> u128 {
    (loc.0 + loc.1 * 0x1_0000_0000 + loc.2 * 0x1_0000_0000_0000_0000) as u128
}

/// Different locations are different numbers.
pub proof fn lemma_packed_injective(a: Location, b: Location)
    requires
        packed(a) == packed(b),
    ensures
        a == b,
{
}

/// The location of an array as one number.
pub fn pack(a: &[u32; 3]) -> (r: u128)
    ensures
        r == packed(triple(*a)),
{
    a[0] as u128 + a[1] as u128 * 0x1_0000_0000 + a[2] as u128 * 0x1_0000_0000_0000_0000
}

/// The numbers of the locations at which `m` has values.
pub open spec fn packed_keys<L>(m: Map<Location, L>) -> Set<u128> {
    Set::new(|k: u128| exists|loc: Location| m.contains_key(loc) && #[trigger] packed(loc) == k)
}

/// Whether two arrays hold the same location.
pub fn same_location(a: &[u32; 3], b: &[u32; 3]) -> (r: bool)
    ensures
        r == (triple(*a) == triple(*b)),
{
    a[0] == b[0] && a[1] == b[1] && a[2] == b[2]
}

impl<'point, L: Locatable> View for PointSet<'point, L> {
    type V = Map<Location, L>;

    /// The values in the set, each at its location.
    closed spec fn view(&self) -> Map<Location, L> {
        by_location(self.items@)
    }
}

impl<'point, L: Locatable> PointSet<'point, L> {
    /// The references in the set, in the order in which they are kept.
    pub closed spec fn elements(&self) -> Seq<&'point L> {
        self.items@
    }

    /// No two references lead to values with the same location, and the
    /// hash set holds the locations of the values, no more and no less.
    pub closed spec fn wf(&self) -> bool {
        &&& locations(self.items@).no_duplicates()
        &&& self.index@ == packed_keys(self@)
    }

    /// The set holds its elements by their locations, each location once,
    /// and every value in it is found at its own location.
    pub proof fn lemma_elements(&self)
        ensures
            self@ == by_location(self.elements()),
            self@.dom().finite(),
            self.wf() ==> locations(self.elements()).no_duplicates(),
            self.wf() ==> self@.len() == self.elements().len(),
            forall|loc: Location| #[trigger]
                self@.contains_key(loc) ==> triple(self@[loc].location()) == loc,
    {
        lemma_by_location_domain(self.items@);
        assert forall|loc: Location| #[trigger] self@.contains_key(loc) implies triple(
            self@[loc].location(),
        ) == loc by {
            lemma_by_location_key(self.items@, loc);
        }
    }

    /// The empty set.
    pub fn new() -> (r: Self)
        ensures
            r.wf(),
            r@ == Map::<Location, L>::empty(),
    {
        let r = PointSet { items: Vec::new(), index: HashSet::new() };
        proof {
            lemma_by_location_domain(r.items@);
            assert(r.items@ =~= Seq::<&L>::empty());
            assert(r.index@ =~= packed_keys(r@));
        }
        r
    }

    /// The number of values in the set.
    pub fn len(&self) -> (r: usize)
        requires
            self.wf(),
        ensures
            r == self@.len(),
    {
        proof {
            self.lemma_elements();
        }
        self.items.len()
    }

    /// The index at which a value with the location of `point` is kept.
    fn position(&self, point: &L) -> (r: Option<usize>)
        ensures
            match r {
                Some(i) => i < self.items@.len() && triple(self.items@[i as int].location())
                    == triple(point.location()),
                None => !self@.contains_key(triple(point.location())),
            },
    {
        let target = point.get_location();
        let ghost locs = locations(self.items@);
        let mut i: usize = 0;
        while i < self.items.len()
            invariant
                i <= self.items@.len(),
                target == point.location(),
                locs == locations(self.items@),
                forall|j: int| 0 <= j < i ==> locs[j] != triple(target),
            decreases self.items@.len() - i,
        {
            if same_location(&self.items[i].get_location(), &target) {
                return Some(i);
            }
            assert(locs[i as int] == triple(self.items@[i as int].location()));
            i = i + 1;
        }
        None
    }

    /// Whether a value with the location of `point` is in the set, found
    /// by going through the values.
    fn has(&self, point: &L) -> (r: bool)
        ensures
            r == self@.contains_key(triple(point.location())),
    {
        match self.position(point) {
            Some(i) => {
                assert(locations(self.items@)[i as int] == triple(point.location()));
                true
            },
            None => false,
        }
    }

    /// Whether a value with the location of `point` is in the set.
    pub fn contains(&self, point: &L) -> (r: bool)
        requires
            self.wf(),
        ensures
            r == self@.contains_key(triple(point.location())),
    {
        let key = pack(&point.get_location());
        let r = self.index.contains(&key);
        proof {
            let loc = triple(point.location());
            if r {
                let other = choose|other: Location|
                    self@.contains_key(other) && #[trigger] packed(other) == key;
                lemma_packed_injective(other, loc);
            } else {
                assert(self@.contains_key(loc) ==> packed(loc) == key);
            }
        }
        r
    }

    /// Adds `point` unless a value with its location is in the set already;
    /// says whether it was added.
    pub fn insert(&mut self, point: &'point L) -> (r: bool)
        requires
            old(self).wf(),
        ensures
            final(self).wf(),
            r == !old(self)@.contains_key(triple(point.location())),
            r ==> final(self)@ == old(self)@.insert(triple(point.location()), *point),
            !r ==> final(self)@ == old(self)@,
            r ==> final(self).elements() == old(self).elements().push(point),
            !r ==> final(self).elements() == old(self).elements(),
    {
        let key = pack(&point.get_location());
        let ghost loc = triple(point.location());
        let ghost before = self@;
        if self.index.insert(key) {
            proof {
                assert(before.contains_key(loc) ==> packed(loc) == key);
                lemma_by_location_push(self.items@, point);
            }
            self.items.push(point);
            proof {
                let want = packed_keys(self@);
                assert forall|k: u128| self.index@.contains(k) <==> want.contains(k) by {
                    if self.index@.contains(k) && k != key {
                        let other = choose|other: Location|
                            before.contains_key(other) && #[trigger] packed(other) == k;
                        assert(self@.contains_key(other));
                    }
                    if k == key {
                        assert(self@.contains_key(loc) && packed(loc) == k);
                    }
                    if want.contains(k) {
                        let other = choose|other: Location|
                            self@.contains_key(other) && #[trigger] packed(other) == k;
                        if other != loc {
                            assert(before.contains_key(other));
                        }
                    }
                }
                assert(self.index@ =~= want);
            }
            true
        } else {
            proof {
                let other = choose|other: Location|
                    before.contains_key(other) && #[trigger] packed(other) == key;
                lemma_packed_injective(other, loc);
                assert(self.index@ =~= packed_keys(self@));
            }
            false
        }
    }

    /// Takes out the value with the location of `point`, if there is one;
    /// says whether there was.
    pub fn remove(&mut self, point: &L) -> (r: bool)
        requires
            old(self).wf(),
        ensures
            final(self).wf(),
            final(self)@ == old(self)@.remove(triple(point.location())),
            r == old(self)@.contains_key(triple(point.location())),
    {
        let ghost loc = triple(point.location());
        let ghost before = self@;
        match self.position(point) {
            Some(i) => {
                proof {
                    assert(locations(self.items@)[i as int] == loc);
                    lemma_by_location_remove(self.items@, i as int);
                }
                let key = pack(&point.get_location());
                let _ = self.items.remove(i);
                let _ = self.index.remove(&key);
                proof {
                    let want = packed_keys(self@);
                    assert forall|k: u128| self.index@.contains(k) <==> want.contains(k) by {
                        if self.index@.contains(k) {
                            let other = choose|other: Location|
                                before.contains_key(other) && #[trigger] packed(other) == k;
                            assert(self@.contains_key(other));
                        }
                        if want.contains(k) {
                            let other = choose|other: Location|
                                self@.contains_key(other) && #[trigger] packed(other) == k;
                            assert(before.contains_key(other));
                            if k == key {
                                lemma_packed_injective(other, loc);
                            }
                        }
                    }
                    assert(self.index@ =~= want);
                }
                true
            },
            None => {
                assert(self@.remove(loc) =~= self@);
                false
            },
        }
    }

    /// Adds every value of `other` whose location is not in the set yet.
    pub fn extend(&mut self, other: &PointSet<'point, L>)
        requires
            old(self).wf(),
            other.wf(),
        ensures
            final(self).wf(),
            final(self)@ == other@.union_prefer_right(old(self)@),
    {
        let mut k: usize = 0;
        proof {
            if other.items@.len() > 0 {
                lemma_by_location_take(other.items@, 0);
            } else {
                lemma_by_location_domain(other.items@);
                assert(other.items@.take(0) =~= other.items@);
            }
            assert(self@ =~= by_location(other.items@.take(0)).union_prefer_right(old(self)@));
        }
        while k < other.items.len()
            invariant
                k <= other.items@.len(),
                self.wf(),
                other.wf(),
                self@ == by_location(other.items@.take(k as int)).union_prefer_right(old(self)@),
            decreases other.items@.len() - k,
        {
            proof {
                lemma_by_location_take(other.items@, k as int);
            }
            self.insert(other.items[k]);
            proof {
                assert(self@ =~= by_location(other.items@.take(k + 1)).union_prefer_right(
                    old(self)@,
                ));
            }
            k = k + 1;
        }
        proof {
            assert(other.items@.take(k as int) =~= other.items@);
        }
    }

    /// Whether every location in the set is in `other` too.
    pub fn is_subset(&self, other: &PointSet<'point, L>) -> (r: bool)
        ensures
            r == self@.dom().subset_of(other@.dom()),
    {
        let ghost locs = locations(self.items@);
        let mut k: usize = 0;
        while k < self.items.len()
            invariant
                k <= self.items@.len(),
                locs == locations(self.items@),
                forall|j: int| 0 <= j < k ==> other@.contains_key(#[trigger] locs[j]),
            decreases self.items@.len() - k,
        {
            assert(locs[k as int] == triple(self.items@[k as int].location()));
            if !other.has(self.items[k]) {
                return false;
            }
            k = k + 1;
        }
        true
    }

    /// Whether the two sets hold the same locations.
    pub fn same_as(&self, other: &PointSet<'point, L>) -> (r: bool)
        ensures
            r == (self@.dom() == other@.dom()),
    {
        let r = self.is_subset(other) && other.is_subset(self);
        assert(r == (self@.dom() =~= other@.dom()));
        r
    }

    /// The references in the set.
    pub fn as_vec(&self) -> (r: &Vec<&'point L>)
        ensures
            r@ == self.elements(),
    {
        &self.items
    }
}

} // verus!
