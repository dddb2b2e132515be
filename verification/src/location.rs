//! Locations, and what a value must offer to be stored in the tree.

use vstd::prelude::*;

verus! {

/// Three coordinates, each the pattern of a binary32 number. Two locations
/// are the same when their patterns are: the two zeros differ, and a NaN
/// equals itself.
pub type Location = (u32, u32, u32);

/// The coordinates of an array as a [`Location`].
pub open spec fn triple(p: [u32; 3]) -> Location {
    (p[0], p[1], p[2])
}

/// A value that has a place in space. The tree holds references to such
/// values and tells them apart by their locations alone.
///
/// Contracts speak of `location`, code calls `get_location`, and the two
/// agree. A type outside verified code implements both as ordinary
/// functions that return the same.
pub trait Locatable {
    /// The place of the value; it never changes.
    spec fn location(&self) -> [u32; 3];

    /// Reports the place of the value.
    fn get_location(&self) -> (r: [u32; 3])
        ensures
            r == self.location(),
    ;
}

/// The locations of a sequence of values, in order.
pub open spec fn locations<L: Locatable>(points: Seq<&L>) -> Seq<Location> {
    Seq::new(points.len(), |i: int| triple(points[i].location()))
}

/// An index at which `points` has a value with location `loc`.
pub open spec fn index_at<L: Locatable>(points: Seq<&L>, loc: Location) -> int {
    choose|i: int| 0 <= i < points.len() && triple(#[trigger] points[i].location()) == loc
}

/// The values of a sequence by their locations.
pub open spec fn by_location<L: Locatable>(points: Seq<&L>) -> Map<Location, L> {
    Map::new(
        |loc: Location| locations(points).contains(loc),
        |loc: Location| *points[index_at(points, loc)],
    )
}

/// In a sequence without two values at one location, the value at index
/// `i` is the one found at its location.
pub proof fn lemma_by_location_index<L: Locatable>(points: Seq<&L>, i: int)
    requires
        locations(points).no_duplicates(),
        0 <= i < points.len(),
    ensures
        by_location(points).contains_key(triple(points[i].location())),
        by_location(points)[triple(points[i].location())] == *points[i],
        index_at(points, triple(points[i].location())) == i,
{
    let locs = locations(points);
    let loc = triple(points[i].location());
    assert(locs[i] == loc);
    let j = index_at(points, loc);
    assert(locs[j] == loc);
}

/// What is found at a location of the sequence has that location.
pub proof fn lemma_by_location_key<L: Locatable>(points: Seq<&L>, loc: Location)
    requires
        by_location(points).contains_key(loc),
    ensures
        triple(by_location(points)[loc].location()) == loc,
        0 <= index_at(points, loc) < points.len(),
        by_location(points)[loc] == *points[index_at(points, loc)],
{
    let locs = locations(points);
    let i = choose|i: int| 0 <= i < locs.len() && locs[i] == loc;
    assert(triple(points[i].location()) == loc);
}

/// A value at a new location, appended, is found at its location, and
/// nothing else changes.
pub proof fn lemma_by_location_push<L: Locatable>(points: Seq<&L>, x: &L)
    requires
        locations(points).no_duplicates(),
        !by_location(points).contains_key(triple(x.location())),
    ensures
        locations(points.push(x)).no_duplicates(),
        by_location(points.push(x)) == by_location(points).insert(triple(x.location()), *x),
{
    let loc = triple(x.location());
    let more = points.push(x);
    let before = locations(points);
    let after = locations(more);
    assert(after =~= before.push(loc));
    assert forall|i: int, j: int|
        0 <= i < after.len() && 0 <= j < after.len() && i != j implies after[i] != after[j] by {
        if i < before.len() {
            assert(before[i] == after[i]);
        }
        if j < before.len() {
            assert(before[j] == after[j]);
        }
    }
    let want = by_location(points).insert(loc, *x);
    assert forall|a: Location| by_location(more).contains_key(a) <==> want.contains_key(a) by {
        if after.contains(a) {
            let j = choose|j: int| 0 <= j < after.len() && after[j] == a;
            if j < before.len() {
                assert(before[j] == a);
            }
        }
        if before.contains(a) {
            let j = choose|j: int| 0 <= j < before.len() && before[j] == a;
            assert(after[j] == a);
        }
        if a == loc {
            assert(after[before.len() as int] == a);
        }
    }
    assert forall|a: Location| by_location(more).contains_key(a) implies by_location(more)[a]
        == want[a] by {
        lemma_by_location_key(more, a);
        let j = index_at(more, a);
        if j < points.len() {
            lemma_by_location_index(points, j);
            assert(more[j] == points[j]);
        } else {
            assert(a == loc);
        }
    }
    assert(by_location(more) =~= want);
}

/// In a sequence without two values at one location, the first `k + 1`
/// values by their locations are the first `k` and the value at index `k`,
/// at a location of its own.
pub proof fn lemma_by_location_take<L: Locatable>(points: Seq<&L>, k: int)
    requires
        locations(points).no_duplicates(),
        0 <= k < points.len(),
    ensures
        !by_location(points.take(k)).contains_key(triple(points[k].location())),
        by_location(points.take(k + 1)) == by_location(points.take(k)).insert(
            triple(points[k].location()),
            *points[k],
        ),
        by_location(points.take(0)) == Map::<Location, L>::empty(),
        by_location(points.take(points.len() as int)) == by_location(points),
{
    let shorter = points.take(k);
    let longer = points.take(k + 1);
    let loc = triple(points[k].location());
    assert(longer =~= shorter.push(points[k]));
    assert(locations(shorter) =~= locations(points).take(k));
    assert(locations(points)[k] == loc);
    if locations(shorter).contains(loc) {
        let j = choose|j: int| 0 <= j < locations(shorter).len() && locations(shorter)[j] == loc;
        assert(locations(points)[j] == loc);
    }
    lemma_by_location_push(shorter, points[k]);
    lemma_by_location_domain(points.take(0));
    assert(points.take(0) =~= Seq::<&L>::empty());
    assert(points.take(points.len() as int) =~= points);
}

/// With the value at index `i` taken out, nothing is found at its
/// location, and nothing else changes.
pub proof fn lemma_by_location_remove<L: Locatable>(points: Seq<&L>, i: int)
    requires
        locations(points).no_duplicates(),
        0 <= i < points.len(),
    ensures
        locations(points.remove(i)).no_duplicates(),
        by_location(points.remove(i)) == by_location(points).remove(triple(points[i].location())),
{
    let loc = triple(points[i].location());
    let fewer = points.remove(i);
    let before = locations(points);
    let after = locations(fewer);
    assert(after =~= before.remove(i));
    assert(before[i] == loc);
    assert forall|k: int, j: int|
        0 <= k < after.len() && 0 <= j < after.len() && k != j implies after[k] != after[j] by {
        let k0 = if k < i { k } else { k + 1 };
        let j0 = if j < i { j } else { j + 1 };
        assert(after[k] == before[k0] && after[j] == before[j0]);
    }
    let want = by_location(points).remove(loc);
    assert forall|a: Location| by_location(fewer).contains_key(a) <==> want.contains_key(a) by {
        if after.contains(a) {
            let j = choose|j: int| 0 <= j < after.len() && after[j] == a;
            let j0 = if j < i { j } else { j + 1 };
            assert(before[j0] == a);
        }
        if before.contains(a) && a != loc {
            let j = choose|j: int| 0 <= j < before.len() && before[j] == a;
            let j1 = if j < i { j } else { j - 1 };
            assert(after[j1] == a);
        }
    }
    assert forall|a: Location| by_location(fewer).contains_key(a) implies by_location(fewer)[a]
        == want[a] by {
        lemma_by_location_key(fewer, a);
        let j = index_at(fewer, a);
        let j0 = if j < i { j } else { j + 1 };
        assert(fewer[j] == points[j0]);
        lemma_by_location_index(points, j0);
    }
    assert(by_location(fewer) =~= want);
}

/// The locations at which something is found are those of the sequence,
/// each counted once.
pub proof fn lemma_by_location_domain<L: Locatable>(points: Seq<&L>)
    ensures
        by_location(points).dom() == locations(points).to_set(),
        by_location(points).dom().finite(),
        locations(points).no_duplicates() ==> by_location(points).dom().len() == points.len(),
        by_location(Seq::<&L>::empty()) == Map::<Location, L>::empty(),
{
    let locs = locations(points);
    assert(by_location(points).dom() =~= locs.to_set());
    vstd::seq_lib::seq_to_set_is_finite(locs);
    if locs.no_duplicates() {
        locs.unique_seq_to_set();
    }
    assert(by_location(Seq::<&L>::empty()) =~= Map::<Location, L>::empty());
}

} // verus!
