//! Axis-aligned boxes. A box covers the half-open region from its minimum
//! corner up to, but not including, its maximum corner.

use vstd::prelude::*;
use vstd::std_specs::cmp::PartialEqSpecImpl;
use crate::binary32::{
    MAX, MIN, is_nan, is_finite, is_infinite, is_negative, le, lt, same_number, minimum, maximum,
};
use crate::midpoint::{midpoint, spec_sum};
use crate::between::{lemma_midpoint_between, lemma_midpoint_is_number};
use crate::location::{Location, Locatable, triple, locations};

verus! {

/// An axis-aligned box, given by its minimum and its maximum corner. The
/// coordinates are patterns of binary32 numbers.
#[derive(Clone, Copy, Debug)]
pub struct BoundingBox {
    pub min: [u32; 3],
    pub max: [u32; 3],
}

impl BoundingBox {
    /// The box that covers nothing and that any location extends: its minimum
    /// is the largest finite number on every axis, its maximum the smallest.
    pub open spec fn empty() -> BoundingBox {
        BoundingBox { min: [MAX, MAX, MAX], max: [MIN, MIN, MIN] }
    }

    /// The box grown, where it must, to reach `p` on every axis.
    pub open spec fn extended(self, p: Location) -> BoundingBox {
        BoundingBox {
            min: [minimum(self.min[0], p.0), minimum(self.min[1], p.1), minimum(self.min[2], p.2)],
            max: [maximum(self.max[0], p.0), maximum(self.max[1], p.1), maximum(self.max[2], p.2)],
        }
    }

    /// The empty box extended by each location in turn.
    pub open spec fn around(locs: Seq<Location>) -> BoundingBox
        decreases locs.len(),
    {
        if locs.len() == 0 {
            Self::empty()
        } else {
            Self::around(locs.drop_last()).extended(locs.last())
        }
    }

    /// `min <= p < max` on every axis.
    pub open spec fn covers_location(self, p: Location) -> bool {
        &&& le(self.min[0], p.0) && lt(p.0, self.max[0])
        &&& le(self.min[1], p.1) && lt(p.1, self.max[1])
        &&& le(self.min[2], p.2) && lt(p.2, self.max[2])
    }

    /// The box covers the location that `point` holds.
    pub open spec fn spec_covers(&self, point: &[u32; 3]) -> bool {
        self.covers_location(triple(*point))
    }

    /// One of the eight corners of the box: corner `i` takes the maximum on
    /// the first axis if `i >= 4`, on the second if `i % 4 >= 2`, on the
    /// third if `i` is odd.
    pub open spec fn corner(self, i: int) -> Location {
        (
            if i >= 4 { self.max[0] } else { self.min[0] },
            if i % 4 >= 2 { self.max[1] } else { self.min[1] },
            if i % 2 == 1 { self.max[2] } else { self.min[2] },
        )
    }

    /// Some corner of `other` is covered by this box.
    pub open spec fn spec_overlaps(&self, other: &BoundingBox) -> bool {
        exists|i: int| 0 <= i < 8 && self.covers_location(#[trigger] other.corner(i))
    }

    /// The midpoint of the two corners on every axis.
    pub open spec fn spec_get_centre(&self) -> [u32; 3] {
        [
            midpoint(self.min[0], self.max[0]),
            midpoint(self.min[1], self.max[1]),
            midpoint(self.min[2], self.max[2]),
        ]
    }

    /// The `i`-th of the eight boxes into which the centre cuts this box.
    /// It is the upper half on the first axis if `i` is odd, on the second
    /// if `i % 4 >= 2`, on the third if `i >= 4`.
    pub open spec fn octant(self, i: int) -> BoundingBox {
        let c = self.spec_get_centre();
        let x = i % 2 == 1;
        let y = i % 4 >= 2;
        let z = i >= 4;
        BoundingBox {
            min: [
                if x { c[0] } else { self.min[0] },
                if y { c[1] } else { self.min[1] },
                if z { c[2] } else { self.min[2] },
            ],
            max: [
                if x { self.max[0] } else { c[0] },
                if y { self.max[1] } else { c[1] },
                if z { self.max[2] } else { c[2] },
            ],
        }
    }

    /// The same region: the six coordinates are equal as numbers.
    pub open spec fn same_region(self, other: BoundingBox) -> bool {
        &&& same_number(self.min[0], other.min[0])
        &&& same_number(self.min[1], other.min[1])
        &&& same_number(self.min[2], other.min[2])
        &&& same_number(self.max[0], other.max[0])
        &&& same_number(self.max[1], other.max[1])
        &&& same_number(self.max[2], other.max[2])
    }

    /// The smallest box that reaches every given point.
    pub fn new<L: Locatable>(points: Vec<&L>) -> (r: Self)
        ensures
            r == Self::around(locations(points@)),
    {
        Self::enclosing(&points)
    }

    /// The smallest box that reaches every given point.
    pub fn enclosing<L: Locatable>(points: &Vec<&L>) -> (r: Self)
        ensures
            r == Self::around(locations(points@)),
    {
        let mut min: [u32; 3] = [MAX, MAX, MAX];
        let mut max: [u32; 3] = [MIN, MIN, MIN];
        let ghost locs = locations(points@);
        let mut k: usize = 0;
        while k < points.len()
            invariant
                k <= points.len(),
                locs == locations(points@),
                (BoundingBox { min, max }) == Self::around(locs.take(k as int)),
            decreases points.len() - k,
        {
            let location = points[k].get_location();
            let ghost before = BoundingBox { min, max };
            for i in 0..3
                invariant
                    forall|j: int| 0 <= j < i ==> min[j] == minimum(before.min[j], location[j]),
                    forall|j: int| 0 <= j < i ==> max[j] == maximum(before.max[j], location[j]),
                    forall|j: int| i <= j < 3 ==> min[j] == before.min[j],
                    forall|j: int| i <= j < 3 ==> max[j] == before.max[j],
            {
                min[i] = minimum(min[i], location[i]);
                max[i] = maximum(max[i], location[i]);
            }
            proof {
                let grown = before.extended(triple(location));
                assert(min == grown.min);
                assert(max == grown.max);
                assert(locs.take(k + 1).drop_last() == locs.take(k as int));
            }
            k = k + 1;
        }
        assert(locs.take(k as int) == locs);
        BoundingBox { min, max }
    }

    /// Whether `min <= point < max` on every axis.
    #[verifier::when_used_as_spec(spec_covers)]
    pub fn covers(&self, point: &[u32; 3]) -> (r: bool)
        ensures
            r == self.spec_covers(point),
    {
        le(self.min[0], point[0]) && lt(point[0], self.max[0])
            && le(self.min[1], point[1]) && lt(point[1], self.max[1])
            && le(self.min[2], point[2]) && lt(point[2], self.max[2])
    }

    /// Whether one of the eight corners of `other` is covered by this box.
    /// A box that lies within `other` without containing one of its corners
    /// is not found to overlap it.
    #[verifier::when_used_as_spec(spec_overlaps)]
    pub fn overlaps(&self, other: &BoundingBox) -> (r: bool)
        ensures
            r == self.spec_overlaps(other),
    {
        let corners: [[u32; 3]; 8] = [
            other.min,
            [other.min[0], other.min[1], other.max[2]],
            [other.min[0], other.max[1], other.min[2]],
            [other.min[0], other.max[1], other.max[2]],
            [other.max[0], other.min[1], other.min[2]],
            [other.max[0], other.min[1], other.max[2]],
            [other.max[0], other.max[1], other.min[2]],
            other.max,
        ];
        for i in 0..8
            invariant
                forall|j: int| 0 <= j < 8 ==> triple(#[trigger] corners[j]) == other.corner(j),
                forall|j: int| 0 <= j < i ==> !self.covers_location(#[trigger] other.corner(j)),
        {
            if self.covers(&corners[i]) {
                return true;
            }
        }
        false
    }

    /// The midpoint of the two corners on every axis.
    #[verifier::when_used_as_spec(spec_get_centre)]
    pub fn get_centre(&self) -> (r: [u32; 3])
        ensures
            r == self.spec_get_centre(),
    {
        let mut ret: [u32; 3] = [0, 0, 0];
        for i in 0..3
            invariant
                forall|j: int| 0 <= j < i ==> ret[j] == midpoint(self.min[j], self.max[j]),
        {
            ret[i] = midpoint(self.min[i], self.max[i]);
        }
        assert(ret == self.spec_get_centre());
        ret
    }

    /// The minimum corner.
    pub fn get_min(&self) -> (r: &[u32; 3])
        ensures
            *r == self.min,
    {
        &self.min
    }

    /// The maximum corner.
    pub fn get_max(&self) -> (r: &[u32; 3])
        ensures
            *r == self.max,
    {
        &self.max
    }

    /// The eight octants, in the order of [`BoundingBox::octant`].
    pub fn split(&self) -> (r: [Self; 8])
        ensures
            forall|i: int| 0 <= i < 8 ==> #[trigger] r[i] == self.octant(i),
    {
        let centre = self.get_centre();
        let min = self.min;
        let max = self.max;
        let r = [
            BoundingBox { min, max: centre },
            BoundingBox { min: [centre[0], min[1], min[2]], max: [max[0], centre[1], centre[2]] },
            BoundingBox { min: [min[0], centre[1], min[2]], max: [centre[0], max[1], centre[2]] },
            BoundingBox { min: [centre[0], centre[1], min[2]], max: [max[0], max[1], centre[2]] },
            BoundingBox { min: [min[0], min[1], centre[2]], max: [centre[0], centre[1], max[2]] },
            BoundingBox { min: [centre[0], min[1], centre[2]], max: [max[0], centre[1], max[2]] },
            BoundingBox { min: [min[0], centre[1], centre[2]], max: [centre[0], max[1], max[2]] },
            BoundingBox { min: centre, max },
        ];
        proof {
            assert(r[0].min == self.octant(0).min && r[0].max == self.octant(0).max);
            assert(r[1].min == self.octant(1).min && r[1].max == self.octant(1).max);
            assert(r[2].min == self.octant(2).min && r[2].max == self.octant(2).max);
            assert(r[3].min == self.octant(3).min && r[3].max == self.octant(3).max);
            assert(r[4].min == self.octant(4).min && r[4].max == self.octant(4).max);
            assert(r[5].min == self.octant(5).min && r[5].max == self.octant(5).max);
            assert(r[6].min == self.octant(6).min && r[6].max == self.octant(6).max);
            assert(r[7].min == self.octant(7).min && r[7].max == self.octant(7).max);
        }
        r
    }
}

impl BoundingBox {
    /// The centre lies between the corners on every axis. This holds of a
    /// box with finite corners, `min <= max`, whose corners do not add up to
    /// an infinity.
    pub open spec fn centred(self) -> bool {
        let c = self.spec_get_centre();
        &&& le(self.min[0], c[0]) && le(c[0], self.max[0])
        &&& le(self.min[1], c[1]) && le(c[1], self.max[1])
        &&& le(self.min[2], c[2]) && le(c[2], self.max[2])
    }

    /// The corners are finite, `min <= max` on every axis, and no two
    /// opposite coordinates add up to an infinity.
    pub open spec fn bounded(self) -> bool {
        forall|k: int|
            0 <= k < 3 ==> is_finite(#[trigger] self.min[k]) && is_finite(self.max[k]) && le(
                self.min[k],
                self.max[k],
            ) && is_finite(spec_sum(self.min[k], self.max[k]))
    }

    /// The centre of a bounded box lies between its corners.
    pub proof fn lemma_centred(self)
        requires
            self.bounded(),
        ensures
            self.centred(),
    {
        assert(is_finite(self.min[0]) && is_finite(self.min[1]) && is_finite(self.min[2]));
        lemma_midpoint_between(self.min[0], self.max[0]);
        lemma_midpoint_between(self.min[1], self.max[1]);
        lemma_midpoint_between(self.min[2], self.max[2]);
    }

    /// No corner is a NaN, and on no axis are the corners infinities of
    /// opposite signs: the centre is a number on every axis.
    pub open spec fn sound(self) -> bool {
        forall|k: int|
            0 <= k < 3 ==> !is_nan(#[trigger] self.min[k]) && !is_nan(self.max[k]) && !(
            is_infinite(self.min[k]) && is_infinite(self.max[k]) && is_negative(self.min[k])
                != is_negative(self.max[k]))
    }

    /// The centre of a sound box is a number on every axis, and the octants
    /// of a sound box are sound.
    pub proof fn lemma_octants_sound(self, i: int)
        requires
            self.sound(),
        ensures
            !is_nan(self.spec_get_centre()[0]),
            !is_nan(self.spec_get_centre()[1]),
            !is_nan(self.spec_get_centre()[2]),
            self.octant(i).sound(),
    {
        assert(!is_nan(self.min[0]) && !is_nan(self.min[1]) && !is_nan(self.min[2]));
        lemma_midpoint_is_number(self.min[0], self.max[0]);
        lemma_midpoint_is_number(self.min[1], self.max[1]);
        lemma_midpoint_is_number(self.min[2], self.max[2]);
        let o = self.octant(i);
        assert forall|k: int| 0 <= k < 3 implies !is_nan(#[trigger] o.min[k]) && !is_nan(o.max[k])
            && !(is_infinite(o.min[k]) && is_infinite(o.max[k]) && is_negative(o.min[k])
            != is_negative(o.max[k])) by {
            assert(!is_nan(self.min[k]));
        }
    }

    /// The box around some locations is sound unless, on some axis, one of
    /// them lies at one infinity and one at the other.
    pub proof fn lemma_around_sound(locs: Seq<Location>)
        requires
            forall|k: int|
                0 <= k < locs.len() ==> !is_infinite((#[trigger] locs[k]).0) && !is_infinite(
                    locs[k].1,
                ) && !is_infinite(locs[k].2),
        ensures
            Self::around(locs).sound(),
    {
        let b = Self::around(locs);
        Self::lemma_around_finite(locs);
        assert forall|k: int| 0 <= k < 3 implies !is_nan(#[trigger] b.min[k]) && !is_nan(b.max[k])
            && !(is_infinite(b.min[k]) && is_infinite(b.max[k]) && is_negative(b.min[k])
            != is_negative(b.max[k])) by {}
    }

    /// All six coordinates are finite.
    pub open spec fn finite_corners(self) -> bool {
        &&& is_finite(self.min[0]) && is_finite(self.min[1]) && is_finite(self.min[2])
        &&& is_finite(self.max[0]) && is_finite(self.max[1]) && is_finite(self.max[2])
    }

    /// The corners of the box around locations without infinite coordinates
    /// are finite.
    pub proof fn lemma_around_finite(locs: Seq<Location>)
        requires
            forall|k: int|
                0 <= k < locs.len() ==> !is_infinite((#[trigger] locs[k]).0) && !is_infinite(
                    locs[k].1,
                ) && !is_infinite(locs[k].2),
        ensures
            Self::around(locs).finite_corners(),
        decreases locs.len(),
    {
        if locs.len() > 0 {
            Self::lemma_around_finite(locs.drop_last());
            assert(!is_infinite(locs[locs.len() - 1].0));
        }
    }

    /// The index of the octant on whose side of the centre `p` lies.
    pub open spec fn octant_index(self, p: Location) -> int {
        let c = self.spec_get_centre();
        (if le(c[0], p.0) { 1int } else { 0 }) + (if le(c[1], p.1) { 2int } else { 0 }) + (if le(
            c[2],
            p.2,
        ) { 4int } else { 0 })
    }

    /// No location is covered by two octants of a box.
    pub proof fn lemma_octants_disjoint(self, p: Location, i: int, j: int)
        requires
            0 <= i < 8,
            0 <= j < 8,
            i != j,
        ensures
            !(self.octant(i).covers_location(p) && self.octant(j).covers_location(p)),
    {
    }

    /// Where no coordinate of the centre is a NaN, every location that the
    /// box covers is covered by one of its octants: there are no gaps.
    pub proof fn lemma_octants_cover(self, p: Location)
        requires
            self.covers_location(p),
            !is_nan(self.spec_get_centre()[0]),
            !is_nan(self.spec_get_centre()[1]),
            !is_nan(self.spec_get_centre()[2]),
        ensures
            0 <= self.octant_index(p) < 8,
            self.octant(self.octant_index(p)).covers_location(p),
    {
    }

    /// Where the centre lies between the corners, every location that an
    /// octant covers is covered by the box: the octants stay within it.
    pub proof fn lemma_octants_within(self, p: Location, i: int)
        requires
            0 <= i < 8,
            self.centred(),
            self.octant(i).covers_location(p),
        ensures
            self.covers_location(p),
    {
    }

    /// The octants of a box whose centre lies between its corners tile the
    /// box: a location is covered by the box if and only if it is covered by
    /// an octant, and then by exactly that one.
    pub proof fn lemma_split_tiles(self, p: Location)
        requires
            self.centred(),
        ensures
            self.covers_location(p) <==> exists|i: int|
                0 <= i < 8 && #[trigger] self.octant(i).covers_location(p),
            forall|i: int|
                0 <= i < 8 && #[trigger] self.octant(i).covers_location(p) ==> i
                    == self.octant_index(p),
    {
        if self.covers_location(p) {
            self.lemma_octants_cover(p);
        }
        assert forall|i: int|
            0 <= i < 8 && #[trigger] self.octant(i).covers_location(p) implies i
            == self.octant_index(p) && self.covers_location(p) by {
            self.lemma_octants_within(p, i);
            self.lemma_octants_cover(p);
            if i != self.octant_index(p) {
                self.lemma_octants_disjoint(p, i, self.octant_index(p));
            }
        }
    }

    /// The box around some locations reaches each of them: on every axis on
    /// which a location has a number, the box's corners enclose it.
    pub proof fn lemma_around_reaches(locs: Seq<Location>, k: int)
        requires
            0 <= k < locs.len(),
        ensures
            !is_nan(locs[k].0) ==> le(Self::around(locs).min[0], locs[k].0) && le(
                locs[k].0,
                Self::around(locs).max[0],
            ),
            !is_nan(locs[k].1) ==> le(Self::around(locs).min[1], locs[k].1) && le(
                locs[k].1,
                Self::around(locs).max[1],
            ),
            !is_nan(locs[k].2) ==> le(Self::around(locs).min[2], locs[k].2) && le(
                locs[k].2,
                Self::around(locs).max[2],
            ),
            !is_nan(Self::around(locs).min[0]) && !is_nan(Self::around(locs).max[0]),
            !is_nan(Self::around(locs).min[1]) && !is_nan(Self::around(locs).max[1]),
            !is_nan(Self::around(locs).min[2]) && !is_nan(Self::around(locs).max[2]),
        decreases locs.len(),
    {
        Self::lemma_around_numbers(locs.drop_last());
        if k < locs.len() - 1 {
            Self::lemma_around_reaches(locs.drop_last(), k);
        }
    }

    /// On every axis on which one of the locations has a number, the
    /// minimum of the box around them is no larger than its maximum.
    pub proof fn lemma_around_ordered(locs: Seq<Location>, k: int)
        requires
            0 <= k < locs.len(),
        ensures
            !is_nan(locs[k].0) ==> le(Self::around(locs).min[0], Self::around(locs).max[0]),
            !is_nan(locs[k].1) ==> le(Self::around(locs).min[1], Self::around(locs).max[1]),
            !is_nan(locs[k].2) ==> le(Self::around(locs).min[2], Self::around(locs).max[2]),
    {
        Self::lemma_around_reaches(locs, k);
    }

    /// No corner of the box around some locations is a NaN.
    pub proof fn lemma_around_numbers(locs: Seq<Location>)
        ensures
            !is_nan(Self::around(locs).min[0]) && !is_nan(Self::around(locs).max[0]),
            !is_nan(Self::around(locs).min[1]) && !is_nan(Self::around(locs).max[1]),
            !is_nan(Self::around(locs).min[2]) && !is_nan(Self::around(locs).max[2]),
        decreases locs.len(),
    {
        if locs.len() > 0 {
            Self::lemma_around_numbers(locs.drop_last());
        }
    }
}

impl Default for BoundingBox {
    /// The box that covers nothing.
    fn default() -> (r: Self)
        ensures
            r == BoundingBox::empty(),
    {
        let r = BoundingBox { min: [MAX, MAX, MAX], max: [MIN, MIN, MIN] };
        assert(r.min == BoundingBox::empty().min);
        assert(r.max == BoundingBox::empty().max);
        r
    }
}

impl PartialEq for BoundingBox {
    /// Whether the two boxes are the same region.
    fn eq(&self, other: &Self) -> (r: bool) {
        same_number(self.min[0], other.min[0]) && same_number(self.min[1], other.min[1])
            && same_number(self.min[2], other.min[2]) && same_number(self.max[0], other.max[0])
            && same_number(self.max[1], other.max[1]) && same_number(self.max[2], other.max[2])
    }
}

impl PartialEqSpecImpl for BoundingBox {
    open spec fn obeys_eq_spec() -> bool {
        true
    }

    open spec fn eq_spec(&self, other: &Self) -> bool {
        self.same_region(*other)
    }
}

} // verus!
