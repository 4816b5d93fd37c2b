//! Points and axis-aligned boxes over ordinates.
//!
//! An *ordinate* is an `i64` that stands for a scalar coordinate of the simulated
//! plane. Only the order of ordinates matters here: nothing in this module adds,
//! scales or measures them, so any encoding of coordinates that keeps their order
//! (and maps equal coordinates to equal integers) gives the same answers.

use vstd::prelude::*;

verus! {

/// A position in the plane, as a pair of ordinates.
#[derive(Clone, Copy, Debug, PartialEq, Eq, Structural)]
pub struct Point {
    pub x: i64,
    pub y: i64,
}

/// An axis-aligned bounding box, held as its least and greatest corner.
///
/// No relation between the corners is demanded: a box whose `max` lies below its
/// `min` on some axis is simply one that has no interior on that axis.
#[derive(Clone, Copy, Debug, PartialEq, Eq, Structural)]
pub struct AABB {
    pub min: Point,
    pub max: Point,
}

pub open spec fn min_ordinate(a: i64, b: i64) -> i64 {
    if a <= b {
        a
    } else {
        b
    }
}

pub open spec fn max_ordinate(a: i64, b: i64) -> i64 {
    if a >= b {
        a
    } else {
        b
    }
}

impl AABB {
    /// Two boxes overlap when their extents meet on both axes; touching edges count.
    pub open spec fn overlaps(self, other: AABB) -> bool {
        &&& self.min.x <= other.max.x
        &&& self.max.x >= other.min.x
        &&& self.min.y <= other.max.y
        &&& self.max.y >= other.min.y
    }

    /// The least corner is not beyond the greatest one on either axis.
    pub open spec fn is_proper(self) -> bool {
        self.min.x <= self.max.x && self.min.y <= self.max.y
    }

    /// `self` reaches at least as far as `inner` in all four directions.
    pub open spec fn covers(self, inner: AABB) -> bool {
        &&& self.min.x <= inner.min.x
        &&& self.min.y <= inner.min.y
        &&& inner.max.x <= self.max.x
        &&& inner.max.y <= self.max.y
    }

    /// The smallest box that covers both `self` and `other`.
    pub open spec fn union(self, other: AABB) -> AABB {
        AABB {
            min: Point {
                x: min_ordinate(self.min.x, other.min.x),
                y: min_ordinate(self.min.y, other.min.y),
            },
            max: Point {
                x: max_ordinate(self.max.x, other.max.x),
                y: max_ordinate(self.max.y, other.max.y),
            },
        }
    }

    /// Tells whether the two boxes overlap.
    pub fn intersects(&self, other: &AABB) -> (hit: bool)
        ensures
            hit == self.overlaps(*other),
    {
        self.min.x <= other.max.x && self.max.x >= other.min.x && self.min.y <= other.max.y
            && self.max.y >= other.min.y
    }
}

/// Merges two boxes into the smallest box that covers both.
pub fn combine_bounding_boxes(left: AABB, right: AABB) -> (combined: AABB)
    ensures
        combined == left.union(right),
{
    AABB {
        min: Point {
            x: if left.min.x <= right.min.x {
                left.min.x
            } else {
                right.min.x
            },
            y: if left.min.y <= right.min.y {
                left.min.y
            } else {
                right.min.y
            },
        },
        max: Point {
            x: if left.max.x >= right.max.x {
                left.max.x
            } else {
                right.max.x
            },
            y: if left.max.y >= right.max.y {
                left.max.y
            } else {
                right.max.y
            },
        },
    }
}

/// Overlap does not depend on which box is asked.
pub proof fn lemma_overlaps_symmetric(a: AABB, b: AABB)
    ensures
        a.overlaps(b) == b.overlaps(a),
{
}

/// A union covers both of its parts.
pub proof fn lemma_union_covers(a: AABB, b: AABB)
    ensures
        a.union(b).covers(a),
        a.union(b).covers(b),
{
}

/// Whatever overlaps a box also overlaps every box that covers it.
pub proof fn lemma_overlap_grows(query: AABB, inner: AABB, outer: AABB)
    requires
        query.overlaps(inner),
        outer.covers(inner),
    ensures
        query.overlaps(outer),
{
}

/// A box that covers a proper box overlaps it.
pub proof fn lemma_cover_overlaps(query: AABB, inner: AABB)
    requires
        inner.is_proper(),
        query.covers(inner),
    ensures
        query.overlaps(inner),
{
}

} // verus!
