//! Axis-aligned boxes.
//!
//! The conservative stand-in the broadphase stores for any exact shape.
//! Corners are `f32` bit patterns: combining and comparing boxes only ever
//! orders coordinates, never computes with them.

use vstd::prelude::*;

use crate::order::{is_nan, le_num, lt_num, nan, num_le, num_lt};

verus! {

/// A point in space, its coordinates as bit patterns.
#[derive(Clone, Copy, PartialEq, Eq, Debug, Structural)]
pub struct Point {
    pub x: u32,
    pub y: u32,
    pub z: u32,
}

/// Axis-aligned bounding box: `min`/`max` corner per axis.
#[derive(Clone, Copy, PartialEq, Eq, Debug, Structural)]
pub struct Aabb {
    pub min: Point,
    pub max: Point,
}

/// The smaller of two numbers; a NaN yields to the other.
pub open spec fn least(a: u32, b: u32) -> u32 {
    if nan(a) || lt_num(b, a) {
        b
    } else {
        a
    }
}

/// The larger of two numbers; a NaN yields to the other.
pub open spec fn most(a: u32, b: u32) -> u32 {
    if nan(a) || lt_num(a, b) {
        b
    } else {
        a
    }
}

/// The smaller of two numbers; a NaN yields to the other.
pub fn num_min(a: u32, b: u32) -> (r: u32)
    ensures
        r == least(a, b),
{
    if is_nan(a) || num_lt(b, a) {
        b
    } else {
        a
    }
}

/// The larger of two numbers; a NaN yields to the other.
pub fn num_max(a: u32, b: u32) -> (r: u32)
    ensures
        r == most(a, b),
{
    if is_nan(a) || num_lt(a, b) {
        b
    } else {
        a
    }
}

/// The smallest box containing both.
pub open spec fn joined(a: Aabb, b: Aabb) -> Aabb {
    Aabb {
        min: Point {
            x: least(a.min.x, b.min.x),
            y: least(a.min.y, b.min.y),
            z: least(a.min.z, b.min.z),
        },
        max: Point {
            x: most(a.max.x, b.max.x),
            y: most(a.max.y, b.max.y),
            z: most(a.max.z, b.max.z),
        },
    }
}

/// The boxes share a point: their intervals meet on every axis.
pub open spec fn overlapping(a: Aabb, b: Aabb) -> bool {
    &&& le_num(a.min.x, b.max.x)
    &&& le_num(b.min.x, a.max.x)
    &&& le_num(a.min.y, b.max.y)
    &&& le_num(b.min.y, a.max.y)
    &&& le_num(a.min.z, b.max.z)
    &&& le_num(b.min.z, a.max.z)
}

/// `b` fits entirely inside `a`.
pub open spec fn encloses(a: Aabb, b: Aabb) -> bool {
    &&& le_num(a.min.x, b.min.x)
    &&& le_num(a.min.y, b.min.y)
    &&& le_num(a.min.z, b.min.z)
    &&& le_num(b.max.x, a.max.x)
    &&& le_num(b.max.y, a.max.y)
    &&& le_num(b.max.z, a.max.z)
}

/// Every coordinate is a number.
pub open spec fn numeric(a: Aabb) -> bool {
    &&& !nan(a.min.x) && !nan(a.min.y) && !nan(a.min.z)
    &&& !nan(a.max.x) && !nan(a.max.y) && !nan(a.max.z)
}

impl Aabb {
    pub fn new(min: Point, max: Point) -> (r: Aabb)
        ensures
            r == (Aabb { min, max }),
    {
        Aabb { min, max }
    }

    /// Smallest box containing both.
    pub fn union(self, o: Aabb) -> (r: Aabb)
        ensures
            r == joined(self, o),
    {
        Aabb {
            min: Point {
                x: num_min(self.min.x, o.min.x),
                y: num_min(self.min.y, o.min.y),
                z: num_min(self.min.z, o.min.z),
            },
            max: Point {
                x: num_max(self.max.x, o.max.x),
                y: num_max(self.max.y, o.max.y),
                z: num_max(self.max.z, o.max.z),
            },
        }
    }

    /// Whether the boxes share a point.
    pub fn overlaps(self, o: Aabb) -> (r: bool)
        ensures
            r == overlapping(self, o),
    {
        num_le(self.min.x, o.max.x) && num_le(o.min.x, self.max.x) && num_le(
            self.min.y,
            o.max.y,
        ) && num_le(o.min.y, self.max.y) && num_le(self.min.z, o.max.z) && num_le(
            o.min.z,
            self.max.z,
        )
    }

    /// True when `o` fits entirely inside `self` — the fat-margin test.
    pub fn contains(self, o: Aabb) -> (r: bool)
        ensures
            r == encloses(self, o),
    {
        num_le(self.min.x, o.min.x) && num_le(self.min.y, o.min.y) && num_le(
            self.min.z,
            o.min.z,
        ) && num_le(o.max.x, self.max.x) && num_le(o.max.y, self.max.y) && num_le(
            o.max.z,
            self.max.z,
        )
    }
}

impl Default for Aabb {
    /// The point box at the origin.
    fn default() -> (r: Aabb)
        ensures
            r == (Aabb { min: Point { x: 0, y: 0, z: 0 }, max: Point { x: 0, y: 0, z: 0 } }),
    {
        Aabb { min: Point { x: 0, y: 0, z: 0 }, max: Point { x: 0, y: 0, z: 0 } }
    }
}

/// Growing a box never loses an overlap: whatever meets one of two boxes
/// meets their union, whether or not the other is made of numbers.
pub proof fn union_keeps_overlaps(a: Aabb, b: Aabb, q: Aabb)
    requires
        overlapping(a, q) || overlapping(b, q),
    ensures
        overlapping(joined(a, b), q),
{
}

/// A union of boxes made of numbers contains both of them.
pub proof fn union_encloses_both(a: Aabb, b: Aabb)
    requires
        numeric(a),
        numeric(b),
    ensures
        encloses(joined(a, b), a),
        encloses(joined(a, b), b),
        numeric(joined(a, b)),
{
}

/// A box inside another overlaps nothing that the other does not.
pub proof fn enclosed_overlaps_less(a: Aabb, b: Aabb, q: Aabb)
    requires
        encloses(a, b),
        overlapping(b, q),
    ensures
        overlapping(a, q),
{
}

/// The lesser of two numbers is one of them and no greater than either; the
/// greater likewise; what is no number gives way to the other.
pub proof fn least_and_most_pick_one(a: u32, b: u32)
    ensures
        least(a, b) == a || least(a, b) == b,
        most(a, b) == a || most(a, b) == b,
        nan(a) ==> least(a, b) == b && most(a, b) == b,
        !nan(a) && nan(b) ==> least(a, b) == a && most(a, b) == a,
        !nan(a) && !nan(b) ==> le_num(least(a, b), a) && le_num(least(a, b), b),
        !nan(a) && !nan(b) ==> le_num(a, most(a, b)) && le_num(b, most(a, b)),
{
}

/// A joined box is the smallest that encloses both.
pub proof fn a_joined_box_is_the_smallest(a: Aabb, b: Aabb, c: Aabb)
    requires
        numeric(a),
        numeric(b),
        encloses(c, a),
        encloses(c, b),
    ensures
        encloses(c, joined(a, b)),
        encloses(joined(a, b), a),
        encloses(joined(a, b), b),
{
}

/// A point lies in a box, its sides included.
pub open spec fn lies_in(p: Point, a: Aabb) -> bool {
    &&& le_num(a.min.x, p.x) && le_num(p.x, a.max.x)
    &&& le_num(a.min.y, p.y) && le_num(p.y, a.max.y)
    &&& le_num(a.min.z, p.z) && le_num(p.z, a.max.z)
}

/// Boxes overlap exactly where they share a point, and one encloses another
/// exactly where it holds both its corners.
pub proof fn overlaps_share_a_point(a: Aabb, b: Aabb)
    requires
        lies_in(a.min, a),
        lies_in(a.max, a),
        lies_in(b.min, b),
        lies_in(b.max, b),
    ensures
        overlapping(a, b) <==> exists|p: Point| lies_in(p, a) && lies_in(p, b),
        encloses(a, b) <==> lies_in(b.min, a) && lies_in(b.max, a),
{
    if overlapping(a, b) {
        let p = Point {
            x: most(a.min.x, b.min.x),
            y: most(a.min.y, b.min.y),
            z: most(a.min.z, b.min.z),
        };
        assert(lies_in(p, a) && lies_in(p, b));
    }
}

} // verus!
