//! Axis-aligned boxes on the integer grid.
use vstd::prelude::*;

verus! {

/// Largest magnitude a coordinate of a valid box may have. Anything beyond it
/// is treated as unbounded geometry.
pub const COORD_LIMIT: i32 = 1073741824;

/// A point of the integer grid.
#[derive(Clone, Copy, Debug, PartialEq, Eq, Structural)]
pub struct Point {
    pub x: i32,
    pub y: i32,
    pub z: i32,
}

impl Point {
    /// The coordinate along `axis` (0, 1 or 2).
    pub open spec fn coord(self, axis: int) -> int {
        if axis == 0 {
            self.x as int
        } else if axis == 1 {
            self.y as int
        } else {
            self.z as int
        }
    }

    /// Every coordinate lies within `COORD_LIMIT` of the origin.
    pub open spec fn in_range(self) -> bool {
        &&& -COORD_LIMIT <= self.x <= COORD_LIMIT
        &&& -COORD_LIMIT <= self.y <= COORD_LIMIT
        &&& -COORD_LIMIT <= self.z <= COORD_LIMIT
    }

    /// Componentwise `self <= other`.
    pub open spec fn le(self, other: Point) -> bool {
        self.x <= other.x && self.y <= other.y && self.z <= other.z
    }

    /// Componentwise minimum.
    pub open spec fn spec_min(self, other: Point) -> Point {
        Point {
            x: if self.x <= other.x { self.x } else { other.x },
            y: if self.y <= other.y { self.y } else { other.y },
            z: if self.z <= other.z { self.z } else { other.z },
        }
    }

    /// Componentwise maximum.
    pub open spec fn spec_max(self, other: Point) -> Point {
        Point {
            x: if self.x >= other.x { self.x } else { other.x },
            y: if self.y >= other.y { self.y } else { other.y },
            z: if self.z >= other.z { self.z } else { other.z },
        }
    }

    /// The point with the given coordinates.
    pub fn new(x: i32, y: i32, z: i32) -> (p: Point)
        ensures
            p == (Point { x, y, z }),
    {
        Point { x, y, z }
    }

    /// The coordinate along `axis` (0, 1 or 2).
    pub fn get(&self, axis: u8) -> (c: i32)
        requires
            axis < 3,
        ensures
            c == self.coord(axis as int),
    {
        if axis == 0 {
            self.x
        } else if axis == 1 {
            self.y
        } else {
            self.z
        }
    }

    /// Whether every coordinate lies within `COORD_LIMIT` of the origin.
    pub fn is_in_range(&self) -> (b: bool)
        ensures
            b == self.in_range(),
    {
        -COORD_LIMIT <= self.x && self.x <= COORD_LIMIT && -COORD_LIMIT <= self.y && self.y
            <= COORD_LIMIT && -COORD_LIMIT <= self.z && self.z <= COORD_LIMIT
    }

    /// The componentwise minimum.
    pub fn min(self, other: Point) -> (p: Point)
        ensures
            p == self.spec_min(other),
    {
        Point {
            x: if self.x <= other.x { self.x } else { other.x },
            y: if self.y <= other.y { self.y } else { other.y },
            z: if self.z <= other.z { self.z } else { other.z },
        }
    }

    /// The componentwise maximum.
    pub fn max(self, other: Point) -> (p: Point)
        ensures
            p == self.spec_max(other),
    {
        Point {
            x: if self.x >= other.x { self.x } else { other.x },
            y: if self.y >= other.y { self.y } else { other.y },
            z: if self.z >= other.z { self.z } else { other.z },
        }
    }
}

/// An axis-aligned box given by its two extreme corners.
#[derive(Clone, Copy, Debug, PartialEq, Eq, Structural)]
pub struct Aabb {
    pub min: Point,
    pub max: Point,
}

impl Aabb {
    /// The box that holds nothing: extending it by a point yields that point.
    pub open spec fn spec_empty() -> Aabb {
        Aabb {
            min: Point { x: i32::MAX, y: i32::MAX, z: i32::MAX },
            max: Point { x: i32::MIN, y: i32::MIN, z: i32::MIN },
        }
    }

    /// `min <= max` on every axis and both corners are within range.
    pub open spec fn valid(self) -> bool {
        &&& self.min.le(self.max)
        &&& self.min.in_range()
        &&& self.max.in_range()
    }

    /// `other` lies inside `self`.
    pub open spec fn contains(self, other: Aabb) -> bool {
        self.min.le(other.min) && other.max.le(self.max)
    }

    /// The point `p` lies inside `self`.
    pub open spec fn contains_point(self, p: Point) -> bool {
        self.min.le(p) && p.le(self.max)
    }

    /// The smallest box that holds both `self` and `other`.
    pub open spec fn spec_union(self, other: Aabb) -> Aabb {
        Aabb { min: self.min.spec_min(other.min), max: self.max.spec_max(other.max) }
    }

    /// The smallest box that holds `self` and the point `p`.
    pub open spec fn spec_extend(self, p: Point) -> Aabb {
        Aabb { min: self.min.spec_min(p), max: self.max.spec_max(p) }
    }

    /// Side length along `axis`.
    pub open spec fn extent(self, axis: int) -> int {
        self.max.coord(axis) - self.min.coord(axis)
    }

    /// Half of the surface area, the cost measure used by every stage.
    /// A box that is not valid has half-area 0.
    pub open spec fn spec_half_area(self) -> int {
        if self.valid() {
            self.extent(0) * self.extent(1) + self.extent(1) * self.extent(2) + self.extent(2)
                * self.extent(0)
        } else {
            0
        }
    }

    /// The box with the given corners.
    pub fn new(min: Point, max: Point) -> (b: Aabb)
        ensures
            b == (Aabb { min, max }),
    {
        Aabb { min, max }
    }

    /// The box that holds nothing.
    pub fn empty() -> (b: Aabb)
        ensures
            b == Aabb::spec_empty(),
            !b.valid(),
    {
        Aabb {
            min: Point { x: i32::MAX, y: i32::MAX, z: i32::MAX },
            max: Point { x: i32::MIN, y: i32::MIN, z: i32::MIN },
        }
    }

    /// Whether the box is not inverted and within range.
    pub fn is_valid(&self) -> (b: bool)
        ensures
            b == self.valid(),
    {
        self.min.x <= self.max.x && self.min.y <= self.max.y && self.min.z <= self.max.z
            && self.min.is_in_range() && self.max.is_in_range()
    }

    /// The smallest box that holds `self` and the point `p`.
    pub fn extend(self, p: Point) -> (b: Aabb)
        ensures
            b == self.spec_extend(p),
    {
        Aabb { min: self.min.min(p), max: self.max.max(p) }
    }

    /// The smallest box that holds both `self` and `other`.
    pub fn union(self, other: Aabb) -> (b: Aabb)
        ensures
            b == self.spec_union(other),
    {
        Aabb { min: self.min.min(other.min), max: self.max.max(other.max) }
    }

    /// Whether `other` lies inside `self`.
    pub fn encloses(&self, other: &Aabb) -> (b: bool)
        ensures
            b == self.contains(*other),
    {
        self.min.x <= other.min.x && self.min.y <= other.min.y && self.min.z <= other.min.z
            && other.max.x <= self.max.x && other.max.y <= self.max.y && other.max.z
            <= self.max.z
    }

    /// Half of the surface area; 0 for a box that is not valid.
    pub fn half_area(&self) -> (a: u64)
        ensures
            a == self.spec_half_area(),
    {
        if !self.is_valid() {
            return 0;
        }
        let dx: u64 = (self.max.x as i64 - self.min.x as i64) as u64;
        let dy: u64 = (self.max.y as i64 - self.min.y as i64) as u64;
        let dz: u64 = (self.max.z as i64 - self.min.z as i64) as u64;
        proof {
            lemma_product_bound(dx as int, dy as int);
            lemma_product_bound(dy as int, dz as int);
            lemma_product_bound(dz as int, dx as int);
        }
        dx * dy + dy * dz + dz * dx
    }
}

/// Upper bound on the half-area of any valid box.
pub open spec fn half_area_limit() -> int {
    3int * 0x4000_0000_0000_0000int
}

/// The product of two side lengths fits 62 bits.
pub proof fn lemma_product_bound(a: int, b: int)
    by (nonlinear_arith)
    requires
        0 <= a <= 0x8000_0000,
        0 <= b <= 0x8000_0000,
    ensures
        0 <= a * b <= 0x4000_0000_0000_0000,
{
}

/// A product of no greater factors is no greater.
pub proof fn lemma_product_monotone(a: int, b: int, c: int, d: int)
    by (nonlinear_arith)
    requires
        0 <= a <= c,
        0 <= b <= d,
    ensures
        a * b <= c * d,
{
}

/// The half-area of any box is between 0 and `half_area_limit()`.
pub proof fn lemma_half_area_bounds(b: Aabb)
    ensures
        0 <= b.spec_half_area() <= half_area_limit(),
{
    if b.valid() {
        lemma_product_bound(b.extent(0), b.extent(1));
        lemma_product_bound(b.extent(1), b.extent(2));
        lemma_product_bound(b.extent(2), b.extent(0));
    }
}

/// A box has at least the half-area of any valid box inside it.
pub proof fn lemma_half_area_monotone(outer: Aabb, inner: Aabb)
    requires
        outer.valid(),
        outer.contains(inner),
    ensures
        inner.spec_half_area() <= outer.spec_half_area(),
{
    if inner.valid() {
        lemma_product_monotone(inner.extent(0), inner.extent(1), outer.extent(0), outer.extent(1));
        lemma_product_monotone(inner.extent(1), inner.extent(2), outer.extent(1), outer.extent(2));
        lemma_product_monotone(inner.extent(2), inner.extent(0), outer.extent(2), outer.extent(0));
    } else {
        lemma_half_area_bounds(outer);
    }
}

/// The union of two valid boxes is valid, holds both, and lies inside every
/// box that holds both.
pub proof fn lemma_union_is_least(a: Aabb, b: Aabb)
    ensures
        a.spec_union(b).contains(a),
        a.spec_union(b).contains(b),
        a.valid() && b.valid() ==> a.spec_union(b).valid(),
        forall|c: Aabb| c.contains(a) && c.contains(b) ==> c.contains(#[trigger] a.spec_union(b)),
        a.spec_union(b) == b.spec_union(a),
        a.contains(b) ==> a.spec_union(b) == a,
{
}

/// Union is associative.
pub proof fn lemma_union_assoc(a: Aabb, b: Aabb, c: Aabb)
    ensures
        a.spec_union(b).spec_union(c) == a.spec_union(b.spec_union(c)),
{
}

/// Containment is transitive.
pub proof fn lemma_contains_transitive(a: Aabb, b: Aabb, c: Aabb)
    requires
        a.contains(b),
        b.contains(c),
    ensures
        a.contains(c),
{
}

} // verus!
