//! Primitives and the references that stand for them during a build.
use vstd::prelude::*;
use crate::aabb::{Aabb, Point};

verus! {

/// Anything that has a bounding box.
pub trait Boundable {
    /// The bounding box of the item.
    spec fn bound(&self) -> Aabb;

    fn aabb(&self) -> (b: Aabb)
        ensures
            b == self.bound(),
    ;
}

/// A triangle given by its three corners, in any winding.
#[derive(Clone, Copy, Debug, PartialEq, Eq, Structural)]
pub struct Triangle {
    pub v0: Point,
    pub v1: Point,
    pub v2: Point,
}

impl Triangle {
    /// The triangle with the given corners.
    pub fn new(v0: Point, v1: Point, v2: Point) -> (t: Triangle)
        ensures
            t == (Triangle { v0, v1, v2 }),
    {
        Triangle { v0, v1, v2 }
    }

    /// Every corner is within range.
    pub open spec fn in_range(self) -> bool {
        self.v0.in_range() && self.v1.in_range() && self.v2.in_range()
    }
}

impl Boundable for Triangle {
    /// The smallest box that holds the three corners.
    open spec fn bound(&self) -> Aabb {
        Aabb::spec_empty().spec_extend(self.v0).spec_extend(self.v1).spec_extend(self.v2)
    }

    fn aabb(&self) -> (b: Aabb) {
        Aabb::empty().extend(self.v0).extend(self.v1).extend(self.v2)
    }
}

impl Boundable for Aabb {
    open spec fn bound(&self) -> Aabb {
        *self
    }

    fn aabb(&self) -> (b: Aabb) {
        *self
    }
}

/// The bound of a triangle is valid exactly when its corners are in range,
/// and it holds the three corners.
pub proof fn lemma_triangle_bound(t: Triangle)
    ensures
        t.bound().valid() <==> t.in_range(),
        t.bound().contains_point(t.v0),
        t.bound().contains_point(t.v1),
        t.bound().contains_point(t.v2),
{
}

/// A box that stands for a primitive, or for a piece of one.
#[derive(Clone, Copy, Debug, PartialEq, Eq, Structural)]
pub struct PrimitiveReference {
    pub aabb: Aabb,
    /// Position of the primitive in the caller's list.
    pub index: u32,
}

/// The boxes of a list of references.
pub open spec fn boxes_of(refs: Seq<PrimitiveReference>) -> Seq<Aabb> {
    Seq::new(refs.len(), |i: int| refs[i].aabb)
}

/// Every reference has a valid box.
pub open spec fn all_valid(refs: Seq<PrimitiveReference>) -> bool {
    forall|i: int| 0 <= i < refs.len() ==> (#[trigger] refs[i]).aabb.valid()
}

/// The smallest box that holds the first `n` of `boxes`; the empty box for
/// `n == 0`.
pub open spec fn hull_prefix(boxes: Seq<Aabb>, n: int) -> Aabb
    decreases n,
{
    if n <= 0 {
        Aabb::spec_empty()
    } else {
        hull_prefix(boxes, n - 1).spec_union(boxes[n - 1])
    }
}

/// The smallest box that holds all of `boxes`.
pub open spec fn hull(boxes: Seq<Aabb>) -> Aabb {
    hull_prefix(boxes, boxes.len() as int)
}

/// The hull of the first `n` boxes holds each of them and lies inside
/// every box that holds them all. Of valid boxes, with `n > 0`, it is valid.
pub proof fn lemma_hull_prefix(boxes: Seq<Aabb>, n: int)
    requires
        0 <= n <= boxes.len(),
    ensures
        forall|i: int| 0 <= i < n ==> hull_prefix(boxes, n).contains(#[trigger] boxes[i]),
        forall|c: Aabb|
            (forall|i: int| 0 <= i < n ==> c.contains(#[trigger] boxes[i])) ==> n > 0
                ==> #[trigger] c.contains(hull_prefix(boxes, n)),
        (forall|i: int| 0 <= i < n ==> (#[trigger] boxes[i]).valid()) && n > 0 ==> hull_prefix(
            boxes,
            n,
        ).valid(),
    decreases n,
{
    if n > 0 {
        lemma_hull_prefix(boxes, n - 1);
        let h = hull_prefix(boxes, n - 1);
        assert forall|c: Aabb|
            (forall|i: int| 0 <= i < n ==> c.contains(#[trigger] boxes[i])) && n
                > 0 implies #[trigger] c.contains(hull_prefix(boxes, n)) by {
            assert(c.contains(boxes[n - 1]));
            if n - 1 > 0 {
                assert(forall|i: int| 0 <= i < n - 1 ==> c.contains(#[trigger] boxes[i]));
                assert(c.contains(h));
            }
        }
        if (forall|i: int| 0 <= i < n ==> (#[trigger] boxes[i]).valid()) {
            assert(boxes[n - 1].valid());
            if n - 1 > 0 {
                assert(h.valid());
            }
        }
    }
}

} // verus!
