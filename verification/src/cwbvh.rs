//! The compressed 8-wide hierarchy: nodes with a local grid and, per child
//! slot, a box on that grid.
use vstd::prelude::*;
use crate::aabb::{Aabb, Point};

verus! {

/// Number of child slots of a node.
pub const WIDTH: usize = 8;

/// Largest exponent of a grid step.
pub const MAX_EXPONENT: u8 = 24;

/// 2 to the power `e`.
pub open spec fn pow2(e: int) -> int
    decreases e,
{
    if e <= 0 {
        1
    } else {
        2 * pow2(e - 1)
    }
}

/// The grid steps are between 1 and 2 to the power 24.
pub proof fn lemma_pow2_bounds(e: int)
    requires
        0 <= e <= MAX_EXPONENT,
    ensures
        1 <= pow2(e) <= 0x100_0000,
    decreases MAX_EXPONENT - e,
{
    if e == MAX_EXPONENT {
        reveal_with_fuel(pow2, 25);
        assert(pow2(24) == 0x100_0000);
    } else {
        lemma_pow2_bounds(e + 1);
        lemma_pow2_positive(e);
    }
}

/// A power of 2 is at least 1.
pub proof fn lemma_pow2_positive(e: int)
    ensures
        1 <= pow2(e),
    decreases e,
{
    if e > 0 {
        lemma_pow2_positive(e - 1);
    }
}

/// The grid step `2^e`.
pub fn step_of(e: u8) -> (s: i64)
    requires
        e <= MAX_EXPONENT,
    ensures
        s == pow2(e as int),
        1 <= s <= 0x100_0000,
    decreases e,
{
    proof {
        lemma_pow2_bounds(e as int);
    }
    if e == 0 {
        1
    } else {
        let half: i64 = step_of(e - 1);
        2 * half
    }
}

/// The least exponent whose grid reaches `extent` within 255 steps.
pub open spec fn spec_exponent(extent: int, e: int) -> bool {
    &&& 0 <= e <= MAX_EXPONENT
    &&& extent <= 255 * pow2(e)
    &&& e > 0 ==> extent > 255 * pow2(e - 1)
}

/// The least exponent whose grid reaches `extent` within 255 steps.
pub fn choose_exponent(extent: i64) -> (e: u8)
    requires
        0 <= extent <= 0x8000_0000,
    ensures
        spec_exponent(extent as int, e as int),
{
    let mut e: u8 = 0;
    let mut step: i64 = 1;
    while extent > 255 * step
        invariant
            0 <= e <= MAX_EXPONENT,
            step == pow2(e as int),
            1 <= step <= 0x100_0000,
            0 <= extent <= 0x8000_0000,
            e > 0 ==> extent > 255 * pow2(e - 1),
        decreases MAX_EXPONENT - e,
    {
        proof {
            if e == MAX_EXPONENT {
                lemma_pow2_bounds(24);
                reveal_with_fuel(pow2, 25);
                assert(pow2(24) == 0x100_0000);
            }
            lemma_pow2_bounds((e + 1) as int);
        }
        e = e + 1;
        step = 2 * step;
    }
    e
}

/// A quotient, rounded down, times the divisor is within one divisor below the
/// dividend.
pub proof fn lemma_div_floor(x: int, d: int)
    by (nonlinear_arith)
    requires
        0 <= x,
        0 < d,
    ensures
        0 <= x / d,
        (x / d) * d <= x < (x / d) * d + d,
{
}

/// A dividend of at most `m` divisors has a quotient of at most `m`.
pub proof fn lemma_div_within(x: int, d: int, m: int)
    by (nonlinear_arith)
    requires
        0 <= x <= m * d,
        0 < d,
        0 <= m,
    ensures
        x / d <= m,
{
}

/// The grid line at or below `v`: `(v - origin) / step`.
pub open spec fn spec_floor_cell(v: int, origin: int, step: int) -> int {
    (v - origin) / step
}

/// The grid line at or above `v`: `(v - origin + step - 1) / step`.
pub open spec fn spec_ceil_cell(v: int, origin: int, step: int) -> int {
    (v - origin + step - 1) / step
}

/// The grid line at or below `v`.
pub fn floor_cell(v: i32, origin: i32, step: i64) -> (q: u8)
    requires
        origin <= v,
        1 <= step <= 0x100_0000,
        v - origin <= 255 * step,
    ensures
        q == spec_floor_cell(v as int, origin as int, step as int),
        origin + q * step <= v,
{
    let d: i64 = v as i64 - origin as i64;
    proof {
        lemma_div_floor(d as int, step as int);
        lemma_div_within(d as int, step as int, 255);
    }
    (d / step) as u8
}

/// The grid line at or above `v`; it lies less than one step above `v`.
pub fn ceil_cell(v: i32, origin: i32, step: i64) -> (q: u8)
    requires
        origin <= v,
        1 <= step <= 0x100_0000,
        v - origin <= 255 * step,
    ensures
        q == spec_ceil_cell(v as int, origin as int, step as int),
        v <= origin + q * step < v + step,
{
    let d: i64 = v as i64 - origin as i64 + step - 1;
    proof {
        lemma_div_floor(d as int, step as int);
        lemma_div_within(d as int, step as int, 256);
        if d / step == 256 {
            assert(false);
        }
    }
    (d / step) as u8
}

/// What a child slot holds.
#[derive(Clone, Copy, Debug, PartialEq, Eq, Structural)]
pub enum SlotKind {
    Empty,
    /// Another node of the hierarchy.
    Internal,
    /// A run of the flattened list of primitive indices.
    Leaf,
}

/// A corner on the grid of a node.
#[derive(Clone, Copy, Debug, PartialEq, Eq, Structural)]
pub struct GridPoint {
    pub x: u8,
    pub y: u8,
    pub z: u8,
}

/// One child slot of a node.
#[derive(Clone, Copy, Debug, PartialEq, Eq, Structural)]
pub struct Slot {
    pub kind: SlotKind,
    pub qmin: GridPoint,
    pub qmax: GridPoint,
    /// The node of an internal slot; the first place of a leaf's run.
    pub index: u32,
    /// The length of a leaf's run.
    pub count: u32,
}

impl Slot {
    /// An empty slot: its corners, its index and its count are 0.
    pub fn vacant() -> (s: Slot)
        ensures
            s.kind == SlotKind::Empty,
            s == (Slot {
                kind: SlotKind::Empty,
                qmin: (GridPoint { x: 0, y: 0, z: 0 }),
                qmax: (GridPoint { x: 0, y: 0, z: 0 }),
                index: 0,
                count: 0,
            }),
    {
        Slot {
            kind: SlotKind::Empty,
            qmin: GridPoint { x: 0, y: 0, z: 0 },
            qmax: GridPoint { x: 0, y: 0, z: 0 },
            index: 0,
            count: 0,
        }
    }
}

/// A node: a grid, given by its origin and the exponent of its step on
/// each axis, and eight child slots.
#[derive(Clone, Copy, Debug, PartialEq, Eq)]
pub struct CwNode {
    pub origin: Point,
    pub ex: u8,
    pub ey: u8,
    pub ez: u8,
    pub slots: [Slot; 8],
}

impl CwNode {
    /// The exponents are within bounds and the origin is in range.
    pub open spec fn grid_ok(self) -> bool {
        &&& self.ex <= MAX_EXPONENT
        &&& self.ey <= MAX_EXPONENT
        &&& self.ez <= MAX_EXPONENT
        &&& self.origin.in_range()
    }

    /// The box of the slot is not inverted and its far corner is a
    /// coordinate.
    pub open spec fn slot_fits(self, s: Slot) -> bool {
        &&& s.qmin.x <= s.qmax.x
        &&& s.qmin.y <= s.qmax.y
        &&& s.qmin.z <= s.qmax.z
        &&& self.origin.x + s.qmax.x * pow2(self.ex as int) <= i32::MAX
        &&& self.origin.y + s.qmax.y * pow2(self.ey as int) <= i32::MAX
        &&& self.origin.z + s.qmax.z * pow2(self.ez as int) <= i32::MAX
    }

    /// The box that the grid corners of `s` stand for.
    pub open spec fn spec_decompress(self, s: Slot) -> Aabb {
        Aabb {
            min: Point {
                x: (self.origin.x + s.qmin.x * pow2(self.ex as int)) as i32,
                y: (self.origin.y + s.qmin.y * pow2(self.ey as int)) as i32,
                z: (self.origin.z + s.qmin.z * pow2(self.ez as int)) as i32,
            },
            max: Point {
                x: (self.origin.x + s.qmax.x * pow2(self.ex as int)) as i32,
                y: (self.origin.y + s.qmax.y * pow2(self.ey as int)) as i32,
                z: (self.origin.z + s.qmax.z * pow2(self.ez as int)) as i32,
            },
        }
    }

    /// The box of child slot `s`, in coordinates.
    pub fn decompress(&self, s: usize) -> (b: Aabb)
        requires
            s < WIDTH,
            self.grid_ok(),
            self.slot_fits(self.slots@[s as int]),
        ensures
            b == self.spec_decompress(self.slots@[s as int]),
    {
        let sl = self.slots[s];
        let sx: i64 = step_of(self.ex);
        let sy: i64 = step_of(self.ey);
        let sz: i64 = step_of(self.ez);
        proof {
            lemma_grid_product(sl.qmin.x as int, sl.qmax.x as int, sx as int);
            lemma_grid_product(sl.qmin.y as int, sl.qmax.y as int, sy as int);
            lemma_grid_product(sl.qmin.z as int, sl.qmax.z as int, sz as int);
        }
        Aabb {
            min: Point {
                x: (self.origin.x as i64 + (sl.qmin.x as i64) * sx) as i32,
                y: (self.origin.y as i64 + (sl.qmin.y as i64) * sy) as i32,
                z: (self.origin.z as i64 + (sl.qmin.z as i64) * sz) as i32,
            },
            max: Point {
                x: (self.origin.x as i64 + (sl.qmax.x as i64) * sx) as i32,
                y: (self.origin.y as i64 + (sl.qmax.y as i64) * sy) as i32,
                z: (self.origin.z as i64 + (sl.qmax.z as i64) * sz) as i32,
            },
        }
    }
}

/// Grid offsets are ordered as their grid lines are, and fit 32 bits.
pub proof fn lemma_grid_product(a: int, b: int, step: int)
    by (nonlinear_arith)
    requires
        0 <= a <= b <= 255,
        1 <= step <= 0x100_0000,
    ensures
        0 <= a * step <= b * step <= 255 * 0x100_0000,
{
}

/// The smallest box that holds `boxes[first + k]` for `k < count`.
pub open spec fn span_hull(boxes: Seq<Aabb>, first: int, count: int) -> Aabb
    decreases count,
{
    if count <= 0 {
        Aabb::spec_empty()
    } else {
        span_hull(boxes, first, count - 1).spec_union(boxes[first + count - 1])
    }
}

/// What the proofs know of a compressed hierarchy beyond its slots.
pub struct CwShape {
    /// For each place of the flattened list, the node and slot of the leaf
    /// that holds it.
    pub owner: Seq<(int, int)>,
    /// For each node but the first, the node and slot that point to it.
    pub up: Seq<(int, int)>,
    /// For each place of the flattened list, the box of the reference
    /// that stands there.
    pub boxes: Seq<Aabb>,
    /// For each node, the node of the binary hierarchy that it stands for.
    pub origin: Seq<int>,
}

/// The compressed hierarchy. Node 0 is the root.
pub struct CwBvh {
    pub nodes: Vec<CwNode>,
    /// The primitives of the leaves, as positions in the caller's list,
    /// run by run.
    pub primitive_indices: Vec<u32>,
    pub shape: Ghost<CwShape>,
}

impl CwBvh {
    /// The number of nodes.
    pub open spec fn len(self) -> int {
        self.nodes@.len() as int
    }

    /// Slot `s` of node `i`.
    pub open spec fn slot(self, i: int, s: int) -> Slot {
        self.nodes@[i].slots@[s]
    }

    /// `(i, s)` names a slot of the hierarchy.
    pub open spec fn is_slot(self, i: int, s: int) -> bool {
        0 <= i < self.len() && 0 <= s < WIDTH
    }

    /// The slot `s` of node `i` is sound: an internal slot points to a
    /// later node, which points back; a leaf slot has a run of the
    /// flattened list to itself; either has a box that fits.
    pub open spec fn slot_ok(self, i: int, s: int) -> bool {
        let sl = self.slot(i, s);
        match sl.kind {
            SlotKind::Empty => true,
            SlotKind::Internal => {
                &&& i < sl.index < self.len()
                &&& self.shape@.up[sl.index as int] == (i, s)
                &&& self.nodes@[i].slot_fits(sl)
            },
            SlotKind::Leaf => {
                &&& sl.count >= 1
                &&& sl.index + sl.count <= self.primitive_indices@.len()
                &&& forall|k: int|
                    sl.index <= k < sl.index + sl.count ==> #[trigger] self.shape@.owner[k] == (
                        i,
                        s,
                    )
                &&& self.nodes@[i].slot_fits(sl)
            },
        }
    }

    /// The hierarchy is a tree of nodes below node 0 whose leaf slots
    /// share out the flattened list.
    pub open spec fn wf(self) -> bool {
        &&& 1 <= self.nodes@.len() <= u32::MAX
        &&& self.shape@.owner.len() == self.primitive_indices@.len()
        &&& self.shape@.up.len() == self.nodes@.len()
        &&& forall|i: int| 0 <= i < self.len() ==> (#[trigger] self.nodes@[i]).grid_ok()
        &&& forall|i: int, s: int| self.is_slot(i, s) ==> #[trigger] self.slot_ok(i, s)
        &&& forall|j: int|
            1 <= j < self.len() ==> {
                let (i, s) = #[trigger] self.shape@.up[j];
                &&& self.is_slot(i, s)
                &&& self.slot(i, s).kind == SlotKind::Internal
                &&& self.slot(i, s).index == j
            }
        &&& forall|k: int|
            0 <= k < self.primitive_indices@.len() ==> {
                let (i, s) = #[trigger] self.shape@.owner[k];
                &&& self.is_slot(i, s)
                &&& self.slot(i, s).kind == SlotKind::Leaf
                &&& self.slot(i, s).index <= k < self.slot(i, s).index + self.slot(i, s).count
            }
    }

    /// No leaf holds more than `cap` references.
    pub open spec fn capped(self, cap: int) -> bool {
        forall|i: int, s: int|
            self.is_slot(i, s) && (#[trigger] self.slot(i, s)).kind == SlotKind::Leaf
                ==> self.slot(i, s).count <= cap
    }

    /// The box of slot `s` of node `i`, in coordinates.
    pub open spec fn slot_box(self, i: int, s: int) -> Aabb {
        self.nodes@[i].spec_decompress(self.slot(i, s))
    }

    /// The hull of the boxes of all references below slot `s` of node `i`,
    /// where `boxes[k]` is the box of the reference at place `k` of the
    /// flattened list.
    pub open spec fn slot_hull(self, boxes: Seq<Aabb>, i: int, s: int) -> Aabb
        decreases self.len() - i, 0int,
    {
        let sl = self.slot(i, s);
        match sl.kind {
            SlotKind::Empty => Aabb::spec_empty(),
            SlotKind::Leaf => span_hull(boxes, sl.index as int, sl.count as int),
            SlotKind::Internal => if i < sl.index < self.len() {
                self.node_hull(boxes, sl.index as int, WIDTH as int)
            } else {
                Aabb::spec_empty()
            },
        }
    }

    /// The hull of the boxes of all references below the first `upto`
    /// slots of node `j`.
    pub open spec fn node_hull(self, boxes: Seq<Aabb>, j: int, upto: int) -> Aabb
        decreases self.len() - j, upto,
    {
        if upto <= 0 {
            Aabb::spec_empty()
        } else {
            self.node_hull(boxes, j, upto - 1).spec_union(self.slot_hull(boxes, j, upto - 1))
        }
    }

    /// The box of slot `s` of node `i` holds the boxes of all references
    /// below it.
    pub open spec fn slot_conservative(self, boxes: Seq<Aabb>, i: int, s: int) -> bool {
        self.slot(i, s).kind != SlotKind::Empty ==> self.slot_box(i, s).contains(
            self.slot_hull(boxes, i, s),
        )
    }

    /// Every slot's box holds the boxes of all references below it.
    pub open spec fn conservative(self, boxes: Seq<Aabb>) -> bool {
        &&& boxes.len() == self.primitive_indices@.len()
        &&& forall|i: int, s: int|
            self.is_slot(i, s) ==> #[trigger] self.slot_conservative(boxes, i, s)
    }

    /// The union of the boxes of the leaf slots that hold the places
    /// below `upto` at which the primitive `i` stands.
    pub open spec fn leaf_cover(self, i: int, upto: int) -> Aabb
        decreases upto,
    {
        if upto <= 0 {
            Aabb::spec_empty()
        } else if self.primitive_indices@[upto - 1] == i {
            self.leaf_cover(i, upto - 1).spec_union(
                self.slot_box(self.shape@.owner[upto - 1].0, self.shape@.owner[upto - 1].1),
            )
        } else {
            self.leaf_cover(i, upto - 1)
        }
    }

    /// The primitive `i`, whose bound is `bound`, stands in a leaf, and
    /// the union of the boxes of the leaves in which it stands holds its
    /// bound.
    pub open spec fn covers(self, i: int, bound: Aabb) -> bool {
        &&& exists|k: int|
            0 <= k < self.primitive_indices@.len() && #[trigger] self.primitive_indices@[k] == i
        &&& self.leaf_cover(i, self.primitive_indices@.len() as int).contains(bound)
    }

    /// The number of nodes.
    pub fn node_count(&self) -> (n: usize)
        ensures
            n == self.len(),
    {
        self.nodes.len()
    }

    /// The node `i`.
    pub fn node(&self, i: usize) -> (n: CwNode)
        requires
            i < self.len(),
        ensures
            n == self.nodes@[i as int],
    {
        self.nodes[i]
    }
}

/// The hull of a run of boxes holds each box of the run.
pub proof fn lemma_span_hull_contains(boxes: Seq<Aabb>, first: int, count: int, k: int)
    requires
        first <= k < first + count,
    ensures
        span_hull(boxes, first, count).contains(boxes[k]),
    decreases count,
{
    if k < first + count - 1 {
        lemma_span_hull_contains(boxes, first, count - 1, k);
    }
}

/// The cover of a primitive holds the box of every leaf slot in which the
/// primitive stands.
pub proof fn lemma_leaf_cover_holds_slot(cw: CwBvh, i: int, k: int, upto: int)
    requires
        0 <= k < upto <= cw.primitive_indices@.len(),
        cw.primitive_indices@[k] == i,
    ensures
        cw.leaf_cover(i, upto).contains(
            cw.slot_box(cw.shape@.owner[k].0, cw.shape@.owner[k].1),
        ),
    decreases upto,
{
    if k < upto - 1 {
        lemma_leaf_cover_holds_slot(cw, i, k, upto - 1);
    }
}

/// In a sound hierarchy whose slots bound what is below them, the cover
/// of a primitive holds the box of every reference that stands for it.
pub proof fn lemma_leaf_cover_holds_reference(cw: CwBvh, i: int, k: int)
    requires
        cw.wf(),
        cw.conservative(cw.shape@.boxes),
        0 <= k < cw.primitive_indices@.len(),
        cw.primitive_indices@[k] == i,
    ensures
        cw.leaf_cover(i, cw.primitive_indices@.len() as int).contains(cw.shape@.boxes[k]),
{
    let (n, s) = cw.shape@.owner[k];
    lemma_leaf_cover_holds_slot(cw, i, k, cw.primitive_indices@.len() as int);
    assert(cw.slot_ok(n, s));
    assert(cw.slot_conservative(cw.shape@.boxes, n, s));
    lemma_span_hull_contains(
        cw.shape@.boxes,
        cw.slot(n, s).index as int,
        cw.slot(n, s).count as int,
        k,
    );
}

} // verus!
