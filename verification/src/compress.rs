//! Collapsing the binary hierarchy into 8-wide nodes with quantized boxes.
//!
//! A wide node stands for an internal node of the binary hierarchy and
//! takes in up to three levels below it: its slots are the nodes found
//! there, each at the place that its path gives it. The grid of the node
//! starts at the least corner of its box and has, on each axis, the
//! smallest power-of-two step that reaches the far side within 255 steps.
//! Child boxes are rounded outward to grid lines.
use vstd::prelude::*;
use crate::aabb::{Aabb, lemma_union_assoc, lemma_union_is_least};
use crate::bvh2::{Bvh2, Bvh2Node, leaves_capped, lemma_root_leaf_alone, range_hull};
use crate::leaves::{has_large_leaf, split_large_leaves};
use crate::primitive::{PrimitiveReference, all_valid, boxes_of};
use crate::cwbvh::{
    CwBvh, CwNode, CwShape, GridPoint, Slot, SlotKind, WIDTH, ceil_cell, choose_exponent,
    floor_cell, pow2, span_hull, spec_ceil_cell, spec_exponent, spec_floor_cell, step_of,
};

verus! {

/// `node` carries the grid for the box `b`: the origin at the least corner
/// and the least exponents that reach the far side.
pub open spec fn grid_for(node: CwNode, b: Aabb) -> bool {
    &&& b.valid()
    &&& node.origin == b.min
    &&& spec_exponent(b.extent(0), node.ex as int)
    &&& spec_exponent(b.extent(1), node.ey as int)
    &&& spec_exponent(b.extent(2), node.ez as int)
}

/// A node with the grid for `b` and eight empty slots.
pub fn frame_for(b: &Aabb) -> (node: CwNode)
    requires
        b.valid(),
    ensures
        grid_for(node, *b),
        node.grid_ok(),
        forall|s: int| 0 <= s < WIDTH ==> (#[trigger] node.slots@[s]).kind == SlotKind::Empty,
{
    let ex: u8 = choose_exponent(b.max.x as i64 - b.min.x as i64);
    let ey: u8 = choose_exponent(b.max.y as i64 - b.min.y as i64);
    let ez: u8 = choose_exponent(b.max.z as i64 - b.min.z as i64);
    let v = Slot::vacant();
    CwNode { origin: b.min, ex, ey, ez, slots: [v, v, v, v, v, v, v, v] }
}

/// The grid corners of `b` on the grid of `node`: the least corner rounded
/// down, the far corner rounded up.
pub open spec fn spec_quantize(node: CwNode, b: Aabb) -> (GridPoint, GridPoint) {
    (
        GridPoint {
            x: spec_floor_cell(b.min.x as int, node.origin.x as int, pow2(node.ex as int)) as u8,
            y: spec_floor_cell(b.min.y as int, node.origin.y as int, pow2(node.ey as int)) as u8,
            z: spec_floor_cell(b.min.z as int, node.origin.z as int, pow2(node.ez as int)) as u8,
        },
        GridPoint {
            x: spec_ceil_cell(b.max.x as int, node.origin.x as int, pow2(node.ex as int)) as u8,
            y: spec_ceil_cell(b.max.y as int, node.origin.y as int, pow2(node.ey as int)) as u8,
            z: spec_ceil_cell(b.max.z as int, node.origin.z as int, pow2(node.ez as int)) as u8,
        },
    )
}

/// A slot of the given kind whose box is `b` on the grid of `node`.
pub open spec fn spec_slot(node: CwNode, b: Aabb, kind: SlotKind, index: u32, count: u32) -> Slot {
    Slot { kind, qmin: spec_quantize(node, b).0, qmax: spec_quantize(node, b).1, index, count }
}

/// Makes the slot for a child with box `b`, which lies within the box
/// `outer` that the grid of `node` was made for. The slot's box holds `b`
/// and reaches less than one grid step beyond it.
fn make_slot(
    node: &CwNode,
    Ghost(outer): Ghost<Aabb>,
    b: &Aabb,
    kind: SlotKind,
    index: u32,
    count: u32,
) -> (sl: Slot)
    requires
        grid_for(*node, outer),
        outer.contains(*b),
        b.valid(),
    ensures
        sl == spec_slot(*node, *b, kind, index, count),
        node.slot_fits(sl),
        node.spec_decompress(sl).contains(*b),
{
    let sx: i64 = step_of(node.ex);
    let sy: i64 = step_of(node.ey);
    let sz: i64 = step_of(node.ez);
    let nx: u8 = floor_cell(b.min.x, node.origin.x, sx);
    let ny: u8 = floor_cell(b.min.y, node.origin.y, sy);
    let nz: u8 = floor_cell(b.min.z, node.origin.z, sz);
    let mx: u8 = ceil_cell(b.max.x, node.origin.x, sx);
    let my: u8 = ceil_cell(b.max.y, node.origin.y, sy);
    let mz: u8 = ceil_cell(b.max.z, node.origin.z, sz);
    proof {
        lemma_cells_ordered(nx as int, mx as int, sx as int, node.origin.x as int, b.min.x as int, b.max.x as int);
        lemma_cells_ordered(ny as int, my as int, sy as int, node.origin.y as int, b.min.y as int, b.max.y as int);
        lemma_cells_ordered(nz as int, mz as int, sz as int, node.origin.z as int, b.min.z as int, b.max.z as int);
    }
    Slot {
        kind,
        qmin: GridPoint { x: nx, y: ny, z: nz },
        qmax: GridPoint { x: mx, y: my, z: mz },
        index,
        count,
    }
}

/// A grid line at or below the near side is not beyond one at or above the far
/// side.
pub proof fn lemma_cells_ordered(q: int, r: int, step: int, origin: int, lo: int, hi: int)
    by (nonlinear_arith)
    requires
        1 <= step,
        0 <= q,
        0 <= r,
        origin + q * step <= lo,
        lo <= hi,
        hi <= origin + r * step,
    ensures
        q <= r,
        0 <= q * step,
        0 <= r * step,
{
}

/// The box of the binary node `c`, or the empty box for `-1`.
pub open spec fn src_box(t: Bvh2, c: int) -> Aabb {
    if c >= 0 {
        t.nodes@[c].aabb
    } else {
        Aabb::spec_empty()
    }
}

/// The union of the boxes of the binary nodes `srcs[lo..hi]`.
pub open spec fn src_span(t: Bvh2, srcs: Seq<int>, lo: int, hi: int) -> Aabb
    decreases hi - lo,
{
    if hi <= lo {
        Aabb::spec_empty()
    } else {
        src_span(t, srcs, lo, hi - 1).spec_union(src_box(t, srcs[hi - 1]))
    }
}

/// The union over a range of slots is the union of the unions over its two
/// parts.
pub proof fn lemma_src_span_split(t: Bvh2, srcs: Seq<int>, lo: int, mid: int, hi: int)
    requires
        lo <= mid <= hi,
    ensures
        src_span(t, srcs, lo, hi) == src_span(t, srcs, lo, mid).spec_union(
            src_span(t, srcs, mid, hi),
        ),
    decreases hi - mid,
{
    if mid < hi {
        lemma_src_span_split(t, srcs, lo, mid, hi - 1);
        lemma_union_assoc(
            src_span(t, srcs, lo, mid),
            src_span(t, srcs, mid, hi - 1),
            src_box(t, srcs[hi - 1]),
        );
    }
}

/// The union over a range of slots is the same where the slots hold the same.
pub proof fn lemma_src_span_same(t: Bvh2, a: Seq<int>, b: Seq<int>, lo: int, hi: int)
    requires
        forall|s: int| lo <= s < hi ==> a[s] == b[s],
    ensures
        src_span(t, a, lo, hi) == src_span(t, b, lo, hi),
    decreases hi - lo,
{
    if lo < hi {
        lemma_src_span_same(t, a, b, lo, hi - 1);
    }
}

/// Where only the first slot of a range is used, the union over the range is the
/// box in that slot.
pub proof fn lemma_src_span_one(t: Bvh2, srcs: Seq<int>, lo: int, hi: int)
    requires
        lo < hi,
        forall|s: int| lo < s < hi ==> srcs[s] == -1,
    ensures
        src_span(t, srcs, lo, hi) == src_box(t, srcs[lo]),
    decreases hi - lo,
{
    if lo + 1 < hi {
        lemma_src_span_one(t, srcs, lo, hi - 1);
    } else {
        reveal_with_fuel(src_span, 2);
    }
}

/// The boxes of the references in the order of the hierarchy's list.
pub open spec fn flat_boxes(refs: Seq<u32>, boxes: Seq<Aabb>) -> Seq<Aabb> {
    Seq::new(refs.len(), |k: int| boxes[refs[k] as int])
}

/// The hull of a run of the flattened boxes is the hull of the same range of
/// references.
pub proof fn lemma_span_is_range(refs: Seq<u32>, boxes: Seq<Aabb>, first: int, count: int)
    requires
        0 <= first,
        first + count <= refs.len(),
    ensures
        span_hull(flat_boxes(refs, boxes), first, count) == range_hull(boxes, refs, first, count),
    decreases count,
{
    if count > 0 {
        lemma_span_is_range(refs, boxes, first, count - 1);
    }
}

/// The binary node that comes to stand in slot `s` when `x` and what is
/// below it are given the `room` slots from `base` on: `x` itself, in the
/// first of them, if it is a leaf or if there is one slot only; else what
/// the left child puts into the first half or the right child into the
/// second. `-1` where the slot stays empty.
pub open spec fn slot_source(t: Bvh2, x: int, room: int, base: int, s: int) -> int
    decreases room,
{
    if room <= 1 || t.nodes@[x].is_leaf() {
        if s == base {
            x
        } else {
            -1
        }
    } else if s < base + room / 2 {
        slot_source(t, t.nodes@[x].left as int, room / 2, base, s)
    } else {
        slot_source(t, t.nodes@[x].right as int, room / 2, base + room / 2, s)
    }
}

/// The binary node in slot `s` of the wide node that stands for the
/// internal node `b`: the left child of `b` and what is up to two levels
/// below it take the first four slots, the right child the other four.
pub open spec fn wide_source(t: Bvh2, b: int, s: int) -> int {
    if s < 4 {
        slot_source(t, t.nodes@[b].left as int, 4, 0, s)
    } else {
        slot_source(t, t.nodes@[b].right as int, 4, 4, s)
    }
}

/// What the proofs track while the binary hierarchy is collapsed.
struct Marks {
    /// Per binary node: 0 while untouched, 1 once it has a slot (or is the
    /// root), 2 once a wide node has taken it in.
    mark: Seq<int>,
    /// Per binary node: the wide node that stands for it, or -1.
    wide: Seq<int>,
    /// Per binary node with a slot: the wide node of the slot.
    at_node: Seq<int>,
    /// Per binary node with a slot: the slot.
    at_slot: Seq<int>,
    /// Per finished wide node and slot: the binary node in it, or -1.
    src: Seq<Seq<int>>,
    /// The same for the wide node in the making.
    cur: Seq<int>,
    /// Number of wide nodes finished or in the making.
    started: int,
    /// The binary nodes that wide nodes stand for.
    used: Set<int>,
}

/// The state of a collapse.
struct Collapse {
    /// Per wide node, the binary node that it stands for.
    queue: Vec<u32>,
    /// The finished wide nodes.
    nodes: Vec<CwNode>,
    /// The slots of the wide node in the making.
    slots: Vec<Slot>,
    /// The grid of the wide node in the making.
    frame: CwNode,
    marks: Ghost<Marks>,
}

impl Collapse {
    /// The children of `c` have been, or are being, given their places.
    spec fn done(self, c: int) -> bool {
        let m = self.marks@;
        m.mark[c] == 2 || (0 <= m.wide[c] < m.started)
    }

    /// The slot `sl`, slot `s` of wide node `i` with grid `node`, is what
    /// the binary node `c` asks for.
    spec fn slot_matches(self, t: Bvh2, node: CwNode, sl: Slot, c: int, i: int, s: int) -> bool {
        let m = self.marks@;
        if c < 0 {
            sl.kind == SlotKind::Empty && c == -1
        } else {
            &&& c < t.len()
            &&& c != t.root
            &&& m.mark[c] == 1
            &&& m.at_node[c] == i
            &&& m.at_slot[c] == s
            &&& node.slot_fits(sl)
            &&& node.spec_decompress(sl).contains(t.nodes@[c].aabb)
            &&& sl == spec_slot(node, t.nodes@[c].aabb, sl.kind, sl.index, sl.count)
            &&& if t.nodes@[c].is_leaf() {
                sl.kind == SlotKind::Leaf && sl.index == t.nodes@[c].first && sl.count
                    == t.nodes@[c].count
            } else {
                sl.kind == SlotKind::Internal && sl.index == m.wide[c] && m.wide[c] > i
            }
        }
    }

    spec fn inv_sizes(self, t: Bvh2) -> bool {
        let m = self.marks@;
        let n = t.len();
        &&& m.mark.len() == n
        &&& m.wide.len() == n
        &&& m.at_node.len() == n
        &&& m.at_slot.len() == n
        &&& m.src.len() == self.nodes@.len()
        &&& m.cur.len() == 8
        &&& self.slots@.len() == 8
        &&& self.queue@.len() >= 1
        &&& self.queue@[0] == t.root
        &&& self.nodes@.len() <= m.started <= self.nodes@.len() + 1
        &&& m.started <= self.queue@.len()
        &&& m.used.finite()
        &&& m.used.len() == self.queue@.len()
        &&& m.mark[t.root as int] == 1
        &&& self.frame.grid_ok()
    }

    spec fn inv_todo(self, t: Bvh2) -> bool {
        let m = self.marks@;
        let n = t.len();
        &&& forall|c: int| #[trigger] m.used.contains(c) ==> 0 <= c < n && m.wide[c] >= 0
        &&& forall|j: int|
            0 <= j < self.queue@.len() ==> {
                let c = #[trigger] self.queue@[j];
                &&& c < n
                &&& !t.nodes@[c as int].is_leaf()
                &&& m.wide[c as int] == j
                &&& m.mark[c as int] == 1
                &&& m.used.contains(c as int)
            }
        &&& forall|c: int|
            0 <= c < n ==> -1 <= #[trigger] m.wide[c] < self.queue@.len() && (m.wide[c] >= 0
                ==> self.queue@[m.wide[c]] == c)
    }

    spec fn mark_ok(self, t: Bvh2, c: int) -> bool {
        let m = self.marks@;
        &&& 0 <= m.mark[c] <= 2
        &&& m.mark[c] == 0 ==> m.wide[c] == -1
        &&& m.mark[c] == 2 ==> !t.nodes@[c].is_leaf() && m.wide[c] == -1
        &&& m.mark[c] == 1 && !t.nodes@[c].is_leaf() ==> m.wide[c] >= 0
        &&& m.mark[c] != 0 && c != t.root ==> self.done(t.parents@[c] as int)
        &&& m.mark[c] == 1 && c != t.root ==> {
            &&& 0 <= m.at_slot[c] < 8
            &&& (0 <= m.at_node[c] < self.nodes@.len() && m.src[m.at_node[c]][m.at_slot[c]] == c)
                || (m.at_node[c] == self.nodes@.len() && m.started == self.nodes@.len() + 1
                && m.cur[m.at_slot[c]] == c)
        }
    }

    spec fn inv_marks(self, t: Bvh2) -> bool {
        forall|c: int| 0 <= c < t.len() ==> #[trigger] self.mark_ok(t, c)
    }

    spec fn inv_slots(self, t: Bvh2) -> bool {
        let m = self.marks@;
        &&& forall|i: int, s: int|
            0 <= i < self.nodes@.len() && 0 <= s < 8 ==> #[trigger] self.slot_matches(
                t,
                self.nodes@[i],
                self.nodes@[i].slots@[s],
                m.src[i][s],
                i,
                s,
            )
        &&& forall|s: int|
            0 <= s < 8 ==> #[trigger] self.slot_matches(
                t,
                self.frame,
                self.slots@[s],
                m.cur[s],
                self.nodes@.len() as int,
                s,
            )
    }

    /// The finished wide node `i` has the grid for the box of its binary
    /// node, and its slots hold what makes up that box.
    spec fn cover_ok(self, t: Bvh2, i: int) -> bool {
        let m = self.marks@;
        &&& m.src[i].len() == 8
        &&& self.nodes@[i].grid_ok()
        &&& grid_for(self.nodes@[i], t.nodes@[self.queue@[i] as int].aabb)
        &&& src_span(t, m.src[i], 0, 8) == t.nodes@[self.queue@[i] as int].aabb
        &&& forall|s: int| 0 <= s < 8 ==> #[trigger] m.src[i][s] == wide_source(
            t,
            self.queue@[i] as int,
            s,
        )
    }

    spec fn inv_cover(self, t: Bvh2) -> bool {
        forall|i: int| 0 <= i < self.nodes@.len() ==> #[trigger] self.cover_ok(t, i)
    }

    spec fn inv(self, t: Bvh2) -> bool {
        &&& self.inv_sizes(t)
        &&& self.inv_todo(t)
        &&& self.inv_marks(t)
        &&& self.inv_slots(t)
        &&& self.inv_cover(t)
    }

    /// Gives the binary node `x` and what is below it the `room` slots
    /// from `base` on: `x` itself takes the first of them if it is a leaf
    /// or if there is one slot only; else its two children share them.
    fn fill(&mut self, t: &Bvh2, Ghost(outer): Ghost<Aabb>, x: u32, room: usize, base: usize)
        requires
            t.wf(),
            old(self).inv(*t),
            old(self).marks@.started == old(self).nodes@.len() + 1,
            grid_for(old(self).frame, outer),
            x < t.len(),
            x != t.root,
            old(self).marks@.mark[x as int] == 0,
            old(self).done(t.parents@[x as int] as int),
            outer.contains(t.nodes@[x as int].aabb),
            room == 1 || room == 2 || room == 4,
            base + room <= 8,
            forall|s: int| base <= s < base + room ==> old(self).marks@.cur[s] == -1,
        ensures
            final(self).inv(*t),
            final(self).nodes@ == old(self).nodes@,
            final(self).frame == old(self).frame,
            final(self).marks@.started == old(self).marks@.started,
            final(self).marks@.src == old(self).marks@.src,
            final(self).queue@.len() >= old(self).queue@.len(),
            forall|j: int|
                0 <= j < old(self).queue@.len() ==> #[trigger] final(self).queue@[j] == old(self).queue@[j],
            forall|c: int|
                0 <= c < t.len() && old(self).marks@.mark[c] != 0 ==> #[trigger] final(self).marks@.mark[c] == old(self).marks@.mark[c],
            forall|c: int|
                0 <= c < t.len() && c != x && #[trigger] final(self).marks@.mark[c] != old(self).marks@.mark[c] ==> c != t.root && old(self).marks@.mark[t.parents@[c] as int]
                    == 0,
            forall|c: int|
                0 <= c < t.len() && c != t.root && #[trigger] final(self).marks@.mark[c] == 0
                    && final(self).done(t.parents@[c] as int) ==> old(self).marks@.mark[c] == 0
                    && old(self).done(t.parents@[c] as int) && c != x,
            forall|s: int|
                0 <= s < 8 && !(base <= s < base + room) ==> #[trigger] final(self).marks@.cur[s]
                    == old(self).marks@.cur[s],
            src_span(*t, final(self).marks@.cur, base as int, base + room) == t.nodes@[x as int].aabb,
            forall|s: int|
                base <= s < base + room ==> #[trigger] final(self).marks@.cur[s] == slot_source(
                    *t,
                    x as int,
                    room as int,
                    base as int,
                    s,
                ),
        decreases room,
    {
        let node: Bvh2Node = t.nodes[x as usize];
        let ghost m0 = self.marks@;
        let ghost s0 = *self;
        proof {
            assert(s0.mark_ok(*t, x as int));
            let p = t.parents@[x as int] as int;
            assert(t.child_ok(x as int));
            assert(t.is_inner(p));
            assert(t.inner_ok(p));
            assert(p != x);
        }
        if node.count > 0 || room == 1 {
            let ghost m1;
            let slot: Slot;
            if node.count > 0 {
                slot = make_slot(
                    &self.frame,
                    Ghost(outer),
                    &node.aabb,
                    SlotKind::Leaf,
                    node.first,
                    node.count,
                );
                proof {
                    m1 = Marks {
                        mark: m0.mark.update(x as int, 1),
                        at_node: m0.at_node.update(x as int, self.nodes@.len() as int),
                        at_slot: m0.at_slot.update(x as int, base as int),
                        cur: m0.cur.update(base as int, x as int),
                        ..m0
                    };
                }
            } else {
                proof {
                    lemma_used_bound(m0.used.insert(x as int), t.len());
                    assert(!m0.used.contains(x as int));
                }
                let j: u32 = self.queue.len() as u32;
                self.queue.push(x);
                slot = make_slot(&self.frame, Ghost(outer), &node.aabb, SlotKind::Internal, j, 0);
                proof {
                    m1 = Marks {
                        mark: m0.mark.update(x as int, 1),
                        wide: m0.wide.update(x as int, j as int),
                        at_node: m0.at_node.update(x as int, self.nodes@.len() as int),
                        at_slot: m0.at_slot.update(x as int, base as int),
                        cur: m0.cur.update(base as int, x as int),
                        used: m0.used.insert(x as int),
                        ..m0
                    };
                }
            }
            self.slots.set(base, slot);
            self.marks = Ghost(m1);
            proof {
                let s1 = *self;
                assert(s1.inv_sizes(*t));
                assert(s1.inv_todo(*t)) by {
                    assert forall|j: int| 0 <= j < s1.queue@.len() implies ({
                        let c = #[trigger] s1.queue@[j];
                        &&& c < t.len()
                        &&& !t.nodes@[c as int].is_leaf()
                        &&& m1.wide[c as int] == j
                        &&& m1.mark[c as int] == 1
                        &&& m1.used.contains(c as int)
                    }) by {
                        if j < s0.queue@.len() {
                            assert(s1.queue@[j] == s0.queue@[j]);
                        }
                    }
                }
                assert forall|c: int| 0 <= c < t.len() implies #[trigger] s1.mark_ok(*t, c) by {
                    assert(s0.mark_ok(*t, c));
                    if c != x && c != t.root && m0.mark[c] != 0 {
                        let p = t.parents@[c] as int;
                        assert(t.child_ok(c));
                        assert(s0.done(p));
                        assert(p != x);
                    }
                }
                assert(s1.inv_marks(*t));
                assert forall|i: int, s: int|
                    0 <= i < s1.nodes@.len() && 0 <= s < 8 implies #[trigger] s1.slot_matches(
                    *t,
                    s1.nodes@[i],
                    s1.nodes@[i].slots@[s],
                    m1.src[i][s],
                    i,
                    s,
                ) by {
                    assert(s0.slot_matches(*t, s0.nodes@[i], s0.nodes@[i].slots@[s], m0.src[i][s], i, s));
                }
                assert forall|s: int| 0 <= s < 8 implies #[trigger] s1.slot_matches(
                    *t,
                    s1.frame,
                    s1.slots@[s],
                    m1.cur[s],
                    s1.nodes@.len() as int,
                    s,
                ) by {
                    assert(s0.slot_matches(*t, s0.frame, s0.slots@[s], m0.cur[s], s0.nodes@.len() as int, s));
                }
                assert(s1.inv_slots(*t));
                assert forall|i: int| 0 <= i < s1.nodes@.len() implies #[trigger] s1.cover_ok(
                    *t,
                    i,
                ) by {
                    assert(s0.cover_ok(*t, i));
                    assert(s1.queue@[i] == s0.queue@[i]);
                }
                assert(s1.inv_cover(*t));
                lemma_src_span_one(*t, m1.cur, base as int, base + room);
                assert forall|c: int|
                    0 <= c < t.len() && c != t.root && #[trigger] m1.mark[c] == 0 && s1.done(
                        t.parents@[c] as int,
                    ) implies m0.mark[c] == 0 && s0.done(t.parents@[c] as int) && c != x by {
                    assert(t.child_ok(c));
                }
            }
        } else {
            let ghost m1 = Marks { mark: m0.mark.update(x as int, 2), ..m0 };
            self.marks = Ghost(m1);
            let ghost s1 = *self;
            let l: u32 = node.left;
            let r: u32 = node.right;
            let half: usize = room / 2;
            proof {
                assert(t.is_inner(x as int));
                assert(t.inner_ok(x as int));
                assert(t.tight_at(x as int));
                lemma_union_is_least(t.nodes@[l as int].aabb, t.nodes@[r as int].aabb);
                assert(s0.mark_ok(*t, l as int));
                assert(s0.mark_ok(*t, r as int));
                assert(s1.inv_sizes(*t));
                assert(s1.inv_todo(*t));
                assert forall|c: int| 0 <= c < t.len() implies #[trigger] s1.mark_ok(*t, c) by {
                    assert(s0.mark_ok(*t, c));
                    if c != t.root {
                        assert(t.child_ok(c));
                    }
                }
                assert forall|i: int, s: int|
                    0 <= i < s1.nodes@.len() && 0 <= s < 8 implies #[trigger] s1.slot_matches(
                    *t,
                    s1.nodes@[i],
                    s1.nodes@[i].slots@[s],
                    m1.src[i][s],
                    i,
                    s,
                ) by {
                    assert(s0.slot_matches(*t, s0.nodes@[i], s0.nodes@[i].slots@[s], m0.src[i][s], i, s));
                }
                assert forall|s: int| 0 <= s < 8 implies #[trigger] s1.slot_matches(
                    *t,
                    s1.frame,
                    s1.slots@[s],
                    m1.cur[s],
                    s1.nodes@.len() as int,
                    s,
                ) by {
                    assert(s0.slot_matches(*t, s0.frame, s0.slots@[s], m0.cur[s], s0.nodes@.len() as int, s));
                }
                assert forall|i: int| 0 <= i < s1.nodes@.len() implies #[trigger] s1.cover_ok(
                    *t,
                    i,
                ) by {
                    assert(s0.cover_ok(*t, i));
                }
                assert(s1.inv_cover(*t));
                assert(s1.done(x as int));
            }
            self.fill(t, Ghost(outer), l, half, base);
            let ghost s2 = *self;
            let ghost m2 = self.marks@;
            proof {
                assert(m2.mark[x as int] == 2);
                assert(m2.mark[r as int] == 0);
                assert(s2.done(x as int));
            }
            self.fill(t, Ghost(outer), r, half, base + half);
            proof {
                let s3 = *self;
                let m3 = self.marks@;
                lemma_src_span_split(*t, m3.cur, base as int, base + half, base + room);
                lemma_src_span_same(*t, m2.cur, m3.cur, base as int, base + half);
                assert forall|c: int|
                    0 <= c < t.len() && c != t.root && #[trigger] m3.mark[c] == 0 && s3.done(
                        t.parents@[c] as int,
                    ) implies m0.mark[c] == 0 && s0.done(t.parents@[c] as int) && c != x by {
                    assert(m2.mark[c] == 0 && s2.done(t.parents@[c] as int) && c != r);
                    assert(m1.mark[c] == 0 && s1.done(t.parents@[c] as int) && c != l);
                    assert(t.child_ok(c));
                }
                assert forall|c: int|
                    0 <= c < t.len() && c != x && #[trigger] m3.mark[c] != m0.mark[c] implies c
                    != t.root && m0.mark[t.parents@[c] as int] == 0 by {
                    assert(t.child_ok(c) || c == t.root);
                    if m3.mark[c] != m2.mark[c] {
                        if c != r {
                            assert(m2.mark[t.parents@[c] as int] == 0);
                        }
                    } else {
                        assert(m2.mark[c] != m1.mark[c]);
                        if c != l {
                            assert(m1.mark[t.parents@[c] as int] == 0);
                        }
                    }
                }
            }
        }
    }
}

/// A finite set of numbers from 0 up to `n` has at most `n` elements.
proof fn lemma_used_bound(used: Set<int>, n: int)
    requires
        0 <= n,
        forall|c: int| used.contains(c) ==> 0 <= c < n,
    ensures
        used.finite(),
        used.len() <= n,
{
    vstd::set_lib::lemma_int_range(0, n);
    assert(used.subset_of(vstd::set_lib::set_int_range(0, n)));
    vstd::set_lib::lemma_len_subset(used, vstd::set_lib::set_int_range(0, n));
}

/// Eight empty slots.
fn vacant_slots() -> (v: Vec<Slot>)
    ensures
        v@.len() == 8,
        forall|s: int| 0 <= s < 8 ==> (#[trigger] v@[s]).kind == SlotKind::Empty,
{
    let e = Slot::vacant();
    let mut v: Vec<Slot> = Vec::new();
    v.push(e);
    v.push(e);
    v.push(e);
    v.push(e);
    v.push(e);
    v.push(e);
    v.push(e);
    v.push(e);
    v
}

/// No untouched node has a parent whose children have their places.
spec fn settled(b: Collapse, t: Bvh2) -> bool {
    forall|c: int|
        0 <= c < t.len() && c != t.root && #[trigger] b.marks@.mark[c] == 0 ==> !b.done(
            t.parents@[c] as int,
        )
}

/// Once every wide node is finished, every binary node has been touched.
proof fn lemma_all_touched(b: Collapse, t: Bvh2, c: int)
    requires
        t.wf(),
        b.inv(t),
        b.marks@.started == b.queue@.len(),
        settled(b, t),
        0 <= c < t.len(),
    ensures
        b.marks@.mark[c] != 0,
    decreases t.shape@.cap - t.shape@.height[c],
{
    if c != t.root {
        let p = t.parents@[c] as int;
        assert(t.child_ok(c));
        assert(t.is_inner(p));
        assert(t.inner_ok(p));
        assert(t.shape@.height[p] <= t.shape@.cap);
        lemma_all_touched(b, t, p);
        assert(b.mark_ok(t, p));
        assert(b.done(p));
    }
}

/// In the finished hierarchy, the references below a slot have the box of
/// the binary node in the slot as their hull.
proof fn lemma_slot_hull(cw: CwBvh, b: Collapse, t: Bvh2, boxes: Seq<Aabb>, i: int, s: int)
    requires
        t.wf(),
        t.bounds(boxes),
        b.inv(t),
        b.nodes@ == cw.nodes@,
        b.nodes@.len() == b.queue@.len(),
        0 <= i < cw.len(),
        0 <= s < 8,
    ensures
        cw.slot_hull(flat_boxes(t.refs@, boxes), i, s) == src_box(t, b.marks@.src[i][s]),
    decreases cw.len() - i, 0int,
{
    let c = b.marks@.src[i][s];
    let sl = cw.slot(i, s);
    assert(b.slot_matches(t, b.nodes@[i], b.nodes@[i].slots@[s], c, i, s));
    if c >= 0 {
        if t.nodes@[c].is_leaf() {
            lemma_span_is_range(t.refs@, boxes, sl.index as int, sl.count as int);
        } else {
            let j = b.marks@.wide[c];
            lemma_node_hull(cw, b, t, boxes, j, 8);
            assert(b.cover_ok(t, j));
        }
    }
}

/// In the finished hierarchy, the references below the first `upto` slots
/// of a node have the union of the boxes of the binary nodes in these
/// slots as their hull.
proof fn lemma_node_hull(cw: CwBvh, b: Collapse, t: Bvh2, boxes: Seq<Aabb>, j: int, upto: int)
    requires
        t.wf(),
        t.bounds(boxes),
        b.inv(t),
        b.nodes@ == cw.nodes@,
        b.nodes@.len() == b.queue@.len(),
        0 <= j < cw.len(),
        0 <= upto <= 8,
    ensures
        cw.node_hull(flat_boxes(t.refs@, boxes), j, upto) == src_span(t, b.marks@.src[j], 0, upto),
    decreases cw.len() - j, upto,
{
    if upto > 0 {
        lemma_node_hull(cw, b, t, boxes, j, upto - 1);
        lemma_slot_hull(cw, b, t, boxes, j, upto - 1);
    }
}

/// The grid of every node is the grid for the hull of the references
/// below it, and the box of every used slot is the hull of the references
/// below the slot, rounded outward to that grid.
pub open spec fn exactly_quantized(cw: CwBvh, flat: Seq<Aabb>) -> bool {
    &&& forall|j: int|
        0 <= j < cw.len() ==> grid_for(#[trigger] cw.nodes@[j], cw.node_hull(flat, j, WIDTH as int))
    &&& forall|i: int, s: int|
        cw.is_slot(i, s) && (#[trigger] cw.slot(i, s)).kind != SlotKind::Empty ==> {
            &&& cw.slot(i, s).qmin == spec_quantize(cw.nodes@[i], cw.slot_hull(flat, i, s)).0
            &&& cw.slot(i, s).qmax == spec_quantize(cw.nodes@[i], cw.slot_hull(flat, i, s)).1
        }
}

/// Slot `s` of node `j` holds the binary node `c`: it is empty for `-1`,
/// the leaf itself for a leaf, and for an internal node the wide node
/// that stands for it.
pub open spec fn slot_holds(cw: CwBvh, t: Bvh2, j: int, s: int, c: int) -> bool {
    let sl = cw.slot(j, s);
    if c < 0 {
        sl.kind == SlotKind::Empty
    } else if t.nodes@[c].is_leaf() {
        sl.kind == SlotKind::Leaf && sl.index == t.nodes@[c].first && sl.count
            == t.nodes@[c].count
    } else {
        sl.kind == SlotKind::Internal && 0 <= sl.index < cw.len() && cw.shape@.origin[sl.index as int]
            == c
    }
}

/// What the collapse of the binary hierarchy `t` over `refs` is: a sound
/// wide hierarchy that lists the primitives in the order of `t`, keeps
/// every leaf of `t` as one leaf slot, and bounds everything below each
/// slot by a box rounded outward.
pub open spec fn collapsed(cw: CwBvh, t: Bvh2, refs: Seq<PrimitiveReference>) -> bool {
    let flat = flat_boxes(t.refs@, boxes_of(refs));
    &&& cw.wf()
    &&& cw.primitive_indices@.len() == t.refs@.len()
    &&& forall|k: int|
        0 <= k < t.refs@.len() ==> #[trigger] cw.primitive_indices@[k] == refs[t.refs@[k] as int].index
    &&& forall|l: int|
        0 <= l < t.len() && (#[trigger] t.nodes@[l]).is_leaf() ==> {
            let (i, s) = cw.shape@.owner[t.nodes@[l].first as int];
            cw.slot(i, s).index == t.nodes@[l].first && cw.slot(i, s).count == t.nodes@[l].count
        }
    &&& cw.shape@.boxes == flat
    &&& cw.shape@.origin.len() == cw.len()
    &&& cw.shape@.origin[0] == t.root
    &&& !t.nodes@[t.root as int].is_leaf() ==> forall|j: int, s: int|
        cw.is_slot(j, s) ==> #[trigger] slot_holds(
            cw,
            t,
            j,
            s,
            wide_source(t, cw.shape@.origin[j], s),
        )
    &&& cw.conservative(flat)
    &&& exactly_quantized(cw, flat)
    &&& cw.node_hull(flat, 0, WIDTH as int) == t.nodes@[t.root as int].aabb
    &&& t.nodes@[t.root as int].is_leaf() ==> cw.len() == 1 && cw.slot(0, 0).kind == SlotKind::Leaf
        && forall|s: int| 1 <= s < WIDTH ==> (#[trigger] cw.slot(0, s)).kind == SlotKind::Empty
}

/// The primitive of every reference, in the order of the hierarchy's list.
fn flatten(t: &Bvh2, references: &Vec<PrimitiveReference>) -> (prims: Vec<u32>)
    requires
        t.wf(),
        references@.len() == t.refs@.len(),
    ensures
        prims@.len() == t.refs@.len(),
        forall|k: int|
            0 <= k < t.refs@.len() ==> #[trigger] prims@[k] == references@[t.refs@[k] as int].index,
{
    let mut prims: Vec<u32> = Vec::new();
    let mut k: usize = 0;
    while k < t.refs.len()
        invariant
            t.wf(),
            references@.len() == t.refs@.len(),
            k <= t.refs@.len(),
            prims@.len() == k,
            forall|j: int|
                0 <= j < k ==> #[trigger] prims@[j] == references@[t.refs@[j] as int].index,
        decreases t.refs@.len() - k,
    {
        let r: u32 = t.refs[k];
        assert(t.refs@[k as int] < t.refs@.len());
        prims.push(references[r as usize].index);
        k = k + 1;
    }
    prims
}

/// The wide hierarchy of a binary hierarchy that is one leaf: one node
/// with the leaf in its first slot.
fn collapse_leaf(t: &Bvh2, references: &Vec<PrimitiveReference>) -> (cw: CwBvh)
    requires
        t.wf(),
        t.bounds(boxes_of(references@)),
        t.nodes@[t.root as int].is_leaf(),
    ensures
        collapsed(cw, *t, references@),
        cw.capped(t.nodes@[t.root as int].count as int),
{
    let prims = flatten(t, references);
    let root = t.nodes[t.root as usize];
    let frame = frame_for(&root.aabb);
    let first = make_slot(&frame, Ghost(root.aabb), &root.aabb, SlotKind::Leaf, root.first, root.count);
    let v = Slot::vacant();
    let node = CwNode {
        origin: frame.origin,
        ex: frame.ex,
        ey: frame.ey,
        ez: frame.ez,
        slots: [first, v, v, v, v, v, v, v],
    };
    let mut nodes: Vec<CwNode> = Vec::new();
    nodes.push(node);
    let ghost shape = CwShape {
        owner: Seq::new(prims@.len(), |k: int| (0int, 0int)),
        up: Seq::new(1, |j: int| (0int, 0int)),
        boxes: flat_boxes(t.refs@, boxes_of(references@)),
        origin: Seq::new(1, |j: int| t.root as int),
    };
    let cw = CwBvh { nodes, primitive_indices: prims, shape: Ghost(shape) };
    proof {
        let boxes = boxes_of(references@);
        let flat = flat_boxes(t.refs@, boxes);
        assert(cw.slot(0, 0) == first);
        assert forall|s: int| 1 <= s < WIDTH implies (#[trigger] cw.slot(0, s)).kind
            == SlotKind::Empty by {}
        assert forall|k: int| 0 <= k < t.refs@.len() implies (#[trigger] t.shape@.leaf_of[k])
            == t.root by {
            let l = t.shape@.leaf_of[k];
            lemma_root_leaf_alone(*t, l);
        }
        assert forall|i: int, s: int| cw.is_slot(i, s) implies #[trigger] cw.slot_ok(i, s) by {
            if s > 0 {
                assert(cw.slot(0, s).kind == SlotKind::Empty);
            }
        }
        assert(cw.nodes@[0] == node);
        assert(node.grid_ok());
        assert forall|k: int| 0 <= k < cw.primitive_indices@.len() implies ({
            let (i, s) = #[trigger] cw.shape@.owner[k];
            &&& cw.is_slot(i, s)
            &&& cw.slot(i, s).kind == SlotKind::Leaf
            &&& cw.slot(i, s).index <= k < cw.slot(i, s).index + cw.slot(i, s).count
        }) by {
            assert(t.shape@.leaf_of[k] == t.root);
        }
        assert(cw.wf());
        lemma_span_is_range(t.refs@, boxes, root.first as int, root.count as int);
        assert(cw.slot_hull(flat, 0, 0) == root.aabb);
        assert forall|i: int, s: int| cw.is_slot(i, s) implies #[trigger] cw.slot_conservative(
            flat,
            i,
            s,
        ) by {
            if s > 0 {
                assert(cw.slot(0, s).kind == SlotKind::Empty);
            }
        }
        assert(cw.node_hull(flat, 0, 8) == root.aabb) by {
            reveal_with_fuel(CwBvh::node_hull, 9);
            assert forall|s: int| 1 <= s < 8 implies cw.slot_hull(flat, 0, s)
                == Aabb::spec_empty() by {
                assert(cw.slot(0, s).kind == SlotKind::Empty);
            }
        }
        assert forall|l: int| 0 <= l < t.len() && (#[trigger] t.nodes@[l]).is_leaf() implies ({
            let (i, s) = cw.shape@.owner[t.nodes@[l].first as int];
            cw.slot(i, s).index == t.nodes@[l].first && cw.slot(i, s).count == t.nodes@[l].count
        }) by {
            lemma_root_leaf_alone(*t, l);
        }
        assert forall|i: int, s: int|
            cw.is_slot(i, s) && (#[trigger] cw.slot(i, s)).kind != SlotKind::Empty implies ({
            &&& cw.slot(i, s).qmin == spec_quantize(cw.nodes@[i], cw.slot_hull(flat, i, s)).0
            &&& cw.slot(i, s).qmax == spec_quantize(cw.nodes@[i], cw.slot_hull(flat, i, s)).1
        }) by {
            if s > 0 {
                assert(cw.slot(0, s).kind == SlotKind::Empty);
            }
        }
    }
    cw
}

/// The hierarchy made of the finished wide nodes is the collapse of `t`.
proof fn lemma_assembled(cw: CwBvh, b: Collapse, t: Bvh2, refs: Seq<PrimitiveReference>, cap: int)
    requires
        t.wf(),
        t.bounds(boxes_of(refs)),
        leaves_capped(t, cap),
        !t.nodes@[t.root as int].is_leaf(),
        b.inv(t),
        settled(b, t),
        b.nodes@.len() == b.queue@.len(),
        b.marks@.started == b.queue@.len(),
        cw.nodes@ == b.nodes@,
        cw.primitive_indices@.len() == t.refs@.len(),
        forall|k: int|
            0 <= k < t.refs@.len() ==> #[trigger] cw.primitive_indices@[k] == refs[t.refs@[k] as int].index,
        cw.shape@.owner == Seq::new(
            t.refs@.len(),
            |k: int| (b.marks@.at_node[t.shape@.leaf_of[k]], b.marks@.at_slot[t.shape@.leaf_of[k]]),
        ),
        cw.shape@.up == Seq::new(
            b.queue@.len(),
            |j: int| (b.marks@.at_node[b.queue@[j] as int], b.marks@.at_slot[b.queue@[j] as int]),
        ),
        cw.shape@.boxes == flat_boxes(t.refs@, boxes_of(refs)),
        cw.shape@.origin == Seq::new(b.queue@.len(), |j: int| b.queue@[j] as int),
    ensures
        collapsed(cw, t, refs),
        cw.capped(cap),
{
    let m = b.marks@;
    let boxes = boxes_of(refs);
    let flat = flat_boxes(t.refs@, boxes);
    lemma_used_bound(m.used, t.len());
    assert forall|c: int| 0 <= c < t.len() && m.mark[c] == 1 && c != t.root implies ({
        let i = m.at_node[c];
        let s = m.at_slot[c];
        &&& cw.is_slot(i, s)
        &&& m.src[i][s] == c
        &&& b.slot_matches(t, b.nodes@[i], b.nodes@[i].slots@[s], c, i, s)
    }) by {
        assert(b.mark_ok(t, c));
    }
    assert forall|i: int, s: int| cw.is_slot(i, s) implies #[trigger] cw.slot_ok(i, s) by {
        let c = m.src[i][s];
        assert(b.slot_matches(t, b.nodes@[i], b.nodes@[i].slots@[s], c, i, s));
        if c >= 0 {
            if t.nodes@[c].is_leaf() {
                let sl = cw.slot(i, s);
                assert forall|k: int| sl.index <= k < sl.index + sl.count implies #[trigger] cw.shape@.owner[k]
                    == (i, s) by {
                    assert(t.shape@.leaf_of[k] == c);
                }
            } else {
                let j = m.wide[c];
                assert(b.queue@[j] == c);
            }
        }
    }
    assert forall|j: int| 0 <= j < cw.len() implies (#[trigger] cw.nodes@[j]).grid_ok() by {
        assert(b.cover_ok(t, j));
    }
    assert forall|j: int| 1 <= j < cw.len() implies ({
        let (i, s) = #[trigger] cw.shape@.up[j];
        &&& cw.is_slot(i, s)
        &&& cw.slot(i, s).kind == SlotKind::Internal
        &&& cw.slot(i, s).index == j
    }) by {
        let c = b.queue@[j] as int;
        assert(m.wide[c] == j);
        assert(m.wide[t.root as int] == 0) by {
            assert(b.queue@[0] == t.root);
        }
    }
    assert forall|k: int| 0 <= k < cw.primitive_indices@.len() implies ({
        let (i, s) = #[trigger] cw.shape@.owner[k];
        &&& cw.is_slot(i, s)
        &&& cw.slot(i, s).kind == SlotKind::Leaf
        &&& cw.slot(i, s).index <= k < cw.slot(i, s).index + cw.slot(i, s).count
    }) by {
        let l = t.shape@.leaf_of[k];
        lemma_all_touched(b, t, l);
        assert(b.mark_ok(t, l));
    }
    assert(cw.wf());
    assert forall|i: int, s: int|
        cw.is_slot(i, s) && (#[trigger] cw.slot(i, s)).kind == SlotKind::Leaf implies cw.slot(
        i,
        s,
    ).count <= cap by {
        let c = m.src[i][s];
        assert(b.slot_matches(t, b.nodes@[i], b.nodes@[i].slots@[s], c, i, s));
        assert(t.nodes@[c].count <= cap);
    }
    assert forall|i: int, s: int| cw.is_slot(i, s) implies #[trigger] cw.slot_conservative(
        flat,
        i,
        s,
    ) by {
        let c = m.src[i][s];
        assert(b.slot_matches(t, b.nodes@[i], b.nodes@[i].slots@[s], c, i, s));
        lemma_slot_hull(cw, b, t, boxes, i, s);
    }
    assert forall|j: int| 0 <= j < cw.len() implies grid_for(
        #[trigger] cw.nodes@[j],
        cw.node_hull(flat, j, WIDTH as int),
    ) by {
        lemma_node_hull(cw, b, t, boxes, j, 8);
        assert(b.cover_ok(t, j));
    }
    assert forall|i: int, s: int|
        cw.is_slot(i, s) && (#[trigger] cw.slot(i, s)).kind != SlotKind::Empty implies ({
        &&& cw.slot(i, s).qmin == spec_quantize(cw.nodes@[i], cw.slot_hull(flat, i, s)).0
        &&& cw.slot(i, s).qmax == spec_quantize(cw.nodes@[i], cw.slot_hull(flat, i, s)).1
    }) by {
        let c = m.src[i][s];
        assert(b.slot_matches(t, b.nodes@[i], b.nodes@[i].slots@[s], c, i, s));
        lemma_slot_hull(cw, b, t, boxes, i, s);
    }
    assert(exactly_quantized(cw, flat));
    assert forall|j: int, s: int| cw.is_slot(j, s) implies #[trigger] slot_holds(
        cw,
        t,
        j,
        s,
        wide_source(t, cw.shape@.origin[j], s),
    ) by {
        assert(b.cover_ok(t, j));
        let c = m.src[j][s];
        assert(b.slot_matches(t, b.nodes@[j], b.nodes@[j].slots@[s], c, j, s));
        if c >= 0 && !t.nodes@[c].is_leaf() {
            assert(b.queue@[m.wide[c]] == c);
        }
    }
    lemma_node_hull(cw, b, t, boxes, 0, 8);
    assert(b.cover_ok(t, 0));
    assert forall|l: int| 0 <= l < t.len() && (#[trigger] t.nodes@[l]).is_leaf() implies ({
        let (i, s) = cw.shape@.owner[t.nodes@[l].first as int];
        cw.slot(i, s).index == t.nodes@[l].first && cw.slot(i, s).count == t.nodes@[l].count
    }) by {
        let k = t.nodes@[l].first as int;
        assert(t.shape@.leaf_of[k] == l);
        lemma_all_touched(b, t, l);
        assert(b.mark_ok(t, l));
    }
}

/// The wide hierarchy of a binary hierarchy whose root is an internal
/// node.
fn collapse_tree(t: &Bvh2, references: &Vec<PrimitiveReference>, Ghost(cap): Ghost<int>) -> (cw:
    CwBvh)
    requires
        t.wf(),
        t.bounds(boxes_of(references@)),
        leaves_capped(*t, cap),
        !t.nodes@[t.root as int].is_leaf(),
    ensures
        collapsed(cw, *t, references@),
        cw.capped(cap),
{
    let prims = flatten(t, references);
    let root: u32 = t.root;
    let ghost n = t.len();
    let ghost m_init = Marks {
        mark: Seq::new(n as nat, |c: int| if c == root { 1int } else { 0int }),
        wide: Seq::new(n as nat, |c: int| if c == root { 0int } else { -1int }),
        at_node: Seq::new(n as nat, |c: int| 0int),
        at_slot: Seq::new(n as nat, |c: int| 0int),
        src: Seq::empty(),
        cur: Seq::new(8, |s: int| -1int),
        started: 0,
        used: Set::empty().insert(root as int),
    };
    let mut queue: Vec<u32> = Vec::new();
    queue.push(root);
    let mut b = Collapse {
        queue,
        nodes: Vec::new(),
        slots: vacant_slots(),
        frame: frame_for(&t.nodes[root as usize].aabb),
        marks: Ghost(m_init),
    };
    proof {
        assert(b.inv_sizes(*t));
        assert(b.inv_todo(*t));
        assert forall|c: int| 0 <= c < t.len() implies #[trigger] b.mark_ok(*t, c) by {}
        assert(b.inv_slots(*t));
        assert(b.inv_cover(*t));
        assert forall|c: int|
            0 <= c < t.len() && c != t.root && #[trigger] b.marks@.mark[c] == 0 implies !b.done(
            t.parents@[c] as int,
        ) by {
            assert(t.child_ok(c));
        }
    }
    while b.nodes.len() < b.queue.len()
        invariant
            t.wf(),
            b.inv(*t),
            b.marks@.started == b.nodes@.len(),
            settled(b, *t),
            forall|s: int| 0 <= s < 8 ==> b.marks@.cur[s] == -1,
        decreases t.len() - b.nodes@.len(),
    {
        let ghost s0 = b;
        let i: usize = b.nodes.len();
        let x: u32 = b.queue[i];
        let bn = t.nodes[x as usize];
        let frame = frame_for(&bn.aabb);
        b.frame = frame;
        proof {
            lemma_used_bound(b.marks@.used, t.len());
        }
        let ghost m0 = b.marks@;
        b.marks = Ghost(Marks { started: m0.started + 1, ..m0 });
        let ghost s1 = b;
        let l: u32 = bn.left;
        let r: u32 = bn.right;
        proof {
            assert(t.is_inner(x as int));
            assert(t.inner_ok(x as int));
            assert(t.tight_at(x as int));
            lemma_union_is_least(t.nodes@[l as int].aabb, t.nodes@[r as int].aabb);
            assert(s0.mark_ok(*t, l as int));
            assert(s0.mark_ok(*t, r as int));
            assert(s0.mark_ok(*t, x as int));
            assert(!s0.done(x as int));
            assert(s1.inv_sizes(*t));
            assert(s1.inv_todo(*t));
            assert forall|c: int| 0 <= c < t.len() implies #[trigger] s1.mark_ok(*t, c) by {
                assert(s0.mark_ok(*t, c));
                if c != t.root {
                    assert(t.child_ok(c));
                }
            }
            assert forall|i2: int, s: int|
                0 <= i2 < s1.nodes@.len() && 0 <= s < 8 implies #[trigger] s1.slot_matches(
                *t,
                s1.nodes@[i2],
                s1.nodes@[i2].slots@[s],
                s1.marks@.src[i2][s],
                i2,
                s,
            ) by {
                assert(s0.slot_matches(
                    *t,
                    s0.nodes@[i2],
                    s0.nodes@[i2].slots@[s],
                    s0.marks@.src[i2][s],
                    i2,
                    s,
                ));
            }
            assert forall|s: int| 0 <= s < 8 implies #[trigger] s1.slot_matches(
                *t,
                s1.frame,
                s1.slots@[s],
                s1.marks@.cur[s],
                s1.nodes@.len() as int,
                s,
            ) by {
                assert(s0.slot_matches(
                    *t,
                    s0.frame,
                    s0.slots@[s],
                    s0.marks@.cur[s],
                    s0.nodes@.len() as int,
                    s,
                ));
            }
            assert forall|i2: int| 0 <= i2 < s1.nodes@.len() implies #[trigger] s1.cover_ok(
                *t,
                i2,
            ) by {
                assert(s0.cover_ok(*t, i2));
            }
            assert(s1.inv_cover(*t));
            assert(s1.done(x as int));
        }
        b.fill(t, Ghost(bn.aabb), l, 4, 0);
        let ghost s2 = b;
        proof {
            assert(s2.marks@.mark[x as int] == 1);
            assert(s2.marks@.mark[r as int] == 0);
            assert(s2.queue@[i as int] == x);
            assert(s2.marks@.wide[x as int] == i);
            assert(s2.done(x as int));
        }
        b.fill(t, Ghost(bn.aabb), r, 4, 4);
        let ghost s3 = b;
        let node = CwNode {
            origin: frame.origin,
            ex: frame.ex,
            ey: frame.ey,
            ez: frame.ez,
            slots: [
                b.slots[0],
                b.slots[1],
                b.slots[2],
                b.slots[3],
                b.slots[4],
                b.slots[5],
                b.slots[6],
                b.slots[7],
            ],
        };
        b.nodes.push(node);
        b.slots = vacant_slots();
        let ghost m3 = b.marks@;
        b.marks = Ghost(Marks { src: m3.src.push(m3.cur), cur: Seq::new(8, |s: int| -1int), ..m3 });
        proof {
            let s4 = b;
            let m4 = b.marks@;
            lemma_src_span_split(*t, m3.cur, 0, 4, 8);
            lemma_src_span_same(*t, s2.marks@.cur, m3.cur, 0, 4);
            assert(s4.inv_sizes(*t));
            assert(s4.inv_todo(*t));
            assert forall|c: int| 0 <= c < t.len() implies #[trigger] s4.mark_ok(*t, c) by {
                assert(s3.mark_ok(*t, c));
                if c != t.root {
                    assert(t.child_ok(c));
                }
            }
            assert forall|i2: int, s: int|
                0 <= i2 < s4.nodes@.len() && 0 <= s < 8 implies #[trigger] s4.slot_matches(
                *t,
                s4.nodes@[i2],
                s4.nodes@[i2].slots@[s],
                m4.src[i2][s],
                i2,
                s,
            ) by {
                if i2 < i {
                    assert(s3.slot_matches(
                        *t,
                        s3.nodes@[i2],
                        s3.nodes@[i2].slots@[s],
                        m3.src[i2][s],
                        i2,
                        s,
                    ));
                } else {
                    assert(s3.slot_matches(*t, s3.frame, s3.slots@[s], m3.cur[s], i as int, s));
                    assert(node.slots@[s] == s3.slots@[s]);
                }
            }
            assert forall|s: int| 0 <= s < 8 implies #[trigger] s4.slot_matches(
                *t,
                s4.frame,
                s4.slots@[s],
                m4.cur[s],
                s4.nodes@.len() as int,
                s,
            ) by {}
            assert forall|i2: int| 0 <= i2 < s4.nodes@.len() implies #[trigger] s4.cover_ok(
                *t,
                i2,
            ) by {
                if i2 < i {
                    assert(s3.cover_ok(*t, i2));
                    assert(s4.queue@[i2] == s3.queue@[i2]);
                } else {
                    assert(s3.queue@[i as int] == x);
                    assert forall|s: int| 0 <= s < 8 implies #[trigger] m4.src[i2][s]
                        == wide_source(*t, x as int, s) by {
                        if s < 4 {
                            assert(m3.cur[s] == s2.marks@.cur[s]);
                        }
                    }
                }
            }
            assert forall|c: int|
                0 <= c < t.len() && c != t.root && #[trigger] m4.mark[c] == 0 implies !s4.done(
                t.parents@[c] as int,
            ) by {
                if s4.done(t.parents@[c] as int) {
                    assert(s3.done(t.parents@[c] as int));
                    assert(s2.marks@.mark[c] == 0 && s2.done(t.parents@[c] as int) && c != r);
                    assert(s1.marks@.mark[c] == 0 && s1.done(t.parents@[c] as int) && c != l);
                    assert(t.child_ok(c));
                    assert(s0.marks@.mark[c] == 0);
                }
            }
        }
    }
    let ghost shape = CwShape {
        owner: Seq::new(
            t.refs@.len(),
            |k: int| (b.marks@.at_node[t.shape@.leaf_of[k]], b.marks@.at_slot[t.shape@.leaf_of[k]]),
        ),
        up: Seq::new(
            b.queue@.len(),
            |j: int| (b.marks@.at_node[b.queue@[j] as int], b.marks@.at_slot[b.queue@[j] as int]),
        ),
        boxes: flat_boxes(t.refs@, boxes_of(references@)),
        origin: Seq::new(b.queue@.len(), |j: int| b.queue@[j] as int),
    };
    let ghost fin = b;
    let Collapse { nodes, .. } = b;
    let cw = CwBvh { nodes, primitive_indices: prims, shape: Ghost(shape) };
    proof {
        lemma_assembled(cw, fin, *t, references@, cap);
    }
    cw
}

/// Collapses a binary hierarchy whose leaves are within the leaf
/// capacity.
pub fn collapse(bvh2: &Bvh2, references: &Vec<PrimitiveReference>, max_prims_per_leaf: u32) -> (cw:
    CwBvh)
    requires
        bvh2.wf(),
        bvh2.bounds(boxes_of(references@)),
        leaves_capped(*bvh2, max_prims_per_leaf as int),
    ensures
        collapsed(cw, *bvh2, references@),
        cw.capped(max_prims_per_leaf as int),
{
    if bvh2.nodes[bvh2.root as usize].count > 0 {
        collapse_leaf(bvh2, references)
    } else {
        collapse_tree(bvh2, references, Ghost(max_prims_per_leaf as int))
    }
}

/// The reference `r` stands somewhere in the flattened list, with its
/// primitive and its box.
pub open spec fn placed(cw: CwBvh, refs: Seq<PrimitiveReference>, r: int) -> bool {
    exists|k: int|
        0 <= k < cw.primitive_indices@.len() && #[trigger] cw.primitive_indices@[k]
            == refs[r].index && cw.shape@.boxes[k] == refs[r].aabb
}

/// At the place `k` of the flattened list stands one of the references,
/// with its primitive and its box.
pub open spec fn holds_reference(cw: CwBvh, refs: Seq<PrimitiveReference>, k: int) -> bool {
    exists|r: int|
        0 <= r < refs.len() && (#[trigger] refs[r]).index == cw.primitive_indices@[k]
            && refs[r].aabb == cw.shape@.boxes[k]
}

/// The leaf capacity that is used for `max_prims_per_leaf`: at least 1.
pub open spec fn spec_leaf_cap(max_prims_per_leaf: u32) -> int {
    if max_prims_per_leaf == 0 {
        1
    } else {
        max_prims_per_leaf as int
    }
}

/// What compression makes of the binary hierarchy `t` over `refs`: a
/// sound wide hierarchy whose leaves hold at most `cap` references, in
/// which every reference stands once, every slot's box holds all boxes
/// below it, and grids and slot boxes are the tightest that the rounding
/// allows. Where no leaf of `t` is too large, it is the collapse of `t`.
pub open spec fn compressed(cw: CwBvh, t: Bvh2, refs: Seq<PrimitiveReference>, cap: int) -> bool {
    &&& cw.wf()
    &&& cw.capped(cap)
    &&& cw.primitive_indices@.len() == refs.len()
    &&& cw.shape@.boxes.len() == refs.len()
    &&& cw.conservative(cw.shape@.boxes)
    &&& exactly_quantized(cw, cw.shape@.boxes)
    &&& forall|r: int| 0 <= r < refs.len() ==> #[trigger] placed(cw, refs, r)
    &&& forall|k: int| 0 <= k < refs.len() ==> #[trigger] holds_reference(cw, refs, k)
    &&& cw.node_hull(cw.shape@.boxes, 0, WIDTH as int) == t.nodes@[t.root as int].aabb
    &&& leaves_capped(t, cap) ==> collapsed(cw, t, refs)
}

/// The collapse of a hierarchy holds every reference once.
pub proof fn lemma_collapse_places(cw: CwBvh, t: Bvh2, refs: Seq<PrimitiveReference>)
    requires
        t.wf(),
        t.refs@.len() == refs.len(),
        collapsed(cw, t, refs),
    ensures
        forall|r: int| 0 <= r < refs.len() ==> #[trigger] placed(cw, refs, r),
        forall|k: int| 0 <= k < refs.len() ==> #[trigger] holds_reference(cw, refs, k),
{
    let boxes = boxes_of(refs);
    let flat = flat_boxes(t.refs@, boxes);
    assert forall|r: int| 0 <= r < refs.len() implies #[trigger] placed(cw, refs, r) by {
        let k = t.shape@.pos_of[r];
        assert(t.refs@[k] == r);
        assert(cw.primitive_indices@[k] == refs[r].index);
        assert(flat[k] == boxes[r]);
    }
    assert forall|k: int| 0 <= k < refs.len() implies #[trigger] holds_reference(cw, refs, k) by {
        let r = t.refs@[k] as int;
        assert(cw.primitive_indices@[k] == refs[r].index);
        assert(flat[k] == boxes[r]);
    }
}

/// A copy of a hierarchy.
fn copy_tree(t: &Bvh2, Ghost(boxes): Ghost<Seq<Aabb>>) -> (c: Bvh2)
    requires
        t.wf(),
        t.bounds(boxes),
    ensures
        c.wf(),
        c.bounds(boxes),
        c.nodes@ == t.nodes@,
        c.refs@ == t.refs@,
        c.root == t.root,
{
    let mut nodes: Vec<Bvh2Node> = Vec::new();
    let mut parents: Vec<u32> = Vec::new();
    let mut refs: Vec<u32> = Vec::new();
    let mut i: usize = 0;
    proof {
        assert(t.sizes_ok());
    }
    while i < t.nodes.len()
        invariant
            i <= t.nodes@.len(),
            t.parents@.len() == t.nodes@.len(),
            nodes@ == t.nodes@.subrange(0, i as int),
            parents@ == t.parents@.subrange(0, i as int),
        decreases t.nodes@.len() - i,
    {
        nodes.push(t.nodes[i]);
        parents.push(t.parents[i]);
        i = i + 1;
        assert(nodes@ =~= t.nodes@.subrange(0, i as int));
        assert(parents@ =~= t.parents@.subrange(0, i as int));
    }
    let mut k: usize = 0;
    while k < t.refs.len()
        invariant
            k <= t.refs@.len(),
            refs@ == t.refs@.subrange(0, k as int),
        decreases t.refs@.len() - k,
    {
        refs.push(t.refs[k]);
        k = k + 1;
        assert(refs@ =~= t.refs@.subrange(0, k as int));
    }
    let c = Bvh2 { nodes, parents, root: t.root, refs, shape: Ghost(t.shape@) };
    proof {
        assert(c.nodes@ =~= t.nodes@);
        assert(c.parents@ =~= t.parents@);
        assert(c.refs@ =~= t.refs@);
        assert(c.sizes_ok());
        assert forall|j: int| 0 <= j < c.len() && j != c.root implies #[trigger] c.child_ok(j) by {
            assert(t.child_ok(j));
        }
        assert forall|j: int| c.is_inner(j) implies #[trigger] c.inner_ok(j) by {
            assert(t.is_inner(j));
            assert(t.inner_ok(j));
        }
        assert forall|j: int| c.is_inner(j) implies #[trigger] c.tight_at(j) by {
            assert(t.is_inner(j));
            assert(t.tight_at(j));
        }
        assert(t.leaves_ok());
        assert(c.leaves_ok());
    }
    c
}

/// Converts the binary hierarchy `bvh2` over `references` into 8-wide
/// nodes. Leaves with more than `max_prims_per_leaf` references (with
/// more than one, where that is 0) are divided first.
pub fn bvh2_to_cwbvh(bvh2: &Bvh2, references: &Vec<PrimitiveReference>, max_prims_per_leaf: u32) -> (cw:
    CwBvh)
    requires
        bvh2.wf(),
        bvh2.bounds(boxes_of(references@)),
        all_valid(references@),
    ensures
        compressed(cw, *bvh2, references@, spec_leaf_cap(max_prims_per_leaf)),
{
    let cap: u32 = if max_prims_per_leaf == 0 {
        1
    } else {
        max_prims_per_leaf
    };
    if has_large_leaf(bvh2, cap) {
        let mut work = copy_tree(bvh2, Ghost(boxes_of(references@)));
        split_large_leaves(&mut work, references, cap);
        let cw = collapse(&work, references, cap);
        proof {
            lemma_collapse_places(cw, work, references@);
        }
        cw
    } else {
        let cw = collapse(bvh2, references, cap);
        proof {
            lemma_collapse_places(cw, *bvh2, references@);
        }
        cw
    }
}

} // verus!
