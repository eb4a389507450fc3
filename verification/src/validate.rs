//! Checks of a finished hierarchy against the boxes it was built over.
//!
//! A build establishes what is checked here, so a defect found by one of
//! these checks is a fault in the build and not in the input.
use vstd::prelude::*;
use crate::aabb::Aabb;
use crate::cwbvh::{CwBvh, CwNode, Slot, SlotKind, WIDTH, span_hull};

verus! {

/// What a check has found wrong.
#[derive(Clone, Copy, Debug, PartialEq, Eq, Structural)]
pub enum Defect {
    /// There is not one box for each place of the flattened list.
    BoxCount,
    /// The leaf in this slot holds more references than a leaf may.
    LeafTooLarge { node: usize, slot: usize },
    /// The box of this slot does not hold all boxes below it.
    NotConservative { node: usize, slot: usize },
    /// At this place of the flattened list stands no primitive of the
    /// caller's list.
    UnknownPrimitive { place: usize },
    /// This primitive stands in no leaf.
    MissingPrimitive { index: usize },
    /// The boxes of the leaves of this primitive do not hold its bound.
    NotCovered { index: usize },
}

/// Looks for a leaf with more than `cap` references.
pub fn check_leaf_sizes(cw: &CwBvh, cap: u32) -> (r: Option<Defect>)
    requires
        cw.wf(),
    ensures
        r.is_none() <==> cw.capped(cap as int),
        r matches Some(d) ==> d matches Defect::LeafTooLarge { node, slot } && cw.is_slot(
            node as int,
            slot as int,
        ) && cw.slot(node as int, slot as int).kind == SlotKind::Leaf && cw.slot(
            node as int,
            slot as int,
        ).count > cap,
{
    let mut i: usize = 0;
    while i < cw.nodes.len()
        invariant
            i <= cw.len(),
            forall|a: int, s: int|
                0 <= a < i && 0 <= s < WIDTH && (#[trigger] cw.slot(a, s)).kind == SlotKind::Leaf
                    ==> cw.slot(a, s).count <= cap,
        decreases cw.len() - i,
    {
        let mut s: usize = 0;
        while s < WIDTH
            invariant
                i < cw.len(),
                s <= WIDTH,
                forall|a: int, c: int|
                    0 <= a < i && 0 <= c < WIDTH && (#[trigger] cw.slot(a, c)).kind
                        == SlotKind::Leaf ==> cw.slot(a, c).count <= cap,
                forall|c: int|
                    0 <= c < s && (#[trigger] cw.slot(i as int, c)).kind == SlotKind::Leaf
                        ==> cw.slot(i as int, c).count <= cap,
            decreases WIDTH - s,
        {
            let sl: Slot = cw.nodes[i].slots[s];
            if sl.kind == SlotKind::Leaf && sl.count > cap {
                assert(cw.is_slot(i as int, s as int));
                return Some(Defect::LeafTooLarge { node: i, slot: s });
            }
            s = s + 1;
        }
        i = i + 1;
    }
    None
}

/// The hull of a run of boxes.
pub fn hull_of_run(boxes: &Vec<Aabb>, first: usize, count: usize) -> (h: Aabb)
    requires
        first + count <= boxes@.len(),
    ensures
        h == span_hull(boxes@, first as int, count as int),
{
    let mut h = Aabb::empty();
    let mut c: usize = 0;
    let total: usize = boxes.len();
    while c < count
        invariant
            c <= count,
            first + count <= boxes@.len(),
            boxes@.len() == total,
            h == span_hull(boxes@, first as int, c as int),
        decreases count - c,
    {
        h = h.union(boxes[first + c]);
        c = c + 1;
    }
    h
}

/// Looks for a slot whose box does not hold the boxes of all references
/// below it, where `boxes` holds the box of the reference at each place
/// of the flattened list.
pub fn check_conservative(cw: &CwBvh, boxes: &Vec<Aabb>) -> (r: Option<Defect>)
    requires
        cw.wf(),
    ensures
        r.is_none() <==> cw.conservative(boxes@),
        r matches Some(d) ==> (d == Defect::BoxCount && boxes@.len()
            != cw.primitive_indices@.len()) || (d matches Defect::NotConservative { node, slot }
            && cw.is_slot(node as int, slot as int) && !cw.slot_conservative(
            boxes@,
            node as int,
            slot as int,
        )),
{
    if boxes.len() != cw.primitive_indices.len() {
        return Some(Defect::BoxCount);
    }
    let n: usize = cw.nodes.len();
    let mut hulls: Vec<Aabb> = Vec::new();
    let mut f: usize = 0;
    while f < n
        invariant
            f <= n,
            hulls@.len() == f,
        decreases n - f,
    {
        hulls.push(Aabb::empty());
        f = f + 1;
    }
    let mut i: usize = n;
    while i > 0
        invariant
            cw.wf(),
            n == cw.len(),
            i <= n,
            hulls@.len() == n,
            boxes@.len() == cw.primitive_indices@.len(),
            forall|a: int| i <= a < n ==> #[trigger] hulls@[a] == cw.node_hull(boxes@, a, WIDTH as int),
            forall|a: int, s: int|
                i <= a < n && 0 <= s < WIDTH ==> #[trigger] cw.slot_conservative(boxes@, a, s),
        decreases i,
    {
        i = i - 1;
        let node: CwNode = cw.nodes[i];
        let mut h = Aabb::empty();
        let mut s: usize = 0;
        while s < WIDTH
            invariant
                cw.wf(),
                n == cw.len(),
                i < n,
                node == cw.nodes@[i as int],
                hulls@.len() == n,
                boxes@.len() == cw.primitive_indices@.len(),
                s <= WIDTH,
                h == cw.node_hull(boxes@, i as int, s as int),
                forall|a: int|
                    i < a < n ==> #[trigger] hulls@[a] == cw.node_hull(boxes@, a, WIDTH as int),
                forall|a: int, c: int|
                    i < a < n && 0 <= c < WIDTH ==> #[trigger] cw.slot_conservative(boxes@, a, c),
                forall|c: int| 0 <= c < s ==> #[trigger] cw.slot_conservative(boxes@, i as int, c),
            decreases WIDTH - s,
        {
            let sl: Slot = node.slots[s];
            proof {
                assert(cw.is_slot(i as int, s as int));
                assert(cw.slot_ok(i as int, s as int));
                assert(node.grid_ok());
            }
            let below: Aabb = match sl.kind {
                SlotKind::Empty => Aabb::empty(),
                SlotKind::Leaf => hull_of_run(boxes, sl.index as usize, sl.count as usize),
                SlotKind::Internal => hulls[sl.index as usize],
            };
            assert(below == cw.slot_hull(boxes@, i as int, s as int));
            if sl.kind != SlotKind::Empty {
                let shown: Aabb = node.decompress(s);
                if !shown.encloses(&below) {
                    assert(shown == cw.slot_box(i as int, s as int));
                    assert(!cw.slot_conservative(boxes@, i as int, s as int));
                    return Some(Defect::NotConservative { node: i, slot: s });
                }
            }
            h = h.union(below);
            s = s + 1;
        }
        hulls.set(i, h);
    }
    None
}

/// Looks for a primitive that stands in no leaf, or whose leaves' boxes
/// do not hold its bound, where `bounds` holds the bound of every
/// primitive of the caller's list.
pub fn check_coverage(cw: &CwBvh, bounds: &Vec<Aabb>) -> (r: Option<Defect>)
    requires
        cw.wf(),
    ensures
        r.is_none() <==> (forall|k: int|
            0 <= k < cw.primitive_indices@.len() ==> (#[trigger] cw.primitive_indices@[k])
                < bounds@.len()) && (forall|i: int|
            0 <= i < bounds@.len() ==> #[trigger] cw.covers(i, bounds@[i])),
{
    let len: usize = cw.primitive_indices.len();
    let n: usize = bounds.len();
    // the box of the leaf slot of every place
    let mut shown: Vec<Aabb> = Vec::new();
    let mut f: usize = 0;
    while f < len
        invariant
            f <= len,
            shown@.len() == f,
        decreases len - f,
    {
        shown.push(Aabb::empty());
        f = f + 1;
    }
    let mut i: usize = 0;
    while i < cw.nodes.len()
        invariant
            cw.wf(),
            i <= cw.len(),
            len == cw.primitive_indices@.len(),
            shown@.len() == len,
            forall|k: int|
                0 <= k < len && cw.shape@.owner[k].0 < i ==> #[trigger] shown@[k] == cw.slot_box(
                    cw.shape@.owner[k].0,
                    cw.shape@.owner[k].1,
                ),
        decreases cw.len() - i,
    {
        let node: CwNode = cw.nodes[i];
        let mut s: usize = 0;
        while s < WIDTH
            invariant
                cw.wf(),
                i < cw.len(),
                node == cw.nodes@[i as int],
                len == cw.primitive_indices@.len(),
                shown@.len() == len,
                s <= WIDTH,
                forall|k: int|
                    0 <= k < len && (cw.shape@.owner[k].0 < i || (cw.shape@.owner[k].0 == i
                        && cw.shape@.owner[k].1 < s)) ==> #[trigger] shown@[k] == cw.slot_box(
                        cw.shape@.owner[k].0,
                        cw.shape@.owner[k].1,
                    ),
            decreases WIDTH - s,
        {
            let sl: Slot = node.slots[s];
            proof {
                assert(cw.is_slot(i as int, s as int));
                assert(cw.slot_ok(i as int, s as int));
                assert(node.grid_ok());
            }
            if sl.kind == SlotKind::Leaf {
                let b: Aabb = node.decompress(s);
                let mut c: usize = 0;
                while c < sl.count as usize
                    invariant
                        cw.wf(),
                        i < cw.len(),
                        s < WIDTH,
                        sl == cw.slot(i as int, s as int),
                        sl.kind == SlotKind::Leaf,
                        cw.slot_ok(i as int, s as int),
                        b == cw.slot_box(i as int, s as int),
                        len == cw.primitive_indices@.len(),
                        shown@.len() == len,
                        c <= sl.count,
                        forall|k: int|
                            0 <= k < len && (cw.shape@.owner[k].0 < i || (cw.shape@.owner[k].0 == i
                                && cw.shape@.owner[k].1 < s)) ==> #[trigger] shown@[k]
                                == cw.slot_box(cw.shape@.owner[k].0, cw.shape@.owner[k].1),
                        forall|k: int|
                            sl.index <= k < sl.index + c ==> #[trigger] shown@[k] == b,
                    decreases sl.count - c,
                {
                    let ghost place = sl.index + c;
                    assert(cw.shape@.owner[place] == (i as int, s as int));
                    shown.set(sl.index as usize + c, b);
                    c = c + 1;
                }
                proof {
                    assert forall|k: int|
                        0 <= k < len && (cw.shape@.owner[k].0 < i || (cw.shape@.owner[k].0 == i
                            && cw.shape@.owner[k].1 < s + 1)) implies #[trigger] shown@[k]
                        == cw.slot_box(cw.shape@.owner[k].0, cw.shape@.owner[k].1) by {
                        let (a, d) = cw.shape@.owner[k];
                        if a == i && d == s {
                            assert(sl.index <= k < sl.index + sl.count);
                        }
                    }
                }
            } else {
                proof {
                    assert forall|k: int|
                        0 <= k < len && (cw.shape@.owner[k].0 < i || (cw.shape@.owner[k].0 == i
                            && cw.shape@.owner[k].1 < s + 1)) implies #[trigger] shown@[k]
                        == cw.slot_box(cw.shape@.owner[k].0, cw.shape@.owner[k].1) by {
                        let (a, d) = cw.shape@.owner[k];
                        if a == i && d == s {
                            assert(cw.slot(a, d).kind == SlotKind::Leaf);
                        }
                    }
                }
            }
            s = s + 1;
        }
        i = i + 1;
    }
    // the cover of every primitive
    let mut cover: Vec<Aabb> = Vec::new();
    let mut seen: Vec<bool> = Vec::new();
    let mut g: usize = 0;
    while g < n
        invariant
            g <= n,
            cover@.len() == g,
            seen@.len() == g,
            forall|a: int| 0 <= a < g ==> #[trigger] cover@[a] == Aabb::spec_empty(),
            forall|a: int| 0 <= a < g ==> !(#[trigger] seen@[a]),
        decreases n - g,
    {
        cover.push(Aabb::empty());
        seen.push(false);
        g = g + 1;
    }
    let mut k: usize = 0;
    while k < len
        invariant
            cw.wf(),
            len == cw.primitive_indices@.len(),
            n == bounds@.len(),
            shown@.len() == len,
            cover@.len() == n,
            seen@.len() == n,
            k <= len,
            forall|c: int|
                0 <= c < len ==> #[trigger] shown@[c] == cw.slot_box(
                    cw.shape@.owner[c].0,
                    cw.shape@.owner[c].1,
                ),
            forall|c: int| 0 <= c < k ==> (#[trigger] cw.primitive_indices@[c]) < n,
            forall|a: int| 0 <= a < n ==> #[trigger] cover@[a] == cw.leaf_cover(a, k as int),
            forall|a: int|
                0 <= a < n ==> (#[trigger] seen@[a] <==> exists|c: int|
                    0 <= c < k && #[trigger] cw.primitive_indices@[c] == a),
        decreases len - k,
    {
        let a: u32 = cw.primitive_indices[k];
        if a as usize >= n {
            return Some(Defect::UnknownPrimitive { place: k });
        }
        let ghost seen_before = seen@;
        let grown: Aabb = cover[a as usize].union(shown[k]);
        cover.set(a as usize, grown);
        seen.set(a as usize, true);
        proof {
            assert forall|b: int| 0 <= b < n implies (#[trigger] seen@[b] <==> exists|c: int|
                0 <= c < k + 1 && #[trigger] cw.primitive_indices@[c] == b) by {
                if b == a {
                    assert(cw.primitive_indices@[k as int] == b);
                } else {
                    if seen_before[b] {
                        let c = choose|c: int| 0 <= c < k && #[trigger] cw.primitive_indices@[c] == b;
                        assert(0 <= c < k + 1 && cw.primitive_indices@[c] == b);
                    }
                    if exists|c: int| 0 <= c < k + 1 && #[trigger] cw.primitive_indices@[c] == b {
                        let c = choose|c: int|
                            0 <= c < k + 1 && #[trigger] cw.primitive_indices@[c] == b;
                        assert(c < k);
                    }
                }
            }
        }
        k = k + 1;
    }
    let mut j: usize = 0;
    while j < n
        invariant
            len == cw.primitive_indices@.len(),
            n == bounds@.len(),
            cover@.len() == n,
            seen@.len() == n,
            j <= n,
            forall|a: int| 0 <= a < n ==> #[trigger] cover@[a] == cw.leaf_cover(a, len as int),
            forall|a: int|
                0 <= a < n ==> (#[trigger] seen@[a] <==> exists|c: int|
                    0 <= c < len && #[trigger] cw.primitive_indices@[c] == a),
            forall|a: int| 0 <= a < j ==> #[trigger] cw.covers(a, bounds@[a]),
        decreases n - j,
    {
        if !seen[j] {
            assert(!cw.covers(j as int, bounds@[j as int]));
            return Some(Defect::MissingPrimitive { index: j });
        }
        if !cover[j].encloses(&bounds[j]) {
            assert(!cw.covers(j as int, bounds@[j as int]));
            return Some(Defect::NotCovered { index: j });
        }
        j = j + 1;
    }
    None
}

} // verus!
