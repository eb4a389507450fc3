//! Leaves of the binary hierarchy that hold more references than a leaf
//! of the compressed hierarchy may: they are divided, by the places of
//! their references in space, until none is too large.
use vstd::prelude::*;
use crate::aabb::{Aabb, lemma_union_assoc, lemma_union_is_least};
use crate::bvh2::{
    Bvh2, Bvh2Node, TreeShape, NO_NODE, inside_places, leaves_capped, lemma_range_hull_contains,
    lemma_range_hull_within, range_hull,
};
use crate::config::{BuildError, MAX_REFERENCES};
use crate::ploc::{scene_bounds, spec_input_error};
use crate::primitive::{PrimitiveReference, all_valid, boxes_of, hull, hull_prefix};
use crate::splits::{longest_axis, spec_longest_axis};

verus! {

/// Twice the centre of the box along `axis`.
pub open spec fn spec_centre2(b: Aabb, axis: int) -> int {
    b.min.coord(axis) + b.max.coord(axis)
}

/// Twice the centre of the box along `axis`.
pub fn centre2(b: &Aabb, axis: u8) -> (c: i64)
    requires
        axis < 3,
    ensures
        c == spec_centre2(*b, axis as int),
{
    b.min.get(axis) as i64 + b.max.get(axis) as i64
}

/// The hull of a range is the same where the range holds the same
/// references.
pub proof fn lemma_range_hull_same(
    boxes: Seq<Aabb>,
    a: Seq<u32>,
    b: Seq<u32>,
    first: int,
    count: int,
)
    requires
        forall|k: int| first <= k < first + count ==> a[k] == b[k],
    ensures
        range_hull(boxes, a, first, count) == range_hull(boxes, b, first, count),
    decreases count,
{
    if count > 0 {
        lemma_range_hull_same(boxes, a, b, first, count - 1);
    }
}

/// The hull of a range is the union of the hulls of its two parts.
pub proof fn lemma_range_hull_split(
    boxes: Seq<Aabb>,
    refs: Seq<u32>,
    first: int,
    c1: int,
    c2: int,
)
    requires
        0 <= c1,
        0 <= c2,
    ensures
        range_hull(boxes, refs, first, c1 + c2) == range_hull(boxes, refs, first, c1).spec_union(
            range_hull(boxes, refs, first + c1, c2),
        ),
    decreases c2,
{
    if c2 > 0 {
        lemma_range_hull_split(boxes, refs, first, c1, c2 - 1);
        lemma_union_assoc(
            range_hull(boxes, refs, first, c1),
            range_hull(boxes, refs, first + c1, c2 - 1),
            boxes[refs[first + c1 + c2 - 1] as int],
        );
    }
}

/// The hull of a range of valid boxes is valid.
pub proof fn lemma_range_hull_valid(boxes: Seq<Aabb>, refs: Seq<u32>, first: int, count: int)
    requires
        count > 0,
        forall|k: int| first <= k < first + count ==> boxes[#[trigger] refs[k] as int].valid(),
    ensures
        range_hull(boxes, refs, first, count).valid(),
    decreases count,
{
    reveal_with_fuel(range_hull, 2);
    assert(boxes[refs[first + count - 1] as int].valid());
    if count > 1 {
        lemma_range_hull_valid(boxes, refs, first, count - 1);
        lemma_union_is_least(
            range_hull(boxes, refs, first, count - 1),
            boxes[refs[first + count - 1] as int],
        );
    }
}

/// Exchanging two references of a range leaves the hull of the range as
/// it was.
pub proof fn lemma_range_hull_swap(
    boxes: Seq<Aabb>,
    refs: Seq<u32>,
    first: int,
    count: int,
    a: int,
    b: int,
)
    requires
        0 <= first,
        first + count <= refs.len(),
        first <= a < first + count,
        first <= b < first + count,
    ensures
        range_hull(boxes, refs.update(a, refs[b]).update(b, refs[a]), first, count) == range_hull(
            boxes,
            refs,
            first,
            count,
        ),
{
    let swapped = refs.update(a, refs[b]).update(b, refs[a]);
    let h0 = range_hull(boxes, refs, first, count);
    let h1 = range_hull(boxes, swapped, first, count);
    assert forall|k: int| 0 <= k < count implies h0.contains(
        boxes[#[trigger] swapped[first + k] as int],
    ) by {
        let src = if first + k == a {
            b
        } else if first + k == b {
            a
        } else {
            first + k
        };
        lemma_range_hull_contains(boxes, refs, first, count, src - first);
    }
    lemma_range_hull_within(boxes, swapped, first, count, h0);
    assert forall|k: int| 0 <= k < count implies h1.contains(
        boxes[#[trigger] refs[first + k] as int],
    ) by {
        let dst = if first + k == a {
            b
        } else if first + k == b {
            a
        } else {
            first + k
        };
        lemma_range_hull_contains(boxes, swapped, first, count, dst - first);
    }
    lemma_range_hull_within(boxes, refs, first, count, h1);
}

/// Exchanges the references at the places `a` and `b` of the leaf `i`.
fn swap_in_leaf(t: &mut Bvh2, Ghost(boxes): Ghost<Seq<Aabb>>, Ghost(i): Ghost<int>, a: usize, b: usize)
    requires
        old(t).wf(),
        old(t).bounds(boxes),
        0 <= i < old(t).len(),
        old(t).nodes@[i].is_leaf(),
        old(t).nodes@[i].first <= a < old(t).nodes@[i].first + old(t).nodes@[i].count,
        old(t).nodes@[i].first <= b < old(t).nodes@[i].first + old(t).nodes@[i].count,
    ensures
        final(t).wf(),
        final(t).bounds(boxes),
        final(t).nodes@ == old(t).nodes@,
        final(t).parents@ == old(t).parents@,
        final(t).root == old(t).root,
        final(t).shape@.height == old(t).shape@.height,
        final(t).shape@.cap == old(t).shape@.cap,
        final(t).shape@.leaf_of == old(t).shape@.leaf_of,
        final(t).refs@ == old(t).refs@.update(a as int, old(t).refs@[b as int]).update(
            b as int,
            old(t).refs@[a as int],
        ),
{
    let ghost pre = *t;
    let ra: u32 = t.refs[a];
    let rb: u32 = t.refs[b];
    t.refs.set(a, rb);
    t.refs.set(b, ra);
    let ghost places = pre.shape@.pos_of.update(ra as int, b as int).update(rb as int, a as int);
    t.shape = Ghost(
        TreeShape {
            height: pre.shape@.height,
            cap: pre.shape@.cap,
            leaf_of: pre.shape@.leaf_of,
            pos_of: places,
        },
    );
    proof {
        let n = pre.refs@.len() as int;
        assert(pre.leaves_ok());
        assert(pre.refs@[a as int] < n && pre.refs@[b as int] < n);
        assert forall|k: int| 0 <= k < n implies (#[trigger] t.refs@[k]) < n
            && t.shape@.pos_of[t.refs@[k] as int] == k by {
            assert(pre.refs@[k] < n);
            assert(pre.shape@.pos_of[pre.refs@[k] as int] == k);
        }
        assert forall|r: int| 0 <= r < n implies ({
            let k = #[trigger] t.shape@.pos_of[r];
            0 <= k < n && t.refs@[k] == r
        }) by {
            let k0 = pre.shape@.pos_of[r];
            assert(0 <= k0 < n && pre.refs@[k0] == r);
        }
        assert(t.leaves_ok());
        assert(t.sizes_ok());
        assert forall|c: int|
            0 <= c < t.len() && c != t.root implies #[trigger] t.child_ok(c) by {
            assert(pre.child_ok(c));
        }
        assert forall|c: int| t.is_inner(c) implies #[trigger] t.inner_ok(c) by {
            assert(pre.is_inner(c));
            assert(pre.inner_ok(c));
        }
        assert forall|c: int| t.is_inner(c) implies #[trigger] t.tight_at(c) by {
            assert(pre.is_inner(c));
            assert(pre.tight_at(c));
        }
        assert(t.wf());
        assert forall|c: int| 0 <= c < t.len() && (#[trigger] t.nodes@[c]).is_leaf() implies t.nodes@[c].aabb
            == range_hull(boxes, t.refs@, t.nodes@[c].first as int, t.nodes@[c].count as int) by {
            let node = t.nodes@[c];
            if c == i {
                lemma_range_hull_swap(
                    boxes,
                    pre.refs@,
                    node.first as int,
                    node.count as int,
                    a as int,
                    b as int,
                );
            } else {
                assert forall|k: int| node.first <= k < node.first + node.count implies t.refs@[k]
                    == pre.refs@[k] by {
                    assert(pre.shape@.leaf_of[k] == c);
                    assert(pre.shape@.leaf_of[a as int] == i);
                    assert(pre.shape@.leaf_of[b as int] == i);
                }
                lemma_range_hull_same(
                    boxes,
                    t.refs@,
                    pre.refs@,
                    node.first as int,
                    node.count as int,
                );
            }
        }
    }
}

/// Orders the references of the leaf `i` so that those whose centre along
/// `axis` lies below `pivot` (both doubled) come first; returns the place
/// of the first of the others.
fn partition(t: &mut Bvh2, references: &Vec<PrimitiveReference>, i: u32, axis: u8, pivot: i64) -> (mid:
    usize)
    requires
        old(t).wf(),
        old(t).bounds(boxes_of(references@)),
        references@.len() == old(t).refs@.len(),
        i < old(t).len(),
        old(t).nodes@[i as int].is_leaf(),
        axis < 3,
    ensures
        final(t).wf(),
        final(t).bounds(boxes_of(references@)),
        final(t).nodes@ == old(t).nodes@,
        final(t).parents@ == old(t).parents@,
        final(t).root == old(t).root,
        final(t).shape@.height == old(t).shape@.height,
        final(t).shape@.cap == old(t).shape@.cap,
        final(t).shape@.leaf_of == old(t).shape@.leaf_of,
        final(t).refs@.len() == old(t).refs@.len(),
        old(t).nodes@[i as int].first <= mid <= old(t).nodes@[i as int].first + old(t).nodes@[i as int].count,
        forall|k: int|
            old(t).nodes@[i as int].first <= k < mid ==> spec_centre2(
                references@[#[trigger] final(t).refs@[k] as int].aabb,
                axis as int,
            ) < pivot,
        forall|k: int|
            mid <= k < old(t).nodes@[i as int].first + old(t).nodes@[i as int].count
                ==> spec_centre2(references@[#[trigger] final(t).refs@[k] as int].aabb, axis as int)
                >= pivot,
        forall|k: int|
            0 <= k < old(t).refs@.len() && !(old(t).nodes@[i as int].first <= k < old(t).nodes@[i as int].first + old(t).nodes@[i as int].count) ==> #[trigger] final(t).refs@[k] == old(t).refs@[k],
{
    let first: usize = t.nodes[i as usize].first as usize;
    let end: usize = first + t.nodes[i as usize].count as usize;
    let mut l: usize = first;
    let mut r: usize = end;
    proof {
        assert(t.leaves_ok());
    }
    while l < r
        invariant
            t.wf(),
            t.bounds(boxes_of(references@)),
            references@.len() == t.refs@.len(),
            t.nodes@ == old(t).nodes@,
            t.parents@ == old(t).parents@,
            t.root == old(t).root,
            t.shape@.height == old(t).shape@.height,
            t.shape@.cap == old(t).shape@.cap,
            t.shape@.leaf_of == old(t).shape@.leaf_of,
            t.refs@.len() == old(t).refs@.len(),
            i < t.len(),
            t.nodes@[i as int].is_leaf(),
            first == t.nodes@[i as int].first,
            end == first + t.nodes@[i as int].count,
            end <= t.refs@.len(),
            axis < 3,
            first <= l <= r <= end,
            forall|k: int|
                first <= k < l ==> spec_centre2(
                    references@[#[trigger] t.refs@[k] as int].aabb,
                    axis as int,
                ) < pivot,
            forall|k: int|
                r <= k < end ==> spec_centre2(
                    references@[#[trigger] t.refs@[k] as int].aabb,
                    axis as int,
                ) >= pivot,
            forall|k: int|
                0 <= k < t.refs@.len() && !(first <= k < end) ==> #[trigger] t.refs@[k] == old(t).refs@[k],
        decreases r - l,
    {
        proof {
            assert(t.leaves_ok());
            assert(t.refs@[l as int] < t.refs@.len());
        }
        let c: i64 = centre2(&references[t.refs[l] as usize].aabb, axis);
        if c < pivot {
            l = l + 1;
        } else {
            r = r - 1;
            swap_in_leaf(t, Ghost(boxes_of(references@)), Ghost(i as int), l, r);
        }
    }
    l
}

/// The hull of the boxes of a run of the references of `t`.
fn hull_of_refs(t: &Bvh2, references: &Vec<PrimitiveReference>, first: usize, count: usize) -> (h:
    Aabb)
    requires
        t.wf(),
        references@.len() == t.refs@.len(),
        first + count <= t.refs@.len(),
    ensures
        h == range_hull(boxes_of(references@), t.refs@, first as int, count as int),
{
    let mut h = Aabb::empty();
    let mut c: usize = 0;
    let total: usize = t.refs.len();
    while c < count
        invariant
            t.wf(),
            references@.len() == t.refs@.len(),
            total == t.refs@.len(),
            first + count <= total,
            c <= count,
            h == range_hull(boxes_of(references@), t.refs@, first as int, c as int),
        decreases count - c,
    {
        proof {
            assert(t.leaves_ok());
            assert(t.refs@[first + c] < t.refs@.len());
        }
        h = h.union(references[t.refs[first + c] as usize].aabb);
        c = c + 1;
    }
    h
}

/// With one place more that is the first of its leaf, one place less is
/// inside a leaf.
proof fn lemma_inside_flip(
    a: Seq<Bvh2Node>,
    la: Seq<int>,
    b: Seq<Bvh2Node>,
    lb: Seq<int>,
    upto: int,
    mid: int,
)
    requires
        0 <= mid,
        0 <= upto <= la.len(),
        upto <= lb.len(),
        forall|k: int|
            0 <= k < upto && k != mid ==> ((a[#[trigger] la[k]].first == k) == (b[lb[k]].first
                == k)),
        mid < upto ==> a[la[mid]].first != mid && b[lb[mid]].first == mid,
    ensures
        inside_places(b, lb, upto) == inside_places(a, la, upto) - if mid < upto {
            1int
        } else {
            0int
        },
    decreases upto,
{
    if upto > 0 {
        lemma_inside_flip(a, la, b, lb, upto - 1, mid);
        if upto - 1 != mid {
            assert((a[la[upto - 1]].first == upto - 1) == (b[lb[upto - 1]].first == upto - 1));
        }
    }
}

/// The centres of the references of two neighbouring leaves lie on
/// either side of `pivot` along `axis`, both doubled.
pub open spec fn divided_at(
    t: Bvh2,
    refs: Seq<PrimitiveReference>,
    a: int,
    b: int,
    axis: int,
    pivot: int,
) -> bool {
    &&& forall|k: int|
        t.nodes@[a].first <= k < t.nodes@[a].first + t.nodes@[a].count ==> spec_centre2(
            refs[#[trigger] t.refs@[k] as int].aabb,
            axis,
        ) < pivot
    &&& forall|k: int|
        t.nodes@[b].first <= k < t.nodes@[b].first + t.nodes@[b].count ==> spec_centre2(
            refs[#[trigger] t.refs@[k] as int].aabb,
            axis,
        ) >= pivot
}

/// The nodes of `st` once the leaf `i` is divided at the place `mid`: two
/// leaves are added, and `i` becomes their parent.
pub open spec fn divided_nodes(st: Bvh2, boxes: Seq<Aabb>, i: int, mid: int) -> Seq<Bvh2Node> {
    let node = st.nodes@[i];
    let first = node.first as int;
    let end = first + node.count;
    let len = st.nodes@.len();
    st.nodes@.push(
        Bvh2Node {
            aabb: range_hull(boxes, st.refs@, first, mid - first),
            left: 0,
            right: 0,
            first: first as u32,
            count: (mid - first) as u32,
        },
    ).push(
        Bvh2Node {
            aabb: range_hull(boxes, st.refs@, mid, end - mid),
            left: 0,
            right: 0,
            first: mid as u32,
            count: (end - mid) as u32,
        },
    ).update(
        i,
        Bvh2Node { aabb: node.aabb, left: len as u32, right: (len + 1) as u32, first: 0, count: 0 },
    )
}

/// What the proofs know of `st` once the leaf `i` is divided at `mid`.
pub open spec fn divided_shape(st: Bvh2, i: int, mid: int) -> TreeShape {
    let node = st.nodes@[i];
    let first = node.first as int;
    let end = first + node.count;
    let len = st.nodes@.len() as int;
    TreeShape {
        height: Seq::new(
            (len + 2) as nat,
            |j: int|
                if j < len {
                    st.shape@.height[j] + 1
                } else {
                    0nat
                },
        ),
        cap: st.shape@.cap + 1,
        leaf_of: Seq::new(
            st.shape@.leaf_of.len(),
            |k: int|
                if first <= k < mid {
                    len
                } else if mid <= k < end {
                    len + 1
                } else {
                    st.shape@.leaf_of[k]
                },
        ),
        pos_of: st.shape@.pos_of,
    }
}

/// `fin` is `st` with the leaf `i` divided at `mid`.
pub open spec fn is_divided(st: Bvh2, fin: Bvh2, boxes: Seq<Aabb>, i: int, mid: int) -> bool {
    &&& st.wf()
    &&& st.bounds(boxes)
    &&& 0 <= i < st.len()
    &&& st.nodes@[i].is_leaf()
    &&& st.nodes@[i].first < mid < st.nodes@[i].first + st.nodes@[i].count
    &&& inside_places(st.nodes@, st.shape@.leaf_of, st.refs@.len() as int) >= 1
    &&& forall|k: int|
        st.nodes@[i].first <= k < st.nodes@[i].first + st.nodes@[i].count
            ==> boxes[#[trigger] st.refs@[k] as int].valid()
    &&& fin.nodes@ == divided_nodes(st, boxes, i, mid)
    &&& fin.parents@ == st.parents@.push(i as u32).push(i as u32)
    &&& fin.root == st.root
    &&& fin.refs@ == st.refs@
    &&& fin.shape@ == divided_shape(st, i, mid)
}

/// After a division the links form a tree and the boxes of the internal
/// nodes are tight.
proof fn lemma_divided_links(st: Bvh2, fin: Bvh2, boxes: Seq<Aabb>, i: int, mid: int)
    requires
        is_divided(st, fin, boxes, i, mid),
    ensures
        fin.linked(-1, -1),
        forall|c: int| fin.is_inner(c) ==> #[trigger] fin.tight_at(c),
        forall|c: int| 0 <= c < fin.len() ==> (#[trigger] fin.nodes@[c]).aabb.valid(),
        fin.len() == st.len() + 2,
{
    let node = st.nodes@[i];
    let first = node.first as int;
    let end = first + node.count;
    assert(st.leaves_ok());
    lemma_range_hull_valid(boxes, st.refs@, first, mid - first);
    lemma_range_hull_valid(boxes, st.refs@, mid, end - mid);
    lemma_range_hull_split(boxes, st.refs@, first, mid - first, end - mid);
    assert forall|c: int| 0 <= c < fin.len() && c != fin.root implies #[trigger] fin.child_ok(c) by {
        if c < st.len() {
            assert(st.child_ok(c));
        }
    }
    assert forall|c: int| fin.is_inner(c) implies #[trigger] fin.inner_ok(c) by {
        if c != i {
            assert(st.is_inner(c));
            assert(st.inner_ok(c));
        }
    }
    assert forall|c: int| 0 <= c < fin.len() implies #[trigger] fin.shape@.height[c]
        <= fin.shape@.cap by {
        if c < st.len() {
            assert(st.shape@.height[c] <= st.shape@.cap);
        }
    }
    assert forall|c: int| fin.is_inner(c) implies #[trigger] fin.tight_at(c) by {
        if c != i {
            assert(st.is_inner(c));
            assert(st.inner_ok(c));
            assert(st.tight_at(c));
        }
    }
    assert forall|c: int| 0 <= c < fin.len() implies (#[trigger] fin.nodes@[c]).aabb.valid() by {
        if c < st.len() {
            assert(st.nodes@[c].aabb.valid());
        }
    }
}

/// After a division every place belongs to one leaf, the leaves bound
/// their references, and the count of nodes is within its limit.
proof fn lemma_divided_leaves(st: Bvh2, fin: Bvh2, boxes: Seq<Aabb>, i: int, mid: int)
    requires
        is_divided(st, fin, boxes, i, mid),
        fin.linked(-1, -1),
        forall|c: int| fin.is_inner(c) ==> #[trigger] fin.tight_at(c),
        forall|c: int| 0 <= c < fin.len() ==> (#[trigger] fin.nodes@[c]).aabb.valid(),
    ensures
        fin.wf(),
        fin.bounds(boxes),
{
    let node = st.nodes@[i];
    let first = node.first as int;
    let end = first + node.count;
    let n = st.refs@.len() as int;
    assert(st.leaves_ok());
    assert forall|k: int| 0 <= k < n && k != mid implies ((st.nodes@[#[trigger] st.shape@.leaf_of[k]].first
        == k) == (fin.nodes@[fin.shape@.leaf_of[k]].first == k)) by {
        let l = st.shape@.leaf_of[k];
        if first <= k < end {
            assert(l == i);
        } else {
            assert(l != i);
        }
    }
    assert(st.shape@.leaf_of[mid] == i);
    lemma_inside_flip(st.nodes@, st.shape@.leaf_of, fin.nodes@, fin.shape@.leaf_of, n, mid);
    assert(fin.sizes_ok());
    assert forall|c: int| 0 <= c < fin.len() && (#[trigger] fin.nodes@[c]).is_leaf() implies {
        &&& fin.nodes@[c].first + fin.nodes@[c].count <= n
        &&& forall|k: int|
            fin.nodes@[c].first <= k < fin.nodes@[c].first + fin.nodes@[c].count
                ==> #[trigger] fin.shape@.leaf_of[k] == c
    } by {
        if c < st.len() {
            assert(st.nodes@[c].is_leaf());
            assert forall|k: int|
                fin.nodes@[c].first <= k < fin.nodes@[c].first + fin.nodes@[c].count implies #[trigger] fin.shape@.leaf_of[k]
                == c by {
                assert(st.shape@.leaf_of[k] == c);
            }
        }
    }
    assert forall|k: int| 0 <= k < n implies ({
        let l = #[trigger] fin.shape@.leaf_of[k];
        &&& 0 <= l < fin.len()
        &&& fin.nodes@[l].is_leaf()
        &&& fin.nodes@[l].first <= k < fin.nodes@[l].first + fin.nodes@[l].count
    }) by {
        let l0 = st.shape@.leaf_of[k];
        assert(0 <= l0 < st.len() && st.nodes@[l0].is_leaf());
    }
    assert forall|k: int| 0 <= k < n implies (#[trigger] fin.refs@[k]) < n
        && fin.shape@.pos_of[fin.refs@[k] as int] == k by {
        assert(st.refs@[k] < n);
    }
    assert forall|r: int| 0 <= r < n implies ({
        let k = #[trigger] fin.shape@.pos_of[r];
        0 <= k < n && fin.refs@[k] == r
    }) by {
        let k = st.shape@.pos_of[r];
        assert(0 <= k < n && st.refs@[k] == r);
    }
    assert(fin.leaves_ok());
    assert forall|c: int| 0 <= c < fin.len() && (#[trigger] fin.nodes@[c]).is_leaf() implies fin.nodes@[c].aabb
        == range_hull(boxes, fin.refs@, fin.nodes@[c].first as int, fin.nodes@[c].count as int) by {
        if c < st.len() {
            assert(st.nodes@[c].is_leaf());
        }
    }
}

/// Divides the leaf `i`, which holds two references or more, into two
/// leaves, which become its children: the references whose centres lie
/// below the centre of the leaf's box, along the longest axis of that box,
/// and the others. Where all lie on one side, the first half and the
/// second half. Returns the two leaves.
pub fn divide(t: &mut Bvh2, references: &Vec<PrimitiveReference>, i: u32) -> (r: (u32, u32))
    requires
        old(t).wf(),
        old(t).bounds(boxes_of(references@)),
        all_valid(references@),
        i < old(t).len(),
        old(t).nodes@[i as int].count >= 2,
    ensures
        final(t).wf(),
        final(t).bounds(boxes_of(references@)),
        final(t).len() == old(t).len() + 2,
        r.0 == old(t).len(),
        r.1 == old(t).len() + 1,
        final(t).root == old(t).root,
        final(t).refs@.len() == old(t).refs@.len(),
        forall|j: int|
            0 <= j < old(t).len() && j != i ==> #[trigger] final(t).nodes@[j] == old(t).nodes@[j],
        final(t).nodes@[i as int] == (Bvh2Node {
            aabb: old(t).nodes@[i as int].aabb,
            left: r.0,
            right: r.1,
            first: 0,
            count: 0,
        }),
        final(t).nodes@[r.0 as int].count >= 1,
        final(t).nodes@[r.1 as int].count >= 1,
        final(t).nodes@[r.0 as int].count + final(t).nodes@[r.1 as int].count == old(t).nodes@[i as int].count,
        final(t).nodes@[r.0 as int].first == old(t).nodes@[i as int].first,
        final(t).nodes@[r.1 as int].first == old(t).nodes@[i as int].first + final(t).nodes@[r.0 as int].count,
        forall|k: int|
            0 <= k < old(t).refs@.len() && !(old(t).nodes@[i as int].first <= k < old(t).nodes@[i as int].first + old(t).nodes@[i as int].count) ==> #[trigger] final(t).refs@[k] == old(t).refs@[k],
        divided_at(
            *final(t),
            references@,
            r.0 as int,
            r.1 as int,
            spec_longest_axis(old(t).nodes@[i as int].aabb),
            spec_centre2(
                old(t).nodes@[i as int].aabb,
                spec_longest_axis(old(t).nodes@[i as int].aabb),
            ),
        ) || final(t).nodes@[r.0 as int].count == old(t).nodes@[i as int].count / 2,
{
    let ghost pre = *t;
    let ghost boxes = boxes_of(references@);
    let node: Bvh2Node = t.nodes[i as usize];
    proof {
        assert(pre.leaves_ok());
        assert(pre.nodes@[i as int].is_leaf());
    }
    let first: usize = node.first as usize;
    let count: usize = node.count as usize;
    let end: usize = first + count;
    let axis: u8 = longest_axis(&node.aabb);
    let pivot: i64 = centre2(&node.aabb, axis);
    let found: usize = partition(t, references, i, axis, pivot);
    let mid: usize = if found == first || found == end {
        first + count / 2
    } else {
        found
    };
    let box_a: Aabb = hull_of_refs(t, references, first, mid - first);
    let box_b: Aabb = hull_of_refs(t, references, mid, end - mid);
    let ghost sorted_tree = *t;
    proof {
        assert(sorted_tree.leaves_ok());
        assert(sorted_tree.shape@.leaf_of[first + 1] == i);
        lemma_inside_at_least(
            sorted_tree.nodes@,
            sorted_tree.shape@.leaf_of,
            sorted_tree.refs@.len() as int,
            first + 1,
        );
    }
    let a: u32 = t.nodes.len() as u32;
    let b: u32 = a + 1;
    t.nodes.push(
        Bvh2Node { aabb: box_a, left: 0, right: 0, first: first as u32, count: (mid - first) as u32 },
    );
    t.nodes.push(
        Bvh2Node { aabb: box_b, left: 0, right: 0, first: mid as u32, count: (end - mid) as u32 },
    );
    t.nodes.set(i as usize, Bvh2Node { aabb: node.aabb, left: a, right: b, first: 0, count: 0 });
    t.parents.push(i);
    t.parents.push(i);
    t.shape = Ghost(divided_shape(sorted_tree, i as int, mid as int));
    proof {
        let n = t.refs@.len() as int;
        assert forall|k: int| first <= k < end implies boxes[#[trigger] sorted_tree.refs@[k] as int].valid() by {
            assert(sorted_tree.refs@[k] < n);
            assert(references@[sorted_tree.refs@[k] as int].aabb.valid());
        }
        assert(t.nodes@ =~= divided_nodes(sorted_tree, boxes, i as int, mid as int));
        assert(t.parents@ =~= sorted_tree.parents@.push(i).push(i));
        assert(t.shape@.height =~= divided_shape(sorted_tree, i as int, mid as int).height);
        assert(t.shape@.leaf_of =~= divided_shape(sorted_tree, i as int, mid as int).leaf_of);
        lemma_divided_links(sorted_tree, *t, boxes, i as int, mid as int);
        lemma_divided_leaves(sorted_tree, *t, boxes, i as int, mid as int);
        if found != first && found != end {
            assert(divided_at(
                *t,
                references@,
                a as int,
                b as int,
                axis as int,
                pivot as int,
            ));
        }
    }
    (a, b)
}

/// Where one place is inside a leaf, the count of such places is not 0.
proof fn lemma_inside_at_least(nodes: Seq<Bvh2Node>, leaf_of: Seq<int>, upto: int, k: int)
    requires
        0 <= k < upto <= leaf_of.len(),
        nodes[leaf_of[k]].first != k,
    ensures
        inside_places(nodes, leaf_of, upto) >= 1,
    decreases upto,
{
    if k < upto - 1 {
        lemma_inside_at_least(nodes, leaf_of, upto - 1, k);
    } else {
        crate::bvh2::lemma_inside_places_same(nodes, nodes, leaf_of, upto - 1);
    }
}

/// Divides the leaf `i`, and the leaves that come of it, until each holds
/// at most `cap` references.
pub fn split_leaf(t: &mut Bvh2, references: &Vec<PrimitiveReference>, cap: u32, i: u32)
    requires
        old(t).wf(),
        old(t).bounds(boxes_of(references@)),
        all_valid(references@),
        cap >= 1,
        i < old(t).len(),
    ensures
        final(t).wf(),
        final(t).bounds(boxes_of(references@)),
        final(t).len() >= old(t).len(),
        final(t).root == old(t).root,
        final(t).refs@.len() == old(t).refs@.len(),
        forall|j: int|
            0 <= j < old(t).len() && j != i ==> #[trigger] final(t).nodes@[j] == old(t).nodes@[j],
        final(t).nodes@[i as int].aabb == old(t).nodes@[i as int].aabb,
        final(t).nodes@[i as int].count <= cap,
        old(t).nodes@[i as int].count <= cap ==> final(t).nodes@ == old(t).nodes@ && final(t).refs@ == old(t).refs@,
        forall|j: int| old(t).len() <= j < final(t).len() ==> (#[trigger] final(t).nodes@[j]).count <= cap,
    decreases old(t).nodes@[i as int].count,
{
    if t.nodes[i as usize].count <= cap {
        return ;
    }
    let (a, b) = divide(t, references, i);
    let ghost s1 = *t;
    split_leaf(t, references, cap, a);
    let ghost s2 = *t;
    proof {
        assert(s2.nodes@[b as int] == s1.nodes@[b as int]);
    }
    split_leaf(t, references, cap, b);
    proof {
        assert forall|j: int| old(t).len() <= j < t.len() implies (#[trigger] t.nodes@[j]).count
            <= cap by {
            if j != b && j < s2.len() {
                assert(t.nodes@[j] == s2.nodes@[j]);
                if j != a && j < s1.len() {
                    assert(s2.nodes@[j] == s1.nodes@[j]);
                }
            }
        }
        assert forall|j: int| 0 <= j < old(t).len() && j != i implies #[trigger] t.nodes@[j]
            == old(t).nodes@[j] by {
            assert(t.nodes@[j] == s2.nodes@[j]);
            assert(s2.nodes@[j] == s1.nodes@[j]);
        }
        assert(t.nodes@[i as int] == s2.nodes@[i as int]);
        assert(s2.nodes@[i as int] == s1.nodes@[i as int]);
    }
}

/// Divides every leaf that holds more than `cap` references. The boxes
/// of the nodes that were there stay as they are.
pub fn split_large_leaves(t: &mut Bvh2, references: &Vec<PrimitiveReference>, cap: u32)
    requires
        old(t).wf(),
        old(t).bounds(boxes_of(references@)),
        all_valid(references@),
        cap >= 1,
    ensures
        final(t).wf(),
        final(t).bounds(boxes_of(references@)),
        leaves_capped(*final(t), cap as int),
        final(t).len() >= old(t).len(),
        final(t).root == old(t).root,
        final(t).refs@.len() == old(t).refs@.len(),
        forall|j: int|
            0 <= j < old(t).len() ==> (#[trigger] final(t).nodes@[j]).aabb == old(t).nodes@[j].aabb,
        leaves_capped(*old(t), cap as int) ==> final(t).nodes@ == old(t).nodes@ && final(t).refs@
            == old(t).refs@,
{
    let n: usize = t.nodes.len();
    let mut j: usize = 0;
    while j < n
        invariant
            t.wf(),
            t.bounds(boxes_of(references@)),
            all_valid(references@),
            cap >= 1,
            n == old(t).len(),
            j <= n,
            t.len() >= n,
            t.root == old(t).root,
            t.refs@.len() == old(t).refs@.len(),
            forall|c: int| 0 <= c < n ==> (#[trigger] t.nodes@[c]).aabb == old(t).nodes@[c].aabb,
            forall|c: int| j <= c < n ==> #[trigger] t.nodes@[c] == old(t).nodes@[c],
            forall|c: int| 0 <= c < j ==> (#[trigger] t.nodes@[c]).count <= cap,
            forall|c: int| n <= c < t.len() ==> (#[trigger] t.nodes@[c]).count <= cap,
            leaves_capped(*old(t), cap as int) ==> t.nodes@ == old(t).nodes@ && t.refs@ == old(t).refs@,
        decreases n - j,
    {
        let ghost before = *t;
        proof {
            if leaves_capped(*old(t), cap as int) {
                assert(old(t).nodes@[j as int].count <= cap);
            }
        }
        split_leaf(t, references, cap, j as u32);
        proof {
            assert forall|c: int| 0 <= c < n implies (#[trigger] t.nodes@[c]).aabb == old(t).nodes@[c].aabb by {
                if c != j {
                    assert(t.nodes@[c] == before.nodes@[c]);
                }
            }
            assert forall|c: int| j + 1 <= c < n implies #[trigger] t.nodes@[c] == old(t).nodes@[c] by {
                assert(t.nodes@[c] == before.nodes@[c]);
            }
            assert forall|c: int| 0 <= c < j + 1 implies (#[trigger] t.nodes@[c]).count <= cap by {
                if c != j {
                    assert(t.nodes@[c] == before.nodes@[c]);
                }
            }
            assert forall|c: int| n <= c < t.len() implies (#[trigger] t.nodes@[c]).count <= cap by {
                if c < before.len() {
                    assert(t.nodes@[c] == before.nodes@[c]);
                }
            }
        }
        j = j + 1;
    }
}

/// A leaf holds more than `cap` references.
pub fn has_large_leaf(t: &Bvh2, cap: u32) -> (r: bool)
    ensures
        r == !leaves_capped(*t, cap as int),
{
    let mut j: usize = 0;
    while j < t.nodes.len()
        invariant
            j <= t.len(),
            forall|c: int| 0 <= c < j ==> (#[trigger] t.nodes@[c]).count <= cap,
        decreases t.len() - j,
    {
        if t.nodes[j].count > cap {
            return true;
        }
        j = j + 1;
    }
    false
}

/// The hull of all boxes is the hull of the range of all references, in
/// their own order.
pub proof fn lemma_hull_is_range(boxes: Seq<Aabb>, refs: Seq<u32>, n: int)
    requires
        0 <= n <= refs.len(),
        forall|k: int| 0 <= k < n ==> #[trigger] refs[k] == k,
    ensures
        hull_prefix(boxes, n) == range_hull(boxes, refs, 0, n),
    decreases n,
{
    if n > 0 {
        lemma_hull_is_range(boxes, refs, n - 1);
    }
}

/// Where the first place is the first of its leaf, fewer places are
/// inside leaves than there are places.
proof fn lemma_inside_below(nodes: Seq<Bvh2Node>, leaf_of: Seq<int>, upto: int)
    requires
        1 <= upto <= leaf_of.len(),
        nodes[leaf_of[0]].first == 0,
    ensures
        0 <= inside_places(nodes, leaf_of, upto) <= upto - 1,
    decreases upto,
{
    if upto > 1 {
        lemma_inside_below(nodes, leaf_of, upto - 1);
    } else {
        reveal_with_fuel(inside_places, 2);
    }
}

impl Bvh2 {
    /// The hierarchy of one leaf that holds all references, in their own
    /// order.
    pub fn single_leaf(references: &Vec<PrimitiveReference>) -> (r: Result<Bvh2, BuildError>)
        ensures
            match r {
                Ok(t) => {
                    &&& spec_input_error(references@).is_none()
                    &&& t.wf()
                    &&& t.bounds(boxes_of(references@))
                    &&& t.len() == 1
                    &&& t.root == 0
                    &&& t.nodes@[0] == (Bvh2Node {
                        aabb: hull(boxes_of(references@)),
                        left: 0,
                        right: 0,
                        first: 0,
                        count: references@.len() as u32,
                    })
                    &&& t.refs@.len() == references@.len()
                    &&& forall|k: int| 0 <= k < t.refs@.len() ==> #[trigger] t.refs@[k] == k
                },
                Err(e) => spec_input_error(references@) == Some(e),
            },
    {
        let n: usize = references.len();
        if n == 0 {
            return Err(BuildError::NoPrimitives);
        }
        if n > MAX_REFERENCES {
            return Err(BuildError::TooManyPrimitives);
        }
        let scene = match scene_bounds(references) {
            Ok(scene) => scene,
            Err(index) => {
                return Err(BuildError::UnboundedGeometry { index });
            },
        };
        let mut refs: Vec<u32> = Vec::new();
        let mut k: usize = 0;
        while k < n
            invariant
                k <= n,
                n <= MAX_REFERENCES,
                refs@.len() == k,
                forall|c: int| 0 <= c < k ==> #[trigger] refs@[c] == c,
            decreases n - k,
        {
            refs.push(k as u32);
            k = k + 1;
        }
        let mut nodes: Vec<Bvh2Node> = Vec::new();
        nodes.push(Bvh2Node { aabb: scene, left: 0, right: 0, first: 0, count: n as u32 });
        let mut parents: Vec<u32> = Vec::new();
        parents.push(NO_NODE);
        let ghost shape = TreeShape {
            height: Seq::new(1, |j: int| 0nat),
            cap: 0,
            leaf_of: Seq::new(n as nat, |c: int| 0int),
            pos_of: Seq::new(n as nat, |c: int| c),
        };
        let t = Bvh2 { nodes, parents, root: 0, refs, shape: Ghost(shape) };
        proof {
            let boxes = boxes_of(references@);
            lemma_inside_below(t.nodes@, t.shape@.leaf_of, n as int);
            assert(t.sizes_ok());
            assert(t.linked(-1, -1));
            assert(t.leaves_ok());
            crate::primitive::lemma_hull_prefix(boxes, n as int);
            assert(t.wf());
            lemma_hull_is_range(boxes, t.refs@, n as int);
        }
        Ok(t)
    }
}

} // verus!
