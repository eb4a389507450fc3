//! Local search on the binary hierarchy: nodes are taken out and put back
//! where the summed half-area of the internal nodes grows least.
use vstd::prelude::*;
use crate::aabb::{Aabb, lemma_half_area_bounds, lemma_half_area_monotone, lemma_union_is_least};
use crate::bvh2::{lemma_inside_places_same, lemma_node_within, lemma_root_holds_node};
use crate::bvh2::{Bvh2, Bvh2Node, TreeShape, NO_NODE, cost_prefix, inner_area_prefix, node_cost};
use crate::config::SahWeights;
use crate::sort::{SortEntry, entry_le, sort_entries};

verus! {

/// `b` has the leaves, the references and the root of `a`.
pub open spec fn same_leaves(a: Bvh2, b: Bvh2) -> bool {
    &&& a.nodes@.len() == b.nodes@.len()
    &&& a.refs@ == b.refs@
    &&& a.root == b.root
    &&& a.shape@.leaf_of == b.shape@.leaf_of
    &&& a.shape@.pos_of == b.shape@.pos_of
    &&& forall|i: int|
        #![trigger a.nodes@[i]]
        #![trigger b.nodes@[i]]
        0 <= i < a.len() ==> {
            &&& a.nodes@[i].count == b.nodes@[i].count
            &&& a.nodes@[i].first == b.nodes@[i].first
            &&& a.nodes@[i].is_leaf() ==> a.nodes@[i] == b.nodes@[i]
        }
}

/// `b` has the links of `a`: the same parents and children.
pub open spec fn same_links(a: Bvh2, b: Bvh2) -> bool {
    &&& a.parents@ == b.parents@
    &&& a.shape@ == b.shape@
    &&& forall|i: int|
        #![trigger a.nodes@[i]]
        #![trigger b.nodes@[i]]
        0 <= i < a.len() ==> a.nodes@[i].left == b.nodes@[i].left && a.nodes@[i].right
            == b.nodes@[i].right
}

/// All nodes but `k` and `m` have the same children in `a` and `b`.
pub open spec fn same_children_but(a: Bvh2, b: Bvh2, k: int, m: int) -> bool {
    forall|i: int|
        #![trigger a.nodes@[i]]
        #![trigger b.nodes@[i]]
        0 <= i < a.len() && i != k && i != m ==> a.nodes@[i].left == b.nodes@[i].left
            && a.nodes@[i].right == b.nodes@[i].right
}

/// `b` has the children of `a`, with `to` in the place of `from`.
pub open spec fn child_swapped(a: Bvh2Node, b: Bvh2Node, from: u32, to: u32) -> bool {
    if a.left == from {
        b.left == to && b.right == a.right
    } else {
        b.left == a.left && b.right == to
    }
}

/// What `detach` hands back.
pub struct Detached {
    /// The parent that the node had.
    pub parent: u32,
    /// The sibling that the node had.
    pub sibling: u32,
    /// By how much the summed half-area of the internal nodes has changed.
    pub delta: Option<i128>,
}

impl Bvh2 {
    /// The node without a parent that is reached from `v` by going up.
    pub open spec fn top(self, v: int) -> int
        decreases self.shape@.cap - self.shape@.height[v],
    {
        if 0 <= v < self.len() && self.parents@[v] != NO_NODE && self.parents@[v] < self.len()
            && self.shape@.height[v] < self.shape@.height[self.parents@[v] as int]
            <= self.shape@.cap {
            self.top(self.parents@[v] as int)
        } else {
            v
        }
    }

    /// Going up from `v` leads to the root.
    pub open spec fn rooted(self, v: int) -> bool {
        0 <= v < self.len() && self.top(v) == self.root
    }

    /// The subtree `x` and the internal node `p` are taken out; the rest
    /// is a whole tree.
    pub open spec fn detached(self, x: int, p: int) -> bool {
        &&& self.wf_but(x, p, -1)
        &&& 0 <= x < self.len()
        &&& 0 <= p < self.len()
        &&& x != p
        &&& x != self.root
        &&& p != self.root
        &&& !self.nodes@[p].is_leaf()
        &&& self.parents@[x] == NO_NODE
        &&& self.parents@[p] == NO_NODE
        &&& forall|v: int| 0 <= v < self.len() ==> #[trigger] self.parents@[v] != p
    }
}

/// Recomputes the boxes from `start` up to the root.
fn refit_up(t: &mut Bvh2, start: u32, Ghost(x): Ghost<int>, Ghost(p): Ghost<int>) -> (delta: Option<
    i128,
>)
    requires
        old(t).wf_but(x, p, start as int),
        old(t).is_inner(start as int),
        start != p,
        start != x,
        0 <= x < old(t).len() ==> old(t).shape@.height[start as int] > old(t).shape@.height[x],
        forall|v: int| 0 <= v < old(t).len() ==> #[trigger] old(t).parents@[v] != p,
    ensures
        final(t).wf_but(x, p, -1),
        same_leaves(*old(t), *final(t)),
        same_links(*old(t), *final(t)),
        forall|i: int|
            0 <= i < old(t).len() && old(t).shape@.height[i] < old(t).shape@.height[start as int]
                ==> #[trigger] final(t).nodes@[i] == old(t).nodes@[i],
        delta matches Some(d) ==> final(t).inner_area() == old(t).inner_area() + d && -2
            * AREA_SUM_LIMIT <= d <= 2 * AREA_SUM_LIMIT,
        delta.is_some(),
{
    let mut cur: u32 = start;
    let mut sum: i128 = 0;
    proof {
        lemma_inner_area_bounds(t.nodes@, t.len());
    }
    loop
        invariant
            t.inner_area() == old(t).inner_area() + sum,
            0 <= old(t).inner_area() <= AREA_SUM_LIMIT,
            -2 * AREA_SUM_LIMIT <= sum <= 2 * AREA_SUM_LIMIT,
            t.wf_but(x, p, cur as int),
            t.is_inner(cur as int),
            cur != p,
            cur != x,
            0 <= x < t.len() ==> t.shape@.height[cur as int] > t.shape@.height[x],
            t.shape@.height[cur as int] >= t.shape@.height[start as int],
            forall|v: int| 0 <= v < t.len() ==> #[trigger] t.parents@[v] != p,
            same_leaves(*old(t), *t),
            same_links(*old(t), *t),
            forall|i: int|
                0 <= i < t.len() && t.shape@.height[i] < t.shape@.height[start as int]
                    ==> #[trigger] t.nodes@[i] == old(t).nodes@[i],
        ensures
            t.wf_but(x, p, -1),
            same_leaves(*old(t), *t),
            same_links(*old(t), *t),
            forall|i: int|
                0 <= i < t.len() && t.shape@.height[i] < t.shape@.height[start as int]
                    ==> #[trigger] t.nodes@[i] == old(t).nodes@[i],
            t.inner_area() == old(t).inner_area() + sum,
            -2 * AREA_SUM_LIMIT <= sum <= 2 * AREA_SUM_LIMIT,
        decreases t.shape@.cap - t.shape@.height[cur as int],
    {
        let ghost before = *t;
        proof {
            assert(t.inner_ok(cur as int));
        }
        let n: Bvh2Node = t.nodes[cur as usize];
        let bx: Aabb = t.nodes[n.left as usize].aabb.union(t.nodes[n.right as usize].aabb);
        let was: u64 = n.aabb.half_area();
        let now: u64 = bx.half_area();
        proof {
            lemma_inner_area_bounds(t.nodes@, t.len());
        }
        sum = sum + (now as i128 - was as i128);
        t.nodes.set(
            cur as usize,
            Bvh2Node { aabb: bx, left: n.left, right: n.right, first: n.first, count: n.count },
        );
        let up: u32 = t.parents[cur as usize];
        proof {
            lemma_inner_area_set(before.nodes@, cur as int, t.nodes@[cur as int], before.len());
            assert(t.nodes@ =~= before.nodes@.update(cur as int, t.nodes@[cur as int]));
            lemma_inner_area_bounds(t.nodes@, t.len());
            lemma_union_is_least(
                before.nodes@[n.left as int].aabb,
                before.nodes@[n.right as int].aabb,
            );
            assert(before.leaves_ok());
            lemma_inside_places_same(
                before.nodes@,
                t.nodes@,
                t.shape@.leaf_of,
                t.refs@.len() as int,
            );
            assert forall|i: int|
                0 <= i < t.len() && i != t.root && i != x && i != p implies #[trigger] t.child_ok(
                i,
            ) by {
                assert(before.child_ok(i));
            }
            assert forall|i: int| t.is_inner(i) && i != p implies #[trigger] t.inner_ok(i) by {
                assert(before.is_inner(i));
                assert(before.inner_ok(i));
            }
            assert(t.linked(x, p));
            assert(t.leaves_ok()) by {
                assert(before.leaves_ok());
                assert forall|i: int|
                    0 <= i < t.len() && (#[trigger] t.nodes@[i]).is_leaf() implies {
                    &&& t.nodes@[i].first + t.nodes@[i].count <= t.refs@.len()
                    &&& forall|k: int|
                        t.nodes@[i].first <= k < t.nodes@[i].first + t.nodes@[i].count
                            ==> #[trigger] t.shape@.leaf_of[k] == i
                } by {
                    assert(before.nodes@[i].is_leaf());
                }
            }
            assert forall|i: int|
                t.is_inner(i) && i != p && i != cur && i != up implies #[trigger] t.tight_at(
                i,
            ) by {
                assert(before.is_inner(i));
                assert(before.inner_ok(i));
                assert(before.tight_at(i));
            }
            assert(t.tight_at(cur as int));
            if cur != t.root {
                assert(before.child_ok(cur as int));
                assert(before.is_inner(up as int));
                assert(before.inner_ok(up as int));
            } else {
                assert forall|i: int| t.is_inner(i) && i != p implies i != up by {}
            }
        }
        if up == NO_NODE {
            break ;
        }
        cur = up;
    }
    Some(sum)
}

/// No sum of the half-areas of internal nodes reaches this magnitude.
pub const AREA_SUM_LIMIT: i128 = 0x1_0000_0000_0000_0000_0000_0000_0000;

/// The summed half-area of the internal nodes among the first `k` is
/// within `k` times the greatest half-area, and so within
/// `AREA_SUM_LIMIT`.
pub proof fn lemma_inner_area_bounds(nodes: Seq<Bvh2Node>, k: int)
    requires
        0 <= k <= nodes.len(),
        nodes.len() <= u32::MAX,
    ensures
        0 <= inner_area_prefix(nodes, k) <= k * crate::aabb::half_area_limit(),
        inner_area_prefix(nodes, k) <= AREA_SUM_LIMIT,
    decreases k,
{
    let limit = crate::aabb::half_area_limit();
    if k > 0 {
        lemma_inner_area_bounds(nodes, k - 1);
        lemma_half_area_bounds(nodes[k - 1].aabb);
        assert((k - 1) * limit + limit == k * limit) by (nonlinear_arith);
    } else {
        assert(0 * limit == 0) by (nonlinear_arith);
    }
    assert(k * crate::aabb::half_area_limit() <= AREA_SUM_LIMIT) by (nonlinear_arith)
        requires
            0 <= k <= 0xffff_ffff,
            crate::aabb::half_area_limit() == 3 * 0x4000_0000_0000_0000,
            AREA_SUM_LIMIT == 0x1_0000_0000_0000_0000_0000_0000_0000,
    ;
}

/// Replacing a node by one of the same kind changes the summed half-area
/// of the internal nodes by the difference of the two, if they are
/// internal.
pub proof fn lemma_inner_area_set(nodes: Seq<Bvh2Node>, i: int, n: Bvh2Node, k: int)
    requires
        0 <= i < nodes.len(),
        0 <= k <= nodes.len(),
        nodes[i].is_leaf() == n.is_leaf(),
    ensures
        inner_area_prefix(nodes.update(i, n), k) == inner_area_prefix(nodes, k) + if i < k
            && !n.is_leaf() {
            n.aabb.spec_half_area() - nodes[i].aabb.spec_half_area()
        } else {
            0
        },
    decreases k,
{
    if k > 0 {
        lemma_inner_area_set(nodes, i, n, k - 1);
    }
}

/// Takes the node `x` out of the tree: its sibling takes the place of its
/// parent. Returns the parent and the sibling.
pub fn detach(t: &mut Bvh2, x: u32) -> (r: Detached)
    requires
        old(t).wf(),
        x < old(t).len(),
        x != old(t).root,
        old(t).parents@[x as int] != old(t).root,
    ensures
        final(t).detached(x as int, r.parent as int),
        r.parent == old(t).parents@[x as int],
        r.sibling == sibling_of(*old(t), x as int),
        r.sibling < old(t).len(),
        r.sibling != x,
        r.sibling != r.parent,
        old(t).parents@[r.sibling as int] == r.parent,
        final(t).rooted(r.sibling as int),
        r.sibling != final(t).root,
        same_leaves(*old(t), *final(t)),
        final(t).nodes@[x as int] == old(t).nodes@[x as int],
        final(t).shape@ == old(t).shape@,
        final(t).parents@ == old(t).parents@.update(
            r.sibling as int,
            old(t).parents@[r.parent as int],
        ).update(x as int, NO_NODE).update(r.parent as int, NO_NODE),
        same_children_but(*old(t), *final(t), old(t).parents@[r.parent as int] as int, -1),
        child_swapped(
            old(t).nodes@[old(t).parents@[r.parent as int] as int],
            final(t).nodes@[old(t).parents@[r.parent as int] as int],
            r.parent,
            r.sibling,
        ),
        r.delta matches Some(d) ==> final(t).inner_area() == old(t).inner_area() + d && -2
            * AREA_SUM_LIMIT <= d <= 2 * AREA_SUM_LIMIT,
        r.delta.is_some(),
        forall|v: int|
            0 <= v < old(t).len() && v != r.parent && !old(t).on_path(v, x as int)
                ==> #[trigger] final(t).rooted(v),
{
    let ghost pre = *t;
    let p: u32 = t.parents[x as usize];
    proof {
        assert(pre.child_ok(x as int));
        assert(pre.is_inner(p as int));
        assert(pre.inner_ok(p as int));
        assert(pre.child_ok(p as int));
    }
    let pn: Bvh2Node = t.nodes[p as usize];
    let s: u32 = if pn.left == x {
        pn.right
    } else {
        pn.left
    };
    let g: u32 = t.parents[p as usize];
    proof {
        assert(pre.is_inner(g as int));
        assert(pre.inner_ok(g as int));
        assert(pre.shape@.height[g as int] <= pre.shape@.cap);
    }
    let gn: Bvh2Node = t.nodes[g as usize];
    let g_new = if gn.left == p {
        Bvh2Node { aabb: gn.aabb, left: s, right: gn.right, first: gn.first, count: gn.count }
    } else {
        Bvh2Node { aabb: gn.aabb, left: gn.left, right: s, first: gn.first, count: gn.count }
    };
    t.nodes.set(g as usize, g_new);
    t.parents.set(s as usize, g);
    t.parents.set(x as usize, NO_NODE);
    t.parents.set(p as usize, NO_NODE);
    let ghost mid = *t;
    proof {
        assert(s != g && x != g && p != g);
        assert(pre.leaves_ok());
        lemma_inside_places_same(pre.nodes@, mid.nodes@, mid.shape@.leaf_of, mid.refs@.len() as int);
        assert forall|i: int|
            0 <= i < mid.len() && i != mid.root && i != x && i != p implies #[trigger] mid.child_ok(
            i,
        ) by {
            assert(pre.child_ok(i));
            if i != s {
                let pi = pre.parents@[i] as int;
                if pi == p {
                    assert(i == pn.left || i == pn.right);
                }
            }
        }
        assert forall|i: int| mid.is_inner(i) && i != p implies #[trigger] mid.inner_ok(i) by {
            assert(pre.is_inner(i));
            assert(pre.inner_ok(i));
            let n = pre.nodes@[i];
            if i != g {
                assert(n.left != x && n.left != s && n.left != p);
                assert(n.right != x && n.right != s && n.right != p);
            } else {
                assert(gn.left != x && gn.left != s);
                assert(gn.right != x && gn.right != s);
            }
        }
        assert(mid.linked(x as int, p as int));
        assert(mid.leaves_ok()) by {
            assert(pre.leaves_ok());
            assert forall|i: int| 0 <= i < mid.len() && (#[trigger] mid.nodes@[i]).is_leaf() implies {
                &&& mid.nodes@[i].first + mid.nodes@[i].count <= mid.refs@.len()
                &&& forall|k: int|
                    mid.nodes@[i].first <= k < mid.nodes@[i].first + mid.nodes@[i].count
                        ==> #[trigger] mid.shape@.leaf_of[k] == i
            } by {
                assert(pre.nodes@[i].is_leaf());
            }
        }
        assert forall|i: int|
            mid.is_inner(i) && i != p && i != g implies #[trigger] mid.tight_at(i) by {
            assert(pre.is_inner(i));
            assert(pre.inner_ok(i));
            assert(pre.tight_at(i));
        }
        assert(mid.wf_but(x as int, p as int, g as int));
        assert forall|v: int| 0 <= v < mid.len() implies #[trigger] mid.parents@[v] != p by {
            if v != s && v != x && v != p && v != pre.root {
                assert(pre.child_ok(v));
                if pre.parents@[v] == p {
                    assert(v == pn.left || v == pn.right);
                }
            }
        }
    }
    proof {
        assert(mid.inner_area() == pre.inner_area()) by {
            lemma_inner_area_set(pre.nodes@, g as int, g_new, pre.len());
            assert(mid.nodes@ =~= pre.nodes@.update(g as int, g_new));
        }
    }
    let delta = refit_up(t, g, Ghost(x as int), Ghost(p as int));
    proof {
        lemma_high_is_rooted(*t, x as int, p as int, g as int);
        assert(t.top(s as int) == t.top(g as int));
        assert forall|v: int|
            0 <= v < pre.len() && v != p && !pre.on_path(v, x as int) implies #[trigger] t.rooted(
            v,
        ) by {
            lemma_outside_is_rooted(pre, *t, x as int, p as int, s as int, g as int, v);
        }
    }
    Detached { parent: p, sibling: s, delta }
}

/// After `x` is taken out, going up from any node that was not below `x`,
/// but from the parent that `x` had, leads to the root.
proof fn lemma_outside_is_rooted(pre: Bvh2, fin: Bvh2, x: int, p: int, s: int, g: int, v: int)
    requires
        pre.wf(),
        fin.detached(x, p),
        fin.shape@ == pre.shape@,
        fin.root == pre.root,
        fin.len() == pre.len(),
        0 <= s < pre.len(),
        0 <= g < pre.len(),
        s != x,
        pre.parents@[x] == p,
        pre.parents@[s] == p,
        pre.parents@[p] == g,
        fin.parents@ == pre.parents@.update(s, g as u32).update(x, NO_NODE).update(p, NO_NODE),
        fin.rooted(g),
        0 <= v < pre.len(),
        v != p,
        !pre.on_path(v, x),
    ensures
        fin.rooted(v),
    decreases pre.shape@.cap - pre.shape@.height[v],
{
    if v == pre.root {
    } else if v == s {
        assert(pre.child_ok(x));
        assert(pre.child_ok(s));
        assert(pre.is_inner(p));
        assert(pre.inner_ok(p));
        assert(pre.child_ok(p));
        assert(pre.is_inner(g));
        assert(pre.inner_ok(g));
        assert(pre.shape@.height[g] <= pre.shape@.cap);
        assert(fin.parents@[s] == g);
        assert(fin.top(s) == fin.top(g));
    } else {
        assert(pre.child_ok(v));
        let up = pre.parents@[v] as int;
        assert(pre.is_inner(up));
        assert(pre.inner_ok(up));
        assert(pre.shape@.height[up] <= pre.shape@.cap);
        if up == p {
            assert(pre.child_ok(x));
            assert(pre.child_ok(s));
            assert(pre.inner_ok(p));
            assert(v == x || v == s);
        }
        lemma_outside_is_rooted(pre, fin, x, p, s, g, up);
        assert(fin.top(v) == fin.top(up));
    }
}

/// In a tree from which `x` and `p` are taken out, going up from a node
/// that is higher than both leads to the root.
pub proof fn lemma_high_is_rooted(t: Bvh2, x: int, p: int, v: int)
    requires
        t.detached(x, p),
        0 <= v < t.len(),
        t.shape@.height[v] > t.shape@.height[x],
        t.shape@.height[v] > t.shape@.height[p],
    ensures
        t.rooted(v),
    decreases t.shape@.cap - t.shape@.height[v],
{
    if v != t.root {
        assert(t.child_ok(v));
        let up = t.parents@[v] as int;
        assert(t.is_inner(up));
        assert(t.inner_ok(up));
        assert(t.shape@.height[up] <= t.shape@.cap);
        lemma_high_is_rooted(t, x, p, up);
    }
}

impl Bvh2 {
    /// Going up from `from` meets `i`; `from` itself counts.
    pub open spec fn on_path(self, from: int, i: int) -> bool
        decreases self.shape@.cap - self.shape@.height[from],
    {
        from == i || (0 <= from < self.len() && self.parents@[from] != NO_NODE
            && self.parents@[from] < self.len() && self.shape@.height[from]
            < self.shape@.height[self.parents@[from] as int] <= self.shape@.cap && self.on_path(
            self.parents@[from] as int,
            i,
        ))
    }
}

/// What is met on the way up is no lower than where the way starts.
pub proof fn lemma_path_higher(t: Bvh2, from: int, i: int)
    requires
        t.on_path(from, i),
    ensures
        t.shape@.height[i] >= t.shape@.height[from],
    decreases t.shape@.cap - t.shape@.height[from],
{
    if from != i {
        lemma_path_higher(t, t.parents@[from] as int, i);
    }
}

/// A node without a parent that is met on the way up is where the way
/// ends.
pub proof fn lemma_path_top(t: Bvh2, from: int, i: int)
    requires
        t.on_path(from, i),
        0 <= i < t.len(),
        t.parents@[i] == NO_NODE,
    ensures
        t.top(from) == i,
    decreases t.shape@.cap - t.shape@.height[from],
{
    if from != i {
        lemma_path_top(t, t.parents@[from] as int, i);
    }
}

/// With a node, the way up meets its parent.
pub proof fn lemma_path_closed(t: Bvh2, from: int, c: int)
    requires
        t.on_path(from, c),
        0 <= c < t.len(),
        t.parents@[c] != NO_NODE,
        t.parents@[c] < t.len(),
        t.shape@.height[c] < t.shape@.height[t.parents@[c] as int] <= t.shape@.cap,
    ensures
        t.on_path(from, t.parents@[c] as int),
    decreases t.shape@.cap - t.shape@.height[from],
{
    if from != c {
        lemma_path_closed(t, t.parents@[from] as int, c);
    } else {
        assert(t.on_path(t.parents@[c] as int, t.parents@[c] as int));
    }
}

/// Puts the subtree `x` back, as the sibling of `target`: the node `p`
/// takes the place of `target` and gets `target` and `x` as its children.
pub fn attach(t: &mut Bvh2, x: u32, p: u32, target: u32) -> (delta: Option<i128>)
    requires
        old(t).detached(x as int, p as int),
        old(t).rooted(target as int),
        target != old(t).root,
    ensures
        final(t).wf(),
        same_leaves(*old(t), *final(t)),
        final(t).parents@ == old(t).parents@.update(target as int, p).update(x as int, p).update(
            p as int,
            old(t).parents@[target as int],
        ),
        same_children_but(*old(t), *final(t), old(t).parents@[target as int] as int, p as int),
        child_swapped(
            old(t).nodes@[old(t).parents@[target as int] as int],
            final(t).nodes@[old(t).parents@[target as int] as int],
            target,
            p,
        ),
        final(t).nodes@[p as int].left == target,
        final(t).nodes@[p as int].right == x,
        delta matches Some(d) ==> final(t).inner_area() == old(t).inner_area() + d && -2
            * AREA_SUM_LIMIT <= d <= 2 * AREA_SUM_LIMIT,
        delta.is_some(),
        forall|v: int| #[trigger] old(t).rooted(v) ==> !final(t).on_path(v, x as int),
{
    let ghost pre = *t;
    proof {
        assert(pre.top(x as int) == x);
        assert(pre.top(p as int) == p);
        assert(pre.child_ok(target as int));
    }
    let q: u32 = t.parents[target as usize];
    proof {
        assert(pre.is_inner(q as int));
        assert(pre.inner_ok(q as int));
        assert(pre.shape@.height[q as int] <= pre.shape@.cap);
        assert(pre.top(target as int) == pre.top(q as int));
    }
    let pn: Bvh2Node = t.nodes[p as usize];
    let qn: Bvh2Node = t.nodes[q as usize];
    let bx: Aabb = t.nodes[target as usize].aabb.union(t.nodes[x as usize].aabb);
    let first_step: i128 = bx.half_area() as i128 - pn.aabb.half_area() as i128;
    t.nodes.set(
        p as usize,
        Bvh2Node { aabb: bx, left: target, right: x, first: pn.first, count: pn.count },
    );
    let q_new = if qn.left == target {
        Bvh2Node { aabb: qn.aabb, left: p, right: qn.right, first: qn.first, count: qn.count }
    } else {
        Bvh2Node { aabb: qn.aabb, left: qn.left, right: p, first: qn.first, count: qn.count }
    };
    t.nodes.set(q as usize, q_new);
    t.parents.set(target as usize, p);
    t.parents.set(x as usize, p);
    t.parents.set(p as usize, q);
    let ghost h = pre.shape@.height;
    let ghost top_h: nat = if h[target as int] >= h[x as int] {
        h[target as int]
    } else {
        h[x as int]
    };
    let ghost lifted = Seq::new(
        h.len(),
        |i: int|
            if i == p {
                top_h + 1
            } else if pre.on_path(q as int, i) {
                h[i] + top_h + 2
            } else {
                h[i]
            },
    );
    t.shape = Ghost(
        TreeShape {
            height: lifted,
            cap: pre.shape@.cap + top_h + 2,
            leaf_of: pre.shape@.leaf_of,
            pos_of: pre.shape@.pos_of,
        },
    );
    let ghost mid = *t;
    proof {
        lemma_union_is_least(pre.nodes@[target as int].aabb, pre.nodes@[x as int].aabb);
        assert(!pre.on_path(q as int, x as int)) by {
            if pre.on_path(q as int, x as int) {
                lemma_path_top(pre, q as int, x as int);
            }
        }
        assert(!pre.on_path(q as int, p as int)) by {
            if pre.on_path(q as int, p as int) {
                lemma_path_top(pre, q as int, p as int);
            }
        }
        assert(!pre.on_path(q as int, target as int)) by {
            if pre.on_path(q as int, target as int) {
                lemma_path_higher(pre, q as int, target as int);
            }
        }
        assert(pre.leaves_ok());
        lemma_inside_places_same(pre.nodes@, mid.nodes@, mid.shape@.leaf_of, mid.refs@.len() as int);
        assert(mid.sizes_ok());
        assert forall|i: int| 0 <= i < mid.len() && i != mid.root implies #[trigger] mid.child_ok(
            i,
        ) by {
            if i != x && i != p && i != target {
                assert(pre.child_ok(i));
                if pre.parents@[i] == q {
                    assert(i == qn.left || i == qn.right);
                }
            }
        }
        assert forall|i: int| mid.is_inner(i) implies #[trigger] mid.inner_ok(i) by {
            if i == p {
            } else if i == q {
                let u = if qn.left == target {
                    qn.right
                } else {
                    qn.left
                };
                assert(pre.parents@[u as int] == q);
                if pre.on_path(q as int, u as int) {
                    lemma_path_higher(pre, q as int, u as int);
                }
            } else {
                assert(pre.is_inner(i));
                assert(pre.inner_ok(i));
                let n = pre.nodes@[i];
                assert(n.left != target && n.left != x && n.left != p);
                assert(n.right != target && n.right != x && n.right != p);
                if pre.on_path(q as int, n.left as int) {
                    lemma_path_closed(pre, q as int, n.left as int);
                }
                if pre.on_path(q as int, n.right as int) {
                    lemma_path_closed(pre, q as int, n.right as int);
                }
            }
        }
        assert(mid.linked(-1, -1));
        assert(mid.leaves_ok()) by {
            assert(pre.leaves_ok());
            assert forall|i: int| 0 <= i < mid.len() && (#[trigger] mid.nodes@[i]).is_leaf() implies {
                &&& mid.nodes@[i].first + mid.nodes@[i].count <= mid.refs@.len()
                &&& forall|k: int|
                    mid.nodes@[i].first <= k < mid.nodes@[i].first + mid.nodes@[i].count
                        ==> #[trigger] mid.shape@.leaf_of[k] == i
            } by {
                assert(pre.nodes@[i].is_leaf());
            }
        }
        assert forall|i: int| mid.is_inner(i) && i != q implies #[trigger] mid.tight_at(i) by {
            if i != p {
                assert(pre.is_inner(i));
                assert(pre.inner_ok(i));
                assert(pre.tight_at(i));
            }
        }
        assert(mid.wf_but(-1, -1, q as int));
        let p_new = mid.nodes@[p as int];
        let step1 = pre.nodes@.update(p as int, p_new);
        lemma_inner_area_set(pre.nodes@, p as int, p_new, pre.len());
        lemma_inner_area_set(step1, q as int, q_new, pre.len());
        assert(mid.nodes@ =~= step1.update(q as int, q_new));
        assert(mid.inner_area() == pre.inner_area() + first_step);
    }
    let rest = refit_up(t, q, Ghost(-1), Ghost(-1));
    proof {
        assert forall|v: int| #[trigger] pre.rooted(v) implies !t.on_path(v, x as int) by {
            lemma_rooted_stays_outside(pre, *t, x as int, p as int, target as int, q as int, v);
        }
    }
    proof {
        lemma_inner_area_bounds(pre.nodes@, pre.len());
        lemma_inner_area_bounds(t.nodes@, t.len());
    }
    match rest {
        Some(d) => Some(d + first_step),
        None => None,
    }
}

/// After `x` is put back, going up from a node of the tree into which it
/// was put does not meet `x`.
proof fn lemma_rooted_stays_outside(pre: Bvh2, fin: Bvh2, x: int, p: int, target: int, q: int, v: int)
    requires
        pre.detached(x, p),
        pre.rooted(target),
        target != pre.root,
        q == pre.parents@[target],
        fin.len() == pre.len(),
        fin.root == pre.root,
        fin.parents@ == pre.parents@.update(target, p as u32).update(x, p as u32).update(
            p,
            q as u32,
        ),
        pre.rooted(v),
    ensures
        !fin.on_path(v, x),
    decreases pre.shape@.cap - pre.shape@.height[v],
{
    assert(pre.top(x) == x);
    assert(pre.top(p) == p);
    if v == pre.root {
    } else if v == target {
        assert(pre.child_ok(target));
        assert(pre.is_inner(q));
        assert(pre.inner_ok(q));
        assert(pre.shape@.height[q] <= pre.shape@.cap);
        assert(pre.top(target) == pre.top(q));
        lemma_rooted_stays_outside(pre, fin, x, p, target, q, q);
        assert(fin.parents@[target] == p);
        assert(fin.parents@[p] == q);
        if fin.on_path(v, x) {
            assert(fin.on_path(p, x));
            assert(fin.on_path(q, x));
        }
    } else {
        assert(pre.child_ok(v));
        let up = pre.parents@[v] as int;
        assert(pre.is_inner(up));
        assert(pre.inner_ok(up));
        assert(pre.shape@.height[up] <= pre.shape@.cap);
        assert(pre.top(v) == pre.top(up));
        lemma_rooted_stays_outside(pre, fin, x, p, target, q, up);
        assert(fin.parents@[v] == up);
    }
}

/// Every node has the same two children in `a` and `b`, in either order.
pub open spec fn same_shape(a: Bvh2, b: Bvh2) -> bool {
    forall|i: int|
        #![trigger a.nodes@[i]]
        #![trigger b.nodes@[i]]
        0 <= i < a.len() ==> (a.nodes@[i].left == b.nodes@[i].left && a.nodes@[i].right
            == b.nodes@[i].right) || (a.nodes@[i].left == b.nodes@[i].right && a.nodes@[i].right
            == b.nodes@[i].left)
}

/// Two whole trees with the same leaves and the same shape have the same
/// boxes.
pub proof fn lemma_tight_unique(a: Bvh2, b: Bvh2, i: int)
    requires
        a.wf(),
        b.wf(),
        same_leaves(a, b),
        same_shape(a, b),
        0 <= i < a.len(),
    ensures
        a.nodes@[i].aabb == b.nodes@[i].aabb,
    decreases a.shape@.height[i],
{
    if !a.nodes@[i].is_leaf() {
        assert(a.is_inner(i));
        assert(b.is_inner(i));
        assert(a.inner_ok(i));
        assert(a.tight_at(i));
        assert(b.tight_at(i));
        let n = a.nodes@[i];
        lemma_tight_unique(a, b, n.left as int);
        lemma_tight_unique(a, b, n.right as int);
        lemma_union_is_least(a.nodes@[n.left as int].aabb, a.nodes@[n.right as int].aabb);
    }
}

/// Nodes with the same boxes and kinds have the same summed half-area.
pub proof fn lemma_same_boxes_same_area(a: Seq<Bvh2Node>, b: Seq<Bvh2Node>, k: int)
    requires
        0 <= k <= a.len(),
        k <= b.len(),
        forall|i: int|
            0 <= i < k ==> a[i].aabb == b[i].aabb && a[i].is_leaf() == b[i].is_leaf(),
    ensures
        inner_area_prefix(a, k) == inner_area_prefix(b, k),
    decreases k,
{
    if k > 0 {
        lemma_same_boxes_same_area(a, b, k - 1);
    }
}

/// By how much the box of node `a` gains half-area when it takes in `b`.
pub open spec fn growth(t: Bvh2, a: int, b: Aabb) -> int {
    t.nodes@[a].aabb.spec_union(b).spec_half_area() - t.nodes@[a].aabb.spec_half_area()
}

/// The summed growth of the nodes above `v` when they take in `b`.
pub open spec fn growth_above(t: Bvh2, v: int, b: Aabb) -> int
    decreases t.shape@.cap - t.shape@.height[v],
{
    if 0 <= v < t.len() && t.parents@[v] != NO_NODE && t.parents@[v] < t.len()
        && t.shape@.height[v] < t.shape@.height[t.parents@[v] as int] <= t.shape@.cap {
        growth(t, t.parents@[v] as int, b) + growth_above(t, t.parents@[v] as int, b)
    } else {
        0
    }
}

/// What it costs to put a subtree with box `b` beside `v`: the half-area
/// of the new parent plus the growth of all nodes above.
pub open spec fn insertion_cost(t: Bvh2, v: int, b: Aabb) -> int {
    t.nodes@[v].aabb.spec_union(b).spec_half_area() + growth_above(t, v, b)
}

/// The cost of putting a subtree with box `b` beside `v`, where it fits
/// 128 bits.
pub open spec fn spec_cost_beside(t: Bvh2, v: int, b: Aabb) -> Option<u128> {
    if insertion_cost(t, v, b) <= u128::MAX {
        Some(insertion_cost(t, v, b) as u128)
    } else {
        None
    }
}

/// Most nodes that one search for a place looks at.
pub const SEARCH_BUDGET: u32 = 256;

/// The cost of putting a subtree with box `b` beside `v`. For a valid box
/// it is `None` exactly where the cost does not fit the result.
fn cost_beside(t: &Bvh2, Ghost(x): Ghost<int>, Ghost(p): Ghost<int>, v: u32, b: &Aabb) -> (c:
    Option<u128>)
    requires
        t.detached(x, p),
        t.rooted(v as int),
    ensures
        c matches Some(sum) ==> sum == insertion_cost(*t, v as int, *b),
        b.valid() ==> c == spec_cost_beside(*t, v as int, *b),
{
    let first: u64 = t.nodes[v as usize].aabb.union(*b).half_area();
    let mut sum: u128 = first as u128;
    let mut cur: u32 = v;
    proof {
        assert(t.top(x) == x);
        assert(t.top(p) == p);
    }
    while t.parents[cur as usize] != NO_NODE
        invariant
            t.detached(x, p),
            t.rooted(cur as int),
            sum + growth_above(*t, cur as int, *b) == insertion_cost(*t, v as int, *b),
            t.top(x) == x,
            t.top(p) == p,
        decreases t.shape@.cap - t.shape@.height[cur as int],
    {
        proof {
            assert(cur != t.root);
            assert(t.child_ok(cur as int));
        }
        let up: u32 = t.parents[cur as usize];
        proof {
            assert(t.is_inner(up as int));
            assert(t.inner_ok(up as int));
            assert(t.shape@.height[up as int] <= t.shape@.cap);
            assert(t.top(cur as int) == t.top(up as int));
            lemma_union_is_least(t.nodes@[up as int].aabb, *b);
            lemma_half_area_bounds(t.nodes@[up as int].aabb.spec_union(*b));
            lemma_half_area_bounds(t.nodes@[up as int].aabb);
            if b.valid() {
                lemma_growth_nonneg(*t, up as int, *b);
                lemma_growth_above_nonneg(*t, up as int, *b);
            }
        }
        let was: u64 = t.nodes[up as usize].aabb.half_area();
        let now: u64 = t.nodes[up as usize].aabb.union(*b).half_area();
        if now < was {
            return None;
        }
        match sum.checked_add((now - was) as u128) {
            Some(next) => {
                sum = next;
            },
            None => {
                return None;
            },
        }
        cur = up;
    }
    Some(sum)
}

/// No place in the tree costs less than `target` for the subtree `x`
/// that is taken out.
pub open spec fn cheapest(t: Bvh2, x: int, target: int) -> bool {
    forall|v: int|
        #[trigger] t.rooted(v) && v != t.root ==> insertion_cost(t, target, t.nodes@[x].aabb)
            <= insertion_cost(t, v, t.nodes@[x].aabb)
}

/// What a search for a place hands back.
pub struct Place {
    /// The place that was found.
    pub node: u32,
    /// The search came to its end: no place costs less.
    pub exhaustive: bool,
}

/// Going up from a node that leads to the root meets the root.
pub proof fn lemma_rooted_on_path(t: Bvh2, v: int)
    requires
        t.rooted(v),
    ensures
        t.on_path(v, t.root as int),
    decreases t.shape@.cap - t.shape@.height[v],
{
    if v != t.root {
        lemma_rooted_on_path(t, t.parents@[v] as int);
    }
}

/// A way up that meets an internal node from below meets one of its
/// children.
pub proof fn lemma_path_via_child(t: Bvh2, x: int, p: int, v: int, u: int)
    requires
        t.detached(x, p),
        t.on_path(v, u),
        v != u,
        t.is_inner(u),
        u != p,
    ensures
        t.on_path(v, t.nodes@[u].left as int) || t.on_path(v, t.nodes@[u].right as int),
    decreases t.shape@.cap - t.shape@.height[v],
{
    let up = t.parents@[v] as int;
    if up == u {
        assert(t.child_ok(v));
    } else {
        lemma_path_via_child(t, x, p, up, u);
    }
}

/// What is above a node grows in all at least as much as what is above a
/// node that lies above it.
pub proof fn lemma_growth_below(t: Bvh2, x: int, p: int, v: int, c: int, b: Aabb)
    requires
        t.detached(x, p),
        b.valid(),
        t.on_path(v, c),
    ensures
        growth_above(t, c, b) <= growth_above(t, v, b),
        0 <= growth_above(t, c, b),
    decreases t.shape@.cap - t.shape@.height[v],
{
    if v != c {
        let up = t.parents@[v] as int;
        lemma_growth_below(t, x, p, up, c, b);
        lemma_growth_nonneg(t, up, b);
    } else {
        lemma_growth_above_nonneg(t, c, b);
    }
}

/// A valid box does not lose half-area when it takes in a valid box.
pub proof fn lemma_growth_nonneg(t: Bvh2, a: int, b: Aabb)
    requires
        b.valid(),
        0 <= a < t.len(),
        t.nodes@[a].aabb.valid(),
    ensures
        0 <= growth(t, a, b),
{
    lemma_union_is_least(t.nodes@[a].aabb, b);
    lemma_half_area_monotone(t.nodes@[a].aabb.spec_union(b), t.nodes@[a].aabb);
}

/// What is above a node does not lose half-area in all when it takes in a
/// valid box.
pub proof fn lemma_growth_above_nonneg(t: Bvh2, v: int, b: Aabb)
    requires
        b.valid(),
        forall|i: int| 0 <= i < t.len() ==> (#[trigger] t.nodes@[i]).aabb.valid(),
    ensures
        0 <= growth_above(t, v, b),
    decreases t.shape@.cap - t.shape@.height[v],
{
    if 0 <= v < t.len() && t.parents@[v] != NO_NODE && t.parents@[v] < t.len()
        && t.shape@.height[v] < t.shape@.height[t.parents@[v] as int] <= t.shape@.cap {
        lemma_growth_above_nonneg(t, t.parents@[v] as int, b);
        lemma_growth_nonneg(t, t.parents@[v] as int, b);
    }
}

/// What the search makes of the nodes still to look at (`stack`, each
/// with the growth of all nodes above it), the best place so far and its
/// cost, and the number of nodes it may still look at. It takes the last
/// node of the stack; that node becomes the best place if it is not the
/// root and costs less; its children go onto the stack if no place below
/// it can cost as little as the best. The search is exhaustive if it ends
/// with an empty stack and no sum went beyond 128 bits.
pub open spec fn search_from(
    t: Bvh2,
    b: Aabb,
    stack: Seq<(u32, u128)>,
    best: u32,
    best_cost: u128,
    budget: nat,
    complete: bool,
) -> Place
    decreases budget,
{
    if budget == 0 || stack.len() == 0 {
        Place { node: best, exhaustive: complete && stack.len() == 0 }
    } else {
        let v = stack.last().0;
        let above = stack.last().1;
        let node = t.nodes@[v as int];
        let direct = node.aabb.spec_union(b).spec_half_area();
        let own = node.aabb.spec_half_area();
        let total = above + direct;
        let better = total <= u128::MAX && v != t.root && total < best_cost;
        let best1 = if better {
            v
        } else {
            best
        };
        let cost1 = if better {
            total as u128
        } else {
            best_cost
        };
        let below = above + (direct - own);
        let push = node.count == 0 && below <= u128::MAX && below < cost1;
        let stack1 = if push {
            stack.drop_last().push((node.left, below as u128)).push((node.right, below as u128))
        } else {
            stack.drop_last()
        };
        let complete1 = complete && total <= u128::MAX && (node.count == 0 ==> below
            <= u128::MAX);
        search_from(t, b, stack1, best1, cost1, (budget - 1) as nat, complete1)
    }
}

/// The place that the search finds for the subtree `x` that is taken out,
/// with `fallback` as the place to beat: `fallback` itself where its cost
/// does not fit 128 bits, else what the search from the root makes of it.
pub open spec fn spec_find_target(t: Bvh2, x: int, fallback: u32) -> Place {
    let b = t.nodes@[x].aabb;
    match spec_cost_beside(t, fallback as int, b) {
        None => Place { node: fallback, exhaustive: false },
        Some(c) => search_from(
            t,
            b,
            Seq::<(u32, u128)>::empty().push((t.root, 0u128)),
            fallback,
            c,
            SEARCH_BUDGET as nat,
            true,
        ),
    }
}

/// Some node of the stack lies on the way up from `v`.
pub open spec fn under_stack(t: Bvh2, stack: Seq<(u32, u128)>, v: int) -> bool {
    exists|k: int| 0 <= k < stack.len() && t.on_path(v, (#[trigger] stack[k]).0 as int)
}

/// Looks for a place for the subtree `x` that is taken out: goes down
/// from the root, into a node only where what its children would cost at
/// least is less than the best place found, and looks at no more than
/// `SEARCH_BUDGET` nodes. The place is at most as costly as `fallback`,
/// where the cost of `fallback` can be told; where the search comes to its
/// end, no place costs less.
pub fn find_target(t: &Bvh2, x: u32, p: u32, fallback: u32) -> (r: Place)
    requires
        t.detached(x as int, p as int),
        t.rooted(fallback as int),
        fallback != t.root,
    ensures
        t.rooted(r.node as int),
        r.node != t.root,
        r.node == fallback || insertion_cost(*t, r.node as int, t.nodes@[x as int].aabb)
            < insertion_cost(*t, fallback as int, t.nodes@[x as int].aabb),
        r.exhaustive ==> cheapest(*t, x as int, r.node as int),
        r == spec_find_target(*t, x as int, fallback),
{
    let b: Aabb = t.nodes[x as usize].aabb;
    let mut best: u32 = fallback;
    let mut best_cost: u128 = match cost_beside(t, Ghost(x as int), Ghost(p as int), fallback, &b) {
        Some(c) => c,
        None => {
            return Place { node: fallback, exhaustive: false };
        },
    };
    let mut stack: Vec<(u32, u128)> = Vec::new();
    stack.push((t.root, 0));
    let mut budget: u32 = SEARCH_BUDGET;
    let mut complete: bool = true;
    let ghost goal = spec_find_target(*t, x as int, fallback);
    proof {
        assert(stack@ =~= Seq::<(u32, u128)>::empty().push((t.root, 0u128)));
        assert(t.top(x as int) == x);
        assert(t.top(p as int) == p);
        assert(t.top(t.root as int) == t.root);
        assert forall|v: int| #[trigger] t.rooted(v) && v != t.root implies under_stack(
            *t,
            stack@,
            v,
        ) by {
            lemma_rooted_on_path(*t, v);
            assert(t.on_path(v, stack@[0].0 as int));
        }
    }
    while budget > 0 && stack.len() > 0
        invariant
            t.detached(x as int, p as int),
            b == t.nodes@[x as int].aabb,
            t.rooted(best as int),
            best != t.root,
            best_cost == insertion_cost(*t, best as int, b),
            best == fallback || best_cost < insertion_cost(*t, fallback as int, b),
            best_cost <= insertion_cost(*t, fallback as int, b),
            t.top(x as int) == x,
            t.top(p as int) == p,
            forall|k: int|
                0 <= k < stack@.len() ==> t.rooted((#[trigger] stack@[k]).0 as int) && stack@[k].1
                    == growth_above(*t, stack@[k].0 as int, b),
            complete ==> forall|v: int|
                #[trigger] t.rooted(v) && v != t.root ==> best_cost <= insertion_cost(*t, v, b)
                    || under_stack(*t, stack@, v),
            search_from(*t, b, stack@, best, best_cost, budget as nat, complete) == goal,
        decreases budget,
    {
        let ghost before = stack@;
        let ghost cost_before = best_cost;
        let ghost best_before = best;
        let ghost budget_before = budget;
        let ghost complete_before = complete;
        budget = budget - 1;
        let (v, above) = stack.pop().unwrap();
        let bv: Aabb = t.nodes[v as usize].aabb;
        let direct: u64 = bv.union(b).half_area();
        let own: u64 = bv.half_area();
        proof {
            lemma_growth_nonneg(*t, v as int, b);
            lemma_half_area_bounds(bv);
            lemma_half_area_bounds(bv.spec_union(b));
            assert(before[before.len() - 1] == (v, above));
        }
        let mut seen: bool = false;
        match above.checked_add(direct as u128) {
            Some(total) => {
                seen = true;
                if v != t.root && total < best_cost {
                    best = v;
                    best_cost = total;
                }
            },
            None => {},
        }
        let n: Bvh2Node = t.nodes[v as usize];
        let mut pushed: bool = false;
        let mut pruned: bool = false;
        if n.count == 0 {
            match above.checked_add((direct - own) as u128) {
                Some(below) => {
                    if below < best_cost {
                        proof {
                            assert(t.is_inner(v as int));
                            assert(t.inner_ok(v as int));
                            assert(t.shape@.height[v as int] <= t.shape@.cap);
                            assert(t.top(n.left as int) == t.top(v as int));
                            assert(t.top(n.right as int) == t.top(v as int));
                        }
                        stack.push((n.left, below));
                        stack.push((n.right, below));
                        pushed = true;
                    } else {
                        pruned = true;
                    }
                },
                None => {},
            }
        }
        if !seen || (n.count == 0 && !pushed && !pruned) {
            complete = false;
        }
        proof {
            assert(before.drop_last() =~= before.subrange(0, before.len() - 1));
            assert(search_from(
                *t,
                b,
                before,
                best_before,
                cost_before,
                budget_before as nat,
                complete_before,
            ) == search_from(*t, b, stack@, best, best_cost, budget as nat, complete));
            if complete {
                assert forall|c: int| #[trigger] t.rooted(c) && c != t.root implies best_cost
                    <= insertion_cost(*t, c, b) || under_stack(*t, stack@, c) by {
                    if cost_before <= insertion_cost(*t, c, b) {
                    } else {
                        assert(under_stack(*t, before, c));
                        let k = choose|k: int|
                            0 <= k < before.len() && t.on_path(c, (#[trigger] before[k]).0 as int);
                        if k < before.len() - 1 {
                            assert(stack@[k] == before[k]);
                            assert(t.on_path(c, stack@[k].0 as int));
                        } else if c == v {
                        } else {
                            assert(t.is_inner(v as int)) by {
                                if t.nodes@[v as int].is_leaf() {
                                    lemma_leaf_has_nothing_below(*t, x as int, p as int, c, v as int);
                                }
                            }
                            assert(t.inner_ok(v as int));
                            assert(t.shape@.height[v as int] <= t.shape@.cap);
                            lemma_path_via_child(*t, x as int, p as int, c, v as int);
                            let child = if t.on_path(c, n.left as int) {
                                n.left as int
                            } else {
                                n.right as int
                            };
                            if pushed {
                                let at: int = if child == n.left {
                                    stack@.len() - 2
                                } else {
                                    stack@.len() - 1
                                };
                                assert(stack@[at].0 == child);
                                assert(t.on_path(c, stack@[at].0 as int));
                            } else {
                                lemma_growth_below(*t, x as int, p as int, c, child, b);
                                lemma_half_area_bounds(t.nodes@[c].aabb.spec_union(b));
                            }
                        }
                    }
                }
            }
        }
    }
    let exhaustive: bool = complete && stack.len() == 0;
    proof {
        if exhaustive {
            assert forall|c: int| #[trigger] t.rooted(c) && c != t.root implies insertion_cost(
                *t,
                best as int,
                b,
            ) <= insertion_cost(*t, c, b) by {
                if under_stack(*t, stack@, c) {
                    let k = choose|k: int|
                        0 <= k < stack@.len() && t.on_path(c, (#[trigger] stack@[k]).0 as int);
                }
            }
        }
    }
    Place { node: best, exhaustive }
}

/// Nothing has a leaf on its way up but the leaf itself.
pub proof fn lemma_leaf_has_nothing_below(t: Bvh2, x: int, p: int, v: int, u: int)
    requires
        t.detached(x, p),
        t.on_path(v, u),
        0 <= u < t.len(),
        t.nodes@[u].is_leaf(),
    ensures
        v == u,
    decreases t.shape@.cap - t.shape@.height[v],
{
    if v != u {
        let up = t.parents@[v] as int;
        assert(t.child_ok(v));
        lemma_leaf_has_nothing_below(t, x, p, up, u);
    }
}

/// `x` may be moved: it is neither the root nor a child of the root.
pub open spec fn movable(t: Bvh2, x: int) -> bool {
    0 <= x < t.len() && x != t.root && t.parents@[x] != t.root
}

/// Whether `x` may be moved.
pub fn is_movable(t: &Bvh2, x: u32) -> (b: bool)
    requires
        t.wf(),
    ensures
        b == movable(*t, x as int),
{
    (x as usize) < t.nodes.len() && x != t.root && t.parents[x as usize] != t.root
}

/// `b` is `a` with the node `x` taken out: the sibling of `x` stands
/// where their parent stood, `x` and the parent hang loose, and the boxes
/// above are tight again.
pub open spec fn taken_out(a: Bvh2, b: Bvh2, x: int) -> bool {
    let p = a.parents@[x];
    let s = sibling_of(a, x);
    let g = a.parents@[p as int];
    &&& b.detached(x, p as int)
    &&& same_leaves(a, b)
    &&& b.nodes@[x] == a.nodes@[x]
    &&& b.shape@ == a.shape@
    &&& b.parents@ == a.parents@.update(s, g).update(x, NO_NODE).update(p as int, NO_NODE)
    &&& same_children_but(a, b, g as int, -1)
    &&& child_swapped(a.nodes@[g as int], b.nodes@[g as int], p, s as u32)
    &&& b.rooted(s)
}

/// `b` is `a` with the loose subtree `x` put beside `target`: the loose
/// node `p` stands where `target` stood and has `target` and `x` as its
/// children, and the boxes above are tight again.
pub open spec fn put_beside(a: Bvh2, b: Bvh2, x: int, p: int, target: int) -> bool {
    let q = a.parents@[target];
    &&& b.wf()
    &&& same_leaves(a, b)
    &&& b.parents@ == a.parents@.update(target, p as u32).update(x, p as u32).update(p, q)
    &&& same_children_but(a, b, q as int, p)
    &&& child_swapped(a.nodes@[q as int], b.nodes@[q as int], target as u32, p as u32)
    &&& b.nodes@[p].left == target
    &&& b.nodes@[p].right == x
}

/// What trying to move `x` makes of `a`, given the tree `s1` that is `a`
/// without `x`: where the search in `s1` finds no other place than beside
/// the sibling that `x` had, nothing is moved; else `x` is put beside the
/// place found, and that stays if and only if the summed half-area of the
/// internal nodes is then strictly less than it was in `a`.
pub open spec fn place_tried(a: Bvh2, s1: Bvh2, fin: Bvh2, x: int, moved: bool) -> bool {
    let p = a.parents@[x] as int;
    let s = sibling_of(a, x);
    let target = spec_find_target(s1, x, s as u32).node;
    if target == s {
        !moved
    } else {
        exists|s2: Bvh2| #[trigger]
            put_beside(s1, s2, x, p, target as int) && moved == (s2.inner_area()
                < a.inner_area()) && (moved ==> fin == s2)
    }
}

/// `fin` is what trying to move `x` makes of `a`; `moved` tells whether
/// the move stayed. Where it did not, `fin` is `a` again, up to the order
/// of children.
pub open spec fn move_tried(a: Bvh2, fin: Bvh2, x: int, moved: bool) -> bool {
    &&& exists|s1: Bvh2| #[trigger] taken_out(a, s1, x) && place_tried(a, s1, fin, x, moved)
    &&& fin.wf()
    &&& same_leaves(a, fin)
    &&& moved ==> fin.inner_area() < a.inner_area()
    &&& !moved ==> fin.inner_area() == a.inner_area() && same_shape(a, fin)
}

/// Takes `x` out, searches the rest of the tree for the place beside which
/// it costs least, and puts it there. The move stays only if it makes the
/// summed half-area of the internal nodes strictly less; else the tree is
/// put back as it was, up to the order of children.
pub fn try_move(t: &mut Bvh2, x: u32) -> (moved: bool)
    requires
        old(t).wf(),
        movable(*old(t), x as int),
    ensures
        final(t).wf(),
        same_leaves(*old(t), *final(t)),
        moved ==> final(t).inner_area() < old(t).inner_area(),
        !moved ==> final(t).inner_area() == old(t).inner_area() && same_shape(*old(t), *final(t)),
        move_tried(*old(t), *final(t), x as int, moved),
{
    let ghost s0 = *t;
    let d = detach(t, x);
    let ghost s1 = *t;
    let p: u32 = d.parent;
    let s: u32 = d.sibling;
    let ghost g = s0.parents@[p as int] as int;
    proof {
        assert(s0.child_ok(x as int));
        assert(s0.is_inner(p as int));
        assert(s0.inner_ok(p as int));
        assert(s0.child_ok(p as int));
        assert(s0.is_inner(g));
        assert(s0.inner_ok(g));
        assert(s1.parents@[s as int] == g);
        assert(s1.is_inner(g));
        assert(s1.inner_ok(g));
        assert(taken_out(s0, s1, x as int));
    }
    let target: u32 = find_target(t, x, p, s).node;
    if target != s {
        let added = attach(t, x, p, target);
        let ghost s2 = *t;
        let better: bool = match (d.delta, added) {
            (Some(a), Some(b)) => a + b < 0,
            _ => false,
        };
        proof {
            assert(put_beside(s1, s2, x as int, p as int, target as int));
            assert(better == (s2.inner_area() < s0.inner_area()));
        }
        if better {
            proof {
                assert(place_tried(s0, s1, *t, x as int, true));
            }
            return true;
        }
        let ghost q = s1.parents@[target as int] as int;
        proof {
            assert(s1.top(x as int) == x);
            assert(s1.top(p as int) == p);
            assert(s1.child_ok(target as int));
            assert(s1.is_inner(q));
            assert(s1.inner_ok(q));
            assert(s2.parents@[x as int] == p);
            assert(s2.parents@[p as int] == q);
            assert(s2.is_inner(p as int));
            assert(s2.inner_ok(p as int));
            assert(!s2.on_path(s as int, x as int));
        }
        let d2 = detach(t, x);
        let ghost s3 = *t;
        proof {
            assert(d2.parent == p);
            assert(d2.sibling == target);
            assert(s3.parents@ =~= s1.parents@);
            assert forall|i: int| 0 <= i < s1.len() && i != p implies (#[trigger] s3.nodes@[i]).left
                == s1.nodes@[i].left && s3.nodes@[i].right == s1.nodes@[i].right by {
                if i == q {
                    assert(s1.nodes@[q].left != p && s1.nodes@[q].right != p);
                }
            }
        }
        let _ = attach(t, x, p, s);
        proof {
            lemma_restored(s0, s1, s3, *t, x as int, p as int, s as int, g);
            let found = spec_find_target(s1, x as int, s).node;
            assert(put_beside(s1, s2, x as int, p as int, found as int) && false == (
            s2.inner_area() < s0.inner_area()));
            assert(place_tried(s0, s1, *t, x as int, false));
        }
    } else {
        let _ = attach(t, x, p, s);
        proof {
            lemma_restored(s0, s1, s1, *t, x as int, p as int, s as int, g);
            assert(place_tried(s0, s1, *t, x as int, false));
        }
    }
    false
}

/// Putting `x` back beside the sibling that it had gives the tree that
/// was there before `x` was taken out, up to the order of children.
proof fn lemma_restored(s0: Bvh2, s1: Bvh2, s3: Bvh2, fin: Bvh2, x: int, p: int, s: int, g: int)
    requires
        s0.wf(),
        fin.wf(),
        same_leaves(s0, s1),
        same_leaves(s1, s3),
        same_leaves(s3, fin),
        0 <= x < s0.len(),
        0 <= p < s0.len(),
        0 <= s < s0.len(),
        0 <= g < s0.len(),
        x != s0.root,
        p != s0.root,
        s0.parents@[x] == p,
        s0.parents@[s] == p,
        s0.parents@[p] == g,
        s != x,
        s1.is_inner(g),
        s1.inner_ok(g),
        s1.parents@[s] == g,
        same_children_but(s0, s1, g, -1),
        child_swapped(s0.nodes@[g], s1.nodes@[g], p as u32, s as u32),
        s3.parents@ == s1.parents@,
        forall|i: int|
            0 <= i < s1.len() && i != p ==> (#[trigger] s3.nodes@[i]).left == s1.nodes@[i].left
                && s3.nodes@[i].right == s1.nodes@[i].right,
        same_children_but(s3, fin, g, p),
        child_swapped(s3.nodes@[g], fin.nodes@[g], s as u32, p as u32),
        fin.nodes@[p].left == s,
        fin.nodes@[p].right == x,
    ensures
        same_shape(s0, fin),
        fin.inner_area() == s0.inner_area(),
{
    assert(s0.child_ok(x));
    assert(s0.child_ok(s));
    assert(s0.is_inner(p));
    assert(s0.inner_ok(p));
    assert(s0.child_ok(p));
    assert(s0.is_inner(g));
    assert(s0.inner_ok(g));
    assert(g != p);
    assert forall|i: int|
        #![trigger s0.nodes@[i]]
        #![trigger fin.nodes@[i]]
        0 <= i < s0.len() implies (s0.nodes@[i].left == fin.nodes@[i].left && s0.nodes@[i].right
        == fin.nodes@[i].right) || (s0.nodes@[i].left == fin.nodes@[i].right && s0.nodes@[i].right
        == fin.nodes@[i].left) by {
        if i == p {
        } else if i == g {
            assert(s3.nodes@[g].left == s1.nodes@[g].left);
        } else {
            assert(s3.nodes@[i].left == s1.nodes@[i].left);
            assert(s1.nodes@[i].left == s0.nodes@[i].left);
        }
    }
    assert forall|i: int| 0 <= i < s0.len() implies s0.nodes@[i].aabb == fin.nodes@[i].aabb
        && s0.nodes@[i].is_leaf() == fin.nodes@[i].is_leaf() by {
        lemma_tight_unique(s0, fin, i);
        assert(s1.nodes@[i].count == s0.nodes@[i].count);
        assert(s3.nodes@[i].count == s1.nodes@[i].count);
        assert(fin.nodes@[i].count == s3.nodes@[i].count);
    }
    lemma_same_boxes_same_area(s0.nodes@, fin.nodes@, s0.len());
}

/// The sibling of the node `x`, which has a parent.
pub open spec fn sibling_of(t: Bvh2, x: int) -> int {
    let n = t.nodes@[t.parents@[x] as int];
    if n.left == x {
        n.right as int
    } else {
        n.left as int
    }
}

/// By how much the place of the parent of `x` loses half-area when `x` is
/// taken out and its sibling moves up.
pub open spec fn removal_gain(t: Bvh2, x: int) -> int {
    t.nodes@[t.parents@[x] as int].aabb.spec_half_area() - t.nodes@[sibling_of(
        t,
        x,
    )].aabb.spec_half_area()
}

/// The entry by which `x` is ranked: a greater gain comes first, a lower
/// number among equal gains.
pub open spec fn rank_entry(t: Bvh2, x: int) -> SortEntry {
    SortEntry { key: (u64::MAX - removal_gain(t, x)) as u64, id: x as u32 }
}

/// The number of movable nodes among the first `k`.
pub open spec fn movable_count(t: Bvh2, k: int) -> int
    decreases k,
{
    if k <= 0 {
        0
    } else {
        movable_count(t, k - 1) + if movable(t, k - 1) {
            1int
        } else {
            0int
        }
    }
}

/// The size of a batch: the share `ratio` of the nodes, in thousandths
/// and at most all of them, but at least one candidate and no more than
/// there are.
pub open spec fn spec_batch_size(candidates: int, nodes: int, ratio: int) -> int {
    let share = if ratio > 1000 {
        1000
    } else {
        ratio
    };
    let want = nodes * share / 1000;
    if candidates == 0 {
        0
    } else if want < 1 {
        1
    } else if want > candidates {
        candidates
    } else {
        want
    }
}

/// The size of a batch.
pub fn batch_size(candidates: usize, nodes: usize, ratio: u32) -> (n: usize)
    requires
        nodes <= u32::MAX,
    ensures
        n == spec_batch_size(candidates as int, nodes as int, ratio as int),
        n <= candidates,
{
    let share: u64 = if ratio > 1000 {
        1000
    } else {
        ratio as u64
    };
    assert((nodes as u64) * share <= 0xffff_ffff * 1000) by (nonlinear_arith)
        requires
            nodes <= 0xffff_ffff,
            share <= 1000,
    ;
    let want: u64 = (nodes as u64) * share / 1000;
    if candidates == 0 {
        0
    } else if want < 1 {
        1
    } else if want > candidates as u64 {
        candidates
    } else {
        want as usize
    }
}

/// `batch` is the batch of `t` for the share `ratio`: the movable nodes
/// with the greatest gains, as many as the batch holds, the greatest gain
/// first.
pub open spec fn is_batch(t: Bvh2, ratio: int, batch: Seq<u32>) -> bool {
    &&& batch.len() == spec_batch_size(movable_count(t, t.len()), t.len(), ratio)
    &&& forall|k: int| 0 <= k < batch.len() ==> movable(t, #[trigger] batch[k] as int)
    &&& forall|j: int, k: int|
        0 <= j <= k < batch.len() ==> entry_le(
            rank_entry(t, #[trigger] batch[j] as int),
            rank_entry(t, #[trigger] batch[k] as int),
        )
    &&& forall|y: int, k: int|
        movable(t, y) && 0 <= k < batch.len() && !batch.contains(y as u32) ==> entry_le(
            rank_entry(t, #[trigger] batch[k] as int),
            #[trigger] rank_entry(t, y),
        )
}

/// The nodes that a pass tries to move: the movable nodes with the
/// greatest gains, as many as the batch holds, the greatest gain first.
pub fn select_batch(t: &Bvh2, ratio: u32) -> (out: Vec<u32>)
    requires
        t.wf(),
    ensures
        is_batch(*t, ratio as int, out@),
        out@.len() == spec_batch_size(movable_count(*t, t.len()), t.len(), ratio as int),
        forall|k: int| 0 <= k < out@.len() ==> movable(*t, #[trigger] out@[k] as int),
        forall|j: int, k: int|
            0 <= j <= k < out@.len() ==> entry_le(
                rank_entry(*t, #[trigger] out@[j] as int),
                rank_entry(*t, #[trigger] out@[k] as int),
            ),
        forall|y: int, k: int|
            movable(*t, y) && 0 <= k < out@.len() && !out@.contains(y as u32) ==> entry_le(
                rank_entry(*t, #[trigger] out@[k] as int),
                #[trigger] rank_entry(*t, y),
            ),
{
    let mut entries: Vec<SortEntry> = Vec::new();
    let mut x: usize = 0;
    let n: usize = t.nodes.len();
    while x < n
        invariant
            t.wf(),
            n == t.len(),
            x <= n,
            entries@.len() == movable_count(*t, x as int),
            forall|k: int|
                0 <= k < entries@.len() ==> movable(*t, (#[trigger] entries@[k]).id as int)
                    && entries@[k] == rank_entry(*t, entries@[k].id as int),
            forall|y: int| 0 <= y < x && movable(*t, y) ==> entries@.contains(#[trigger] rank_entry(*t, y)),
        decreases n - x,
    {
        if x as u32 != t.root && t.parents[x] != t.root {
            let ghost before = entries@;
            let up: u32 = t.parents[x];
            proof {
                assert(t.child_ok(x as int));
                assert(t.is_inner(up as int));
                assert(t.inner_ok(up as int));
                assert(t.tight_at(up as int));
            }
            let un: Bvh2Node = t.nodes[up as usize];
            let sib: u32 = if un.left == x as u32 {
                un.right
            } else {
                un.left
            };
            proof {
                lemma_union_is_least(t.nodes@[un.left as int].aabb, t.nodes@[un.right as int].aabb);
                lemma_half_area_monotone(un.aabb, t.nodes@[sib as int].aabb);
                lemma_half_area_bounds(t.nodes@[sib as int].aabb);
            }
            let gain: u64 = un.aabb.half_area() - t.nodes[sib as usize].aabb.half_area();
            entries.push(SortEntry { key: u64::MAX - gain, id: x as u32 });
            proof {
                assert forall|y: int| 0 <= y < x + 1 && movable(*t, y) implies entries@.contains(
                    #[trigger] rank_entry(*t, y),
                ) by {
                    if y < x {
                        let k = choose|k: int|
                            0 <= k < before.len() && before[k] == rank_entry(*t, y);
                        assert(entries@[k] == rank_entry(*t, y));
                    } else {
                        assert(entries@[before.len() as int] == rank_entry(*t, y));
                    }
                }
            }
        }
        x = x + 1;
    }
    let ranked = sort_entries(&entries);
    let size: usize = batch_size(ranked.len(), n, ratio);
    proof {
        broadcast use vstd::seq_lib::group_to_multiset_ensures;

        assert forall|k: int| 0 <= k < ranked@.len() implies movable(
            *t,
            (#[trigger] ranked@[k]).id as int,
        ) && ranked@[k] == rank_entry(*t, ranked@[k].id as int) by {
            assert(ranked@.contains(ranked@[k]));
            assert(ranked@.to_multiset().count(ranked@[k]) > 0);
            assert(entries@.contains(ranked@[k]));
            let j = choose|j: int| 0 <= j < entries@.len() && entries@[j] == ranked@[k];
            assert(movable(*t, entries@[j].id as int));
        }
        assert forall|y: int| movable(*t, y) implies ranked@.contains(#[trigger] rank_entry(*t, y)) by {
            assert(entries@.contains(rank_entry(*t, y)));
            assert(entries@.to_multiset().count(rank_entry(*t, y)) > 0);
        }
    }
    let mut out: Vec<u32> = Vec::new();
    let mut k: usize = 0;
    while k < size
        invariant
            k <= size <= ranked@.len(),
            out@.len() == k,
            forall|j: int| 0 <= j < k ==> #[trigger] out@[j] == ranked@[j].id,
        decreases size - k,
    {
        out.push(ranked[k].id);
        k = k + 1;
    }
    proof {
        assert forall|j: int, k: int| 0 <= j <= k < out@.len() implies entry_le(
            rank_entry(*t, #[trigger] out@[j] as int),
            rank_entry(*t, #[trigger] out@[k] as int),
        ) by {
            assert(entry_le(ranked@[j], ranked@[k]));
        }
        assert forall|y: int, k: int|
            movable(*t, y) && 0 <= k < out@.len() && !out@.contains(y as u32) implies entry_le(
            rank_entry(*t, #[trigger] out@[k] as int),
            #[trigger] rank_entry(*t, y),
        ) by {
            let m = choose|m: int| 0 <= m < ranked@.len() && ranked@[m] == rank_entry(*t, y);
            if m < size {
                assert(out@[m] == y as u32);
                assert(out@.contains(y as u32));
            }
            assert(entry_le(ranked@[k], ranked@[m]));
        }
    }
    out
}

/// Number of passes that `run` makes at most when it is given no number.
pub const DEFAULT_PASSES: u32 = 8;

/// What the turn of the node `x` in a pass makes of `a`: a try to move it
/// if it is movable in `a`, nothing otherwise.
pub open spec fn turn_taken(a: Bvh2, b: Bvh2, x: u32, moved: bool) -> bool {
    if movable(a, x as int) {
        move_tried(a, b, x as int, moved)
    } else {
        b == a && !moved
    }
}

/// `trace` holds the trees of a pass over `batch`, from `a` before the
/// first turn to `fin` after the last, and `moves` tells for every turn
/// whether a move stayed.
pub open spec fn pass_steps(
    a: Bvh2,
    fin: Bvh2,
    ratio: int,
    batch: Seq<u32>,
    trace: Seq<Bvh2>,
    moves: Seq<bool>,
) -> bool {
    &&& is_batch(a, ratio, batch)
    &&& trace.len() == batch.len() + 1
    &&& moves.len() == batch.len()
    &&& trace[0] == a
    &&& trace[batch.len() as int] == fin
    &&& forall|k: int|
        0 <= k < batch.len() ==> turn_taken(trace[k], trace[k + 1], #[trigger] batch[k], moves[k])
}

/// `fin` is what one pass with the share `ratio` makes of `a`: the nodes
/// of the batch of `a` have their turns, in the order of the batch, each
/// on the tree that the turn before has left. `improved` tells whether a
/// move stayed.
pub open spec fn pass_made(a: Bvh2, fin: Bvh2, ratio: int, improved: bool) -> bool {
    exists|batch: Seq<u32>, trace: Seq<Bvh2>, moves: Seq<bool>|
        #[trigger] pass_steps(a, fin, ratio, batch, trace, moves) && improved == moves.contains(
            true,
        )
}

/// One pass: takes the batch of the tree and tries to move every node of
/// it that is still movable when its turn comes. Tells whether a move
/// stayed.
pub fn pass(t: &mut Bvh2, ratio: u32) -> (improved: bool)
    requires
        old(t).wf(),
    ensures
        final(t).wf(),
        same_leaves(*old(t), *final(t)),
        improved ==> final(t).inner_area() < old(t).inner_area(),
        !improved ==> final(t).inner_area() == old(t).inner_area() && same_shape(
            *old(t),
            *final(t),
        ),
        pass_made(*old(t), *final(t), ratio as int, improved),
{
    let batch = select_batch(t, ratio);
    let mut improved: bool = false;
    let mut k: usize = 0;
    let ghost mut trace: Seq<Bvh2> = Seq::empty().push(*t);
    let ghost mut moves: Seq<bool> = Seq::empty();
    while k < batch.len()
        invariant
            k <= batch@.len(),
            t.wf(),
            same_leaves(*old(t), *t),
            improved ==> t.inner_area() < old(t).inner_area(),
            !improved ==> t.inner_area() == old(t).inner_area() && same_shape(*old(t), *t),
            trace.len() == k + 1,
            moves.len() == k,
            trace[0] == *old(t),
            trace[k as int] == *t,
            forall|j: int|
                0 <= j < k ==> turn_taken(trace[j], trace[j + 1], #[trigger] batch@[j], moves[j]),
            improved == moves.contains(true),
        decreases batch@.len() - k,
    {
        let x: u32 = batch[k];
        let ghost before = *t;
        let ghost trace_before = trace;
        let ghost moves_before = moves;
        let mut moved: bool = false;
        if is_movable(t, x) {
            moved = try_move(t, x);
            if moved {
                improved = true;
            }
        }
        proof {
            trace = trace.push(*t);
            moves = moves.push(moved);
            assert(turn_taken(before, *t, x, moved));
            assert forall|j: int| 0 <= j < k + 1 implies turn_taken(
                trace[j],
                trace[j + 1],
                #[trigger] batch@[j],
                moves[j],
            ) by {
                if j < k {
                    assert(turn_taken(
                        trace_before[j],
                        trace_before[j + 1],
                        batch@[j],
                        moves_before[j],
                    ));
                }
            }
            if moves_before.contains(true) {
                let w = choose|w: int| 0 <= w < moves_before.len() && moves_before[w] == true;
                assert(moves[w] == true);
            }
            if moved {
                assert(moves[k as int] == true);
            }
            if moves.contains(true) && !moved {
                let w = choose|w: int| 0 <= w < moves.len() && moves[w] == true;
                assert(moves_before[w] == true);
            }
        }
        k = k + 1;
    }
    proof {
        assert(pass_steps(*old(t), *t, ratio as int, batch@, trace, moves));
    }
    improved
}

/// The optimiser of the binary hierarchy.
pub struct ReinsertionOptimizer {}

impl ReinsertionOptimizer {
    /// Makes passes over the hierarchy until one moves nothing, at most
    /// `iteration_cap` of them (`DEFAULT_PASSES` where none is given).
    /// The leaves stay as they are; the summed half-area of the internal
    /// nodes, and with it the surface-area cost under any weights, does
    /// not grow.
    pub fn run(bvh2: &mut Bvh2, batch_ratio: u32, iteration_cap: Option<u32>)
        requires
            old(bvh2).wf(),
        ensures
            final(bvh2).wf(),
            same_leaves(*old(bvh2), *final(bvh2)),
            final(bvh2).inner_area() <= old(bvh2).inner_area(),
            forall|w: SahWeights| #[trigger]
                final(bvh2).spec_sah_cost(w) <= old(bvh2).spec_sah_cost(w),
            final(bvh2).nodes@[final(bvh2).root as int].aabb == old(bvh2).nodes@[old(
                bvh2,
            ).root as int].aabb,
            run_made(*old(bvh2), *final(bvh2), batch_ratio as int, spec_pass_cap(iteration_cap)),
    {
        let cap: u32 = match iteration_cap {
            Some(c) => c,
            None => DEFAULT_PASSES,
        };
        let mut done: u32 = 0;
        let mut stopped: bool = false;
        let ghost mut passes: Seq<Bvh2> = Seq::empty().push(*bvh2);
        let ghost mut gains: Seq<bool> = Seq::empty();
        while done < cap && !stopped
            invariant
                bvh2.wf(),
                same_leaves(*old(bvh2), *bvh2),
                bvh2.inner_area() <= old(bvh2).inner_area(),
                done <= cap,
                passes.len() == gains.len() + 1,
                passes[0] == *old(bvh2),
                passes[gains.len() as int] == *bvh2,
                !stopped ==> gains.len() == done,
                stopped ==> gains.len() == done + 1 && done < cap && !gains[done as int],
                forall|j: int| 0 <= j < done ==> #[trigger] gains[j],
                forall|j: int|
                    0 <= j < gains.len() ==> pass_made(
                        passes[j],
                        passes[j + 1],
                        batch_ratio as int,
                        #[trigger] gains[j],
                    ),
            decreases cap - done + if stopped { 0int } else { 1int },
        {
            let ghost before = *bvh2;
            let ghost passes_before = passes;
            let ghost gains_before = gains;
            let improved = pass(bvh2, batch_ratio);
            proof {
                passes = passes.push(*bvh2);
                gains = gains.push(improved);
                assert forall|j: int| 0 <= j < gains.len() implies pass_made(
                    passes[j],
                    passes[j + 1],
                    batch_ratio as int,
                    #[trigger] gains[j],
                ) by {
                    if j < gains_before.len() {
                        assert(pass_made(
                            passes_before[j],
                            passes_before[j + 1],
                            batch_ratio as int,
                            gains_before[j],
                        ));
                    }
                }
            }
            if improved {
                done = done + 1;
            } else {
                stopped = true;
            }
        }
        proof {
            assert forall|w: SahWeights| #[trigger]
                bvh2.spec_sah_cost(w) <= old(bvh2).spec_sah_cost(w) by {
                lemma_cost_follows_area(*old(bvh2), *bvh2, w);
            }
            lemma_root_box_kept(*old(bvh2), *bvh2);
            assert(run_steps(*old(bvh2), *bvh2, batch_ratio as int, cap as int, passes, gains));
        }
    }
}

/// The number of passes that `run` makes at most.
pub open spec fn spec_pass_cap(iteration_cap: Option<u32>) -> int {
    match iteration_cap {
        Some(c) => c as int,
        None => DEFAULT_PASSES as int,
    }
}

/// `passes` holds the trees of a run, from `a` before the first pass to
/// `fin` after the last, and `gains` tells for every pass whether a move
/// stayed: there are at most `cap` passes, every pass but the last has
/// moved something, and the run has stopped short of `cap` passes only
/// after a pass that moved nothing.
pub open spec fn run_steps(
    a: Bvh2,
    fin: Bvh2,
    ratio: int,
    cap: int,
    passes: Seq<Bvh2>,
    gains: Seq<bool>,
) -> bool {
    &&& passes.len() == gains.len() + 1
    &&& gains.len() <= cap
    &&& passes[0] == a
    &&& passes[gains.len() as int] == fin
    &&& forall|j: int|
        0 <= j < gains.len() ==> pass_made(passes[j], passes[j + 1], ratio, #[trigger] gains[j])
    &&& forall|j: int| 0 <= j < gains.len() - 1 ==> #[trigger] gains[j]
    &&& gains.len() < cap ==> gains.len() >= 1 && !gains[gains.len() - 1]
}

/// `fin` is what a run of at most `cap` passes with the share `ratio`
/// makes of `a`.
pub open spec fn run_made(a: Bvh2, fin: Bvh2, ratio: int, cap: int) -> bool {
    exists|passes: Seq<Bvh2>, gains: Seq<bool>| #[trigger]
        run_steps(a, fin, ratio, cap, passes, gains)
}

/// The cost of the leaves among the first `k` nodes.
pub open spec fn leaf_cost_prefix(nodes: Seq<Bvh2Node>, w: SahWeights, k: int) -> int
    decreases k,
{
    if k <= 0 {
        0
    } else {
        leaf_cost_prefix(nodes, w, k - 1) + if nodes[k - 1].is_leaf() {
            node_cost(nodes[k - 1], w)
        } else {
            0
        }
    }
}

/// The cost is the cost of the leaves plus the weighted half-area of the
/// internal nodes.
pub proof fn lemma_cost_split(nodes: Seq<Bvh2Node>, w: SahWeights, k: int)
    ensures
        cost_prefix(nodes, w, k) == leaf_cost_prefix(nodes, w, k) + w.traversal as int
            * inner_area_prefix(nodes, k),
    decreases k,
{
    if k > 0 {
        lemma_cost_split(nodes, w, k - 1);
        let tr = w.traversal as int;
        let rest = inner_area_prefix(nodes, k - 1);
        let a = nodes[k - 1].aabb.spec_half_area();
        assert(tr * (rest + a) == tr * rest + tr * a) by (nonlinear_arith);
        assert(tr * (rest + 0) == tr * rest) by (nonlinear_arith);
    }
}

/// With the same leaves, the leaves cost the same.
pub proof fn lemma_leaf_cost_same(a: Bvh2, b: Bvh2, w: SahWeights, k: int)
    requires
        same_leaves(a, b),
        0 <= k <= a.len(),
    ensures
        leaf_cost_prefix(a.nodes@, w, k) == leaf_cost_prefix(b.nodes@, w, k),
    decreases k,
{
    if k > 0 {
        lemma_leaf_cost_same(a, b, w, k - 1);
        assert(a.nodes@[k - 1].count == b.nodes@[k - 1].count);
    }
}

/// With the same leaves, a hierarchy whose internal nodes have no more
/// summed half-area costs no more, whatever the weights.
pub proof fn lemma_cost_follows_area(a: Bvh2, b: Bvh2, w: SahWeights)
    requires
        same_leaves(a, b),
        b.inner_area() <= a.inner_area(),
    ensures
        b.spec_sah_cost(w) <= a.spec_sah_cost(w),
{
    lemma_cost_split(a.nodes@, w, a.len());
    lemma_cost_split(b.nodes@, w, b.len());
    lemma_leaf_cost_same(a, b, w, a.len());
    let tr = w.traversal as int;
    let x = b.inner_area();
    let y = a.inner_area();
    assert(tr * x <= tr * y) by (nonlinear_arith)
        requires
            0 <= tr,
            x <= y,
    ;
}

/// With the same leaves, two whole trees have the same box at the root.
pub proof fn lemma_root_box_kept(a: Bvh2, b: Bvh2)
    requires
        a.wf(),
        b.wf(),
        same_leaves(a, b),
    ensures
        a.nodes@[a.root as int].aabb == b.nodes@[b.root as int].aabb,
{
    let ra = a.nodes@[a.root as int].aabb;
    let rb = b.nodes@[b.root as int].aabb;
    assert forall|l: int| 0 <= l < a.len() && (#[trigger] a.nodes@[l]).is_leaf() implies rb.contains(
        a.nodes@[l].aabb,
    ) by {
        assert(b.nodes@[l] == a.nodes@[l]);
        lemma_root_holds_node(b, l);
    }
    lemma_node_within(a, rb, a.root as int);
    assert forall|l: int| 0 <= l < b.len() && (#[trigger] b.nodes@[l]).is_leaf() implies ra.contains(
        b.nodes@[l].aabb,
    ) by {
        assert(a.nodes@[l].count == b.nodes@[l].count);
        lemma_root_holds_node(a, l);
    }
    lemma_node_within(b, ra, b.root as int);
}

/// With the same leaves, the leaves bound the same references.
pub proof fn lemma_bounds_kept(a: Bvh2, b: Bvh2, boxes: Seq<Aabb>)
    requires
        same_leaves(a, b),
        a.bounds(boxes),
    ensures
        b.bounds(boxes),
{
    assert forall|i: int| 0 <= i < b.len() && (#[trigger] b.nodes@[i]).is_leaf() implies b.nodes@[i].aabb
        == crate::bvh2::range_hull(
        boxes,
        b.refs@,
        b.nodes@[i].first as int,
        b.nodes@[i].count as int,
    ) by {
        assert(a.nodes@[i].count == b.nodes@[i].count);
    }
}

} // verus!
