//! The binary hierarchy that clustering builds and the optimiser improves.
use vstd::prelude::*;
use crate::aabb::{Aabb, lemma_contains_transitive, lemma_half_area_bounds, lemma_union_is_least};
use crate::config::{SahWeights, MAX_REFERENCES};

verus! {

/// Stands where a node has no parent.
pub const NO_NODE: u32 = 4294967295;

/// One node of the binary hierarchy.
#[derive(Clone, Copy, Debug, PartialEq, Eq, Structural)]
pub struct Bvh2Node {
    /// The box around everything below the node.
    pub aabb: Aabb,
    /// Left child of an internal node.
    pub left: u32,
    /// Right child of an internal node.
    pub right: u32,
    /// Place of a leaf's first reference in the hierarchy's list.
    pub first: u32,
    /// Number of references of a leaf; zero marks an internal node.
    pub count: u32,
}

impl Bvh2Node {
    /// The node is a leaf: it holds references.
    pub open spec fn is_leaf(self) -> bool {
        self.count > 0
    }

    /// Whether the node is a leaf.
    pub fn leaf(&self) -> (b: bool)
        ensures
            b == self.is_leaf(),
    {
        self.count > 0
    }
}

/// What the proofs know of a hierarchy beyond its stored links.
pub struct TreeShape {
    /// A number per node that is larger than those of its children.
    pub height: Seq<nat>,
    /// No height exceeds it.
    pub cap: nat,
    /// For each place of the reference list, the leaf that holds it.
    pub leaf_of: Seq<int>,
    /// For each reference, its place in the reference list.
    pub pos_of: Seq<int>,
}

/// A binary hierarchy over a list of references.
pub struct Bvh2 {
    pub nodes: Vec<Bvh2Node>,
    /// The parent of each node, `NO_NODE` for the root.
    pub parents: Vec<u32>,
    pub root: u32,
    /// The references, as positions in the caller's reference list, in the
    /// order in which the leaves hold them.
    pub refs: Vec<u32>,
    pub shape: Ghost<TreeShape>,
}

/// The smallest box that holds `boxes[refs[first + k]]` for `k < count`.
pub open spec fn range_hull(boxes: Seq<Aabb>, refs: Seq<u32>, first: int, count: int) -> Aabb
    decreases count,
{
    if count <= 0 {
        Aabb::spec_empty()
    } else {
        range_hull(boxes, refs, first, count - 1).spec_union(
            boxes[refs[first + count - 1] as int],
        )
    }
}

/// The hull of a range holds each box of the range.
pub proof fn lemma_range_hull_contains(
    boxes: Seq<Aabb>,
    refs: Seq<u32>,
    first: int,
    count: int,
    k: int,
)
    requires
        0 <= k < count,
    ensures
        range_hull(boxes, refs, first, count).contains(boxes[refs[first + k] as int]),
    decreases count,
{
    if k < count - 1 {
        lemma_range_hull_contains(boxes, refs, first, count - 1, k);
    }
}

/// The number of places below `upto` that are not the first of their
/// leaf.
pub open spec fn inside_places(nodes: Seq<Bvh2Node>, leaf_of: Seq<int>, upto: int) -> int
    decreases upto,
{
    if upto <= 0 {
        0
    } else {
        inside_places(nodes, leaf_of, upto - 1) + if nodes[leaf_of[upto - 1]].first == upto - 1 {
            0int
        } else {
            1int
        }
    }
}

/// The count is the same where the leaves are the same.
pub proof fn lemma_inside_places_same(
    a: Seq<Bvh2Node>,
    b: Seq<Bvh2Node>,
    leaf_of: Seq<int>,
    upto: int,
)
    requires
        0 <= upto <= leaf_of.len(),
        forall|k: int|
            0 <= k < upto ==> a[#[trigger] leaf_of[k]].first == b[leaf_of[k]].first,
    ensures
        inside_places(a, leaf_of, upto) == inside_places(b, leaf_of, upto),
        0 <= inside_places(a, leaf_of, upto) <= upto,
    decreases upto,
{
    if upto > 0 {
        lemma_inside_places_same(a, b, leaf_of, upto - 1);
    }
}

/// Where every place is the first of its leaf, none is inside one.
pub proof fn lemma_inside_places_none(nodes: Seq<Bvh2Node>, leaf_of: Seq<int>, upto: int)
    requires
        0 <= upto <= leaf_of.len(),
        forall|k: int| 0 <= k < upto ==> nodes[#[trigger] leaf_of[k]].first == k,
    ensures
        inside_places(nodes, leaf_of, upto) == 0,
    decreases upto,
{
    if upto > 0 {
        lemma_inside_places_none(nodes, leaf_of, upto - 1);
    }
}

/// What one node adds to the surface-area cost.
pub open spec fn node_cost(n: Bvh2Node, w: SahWeights) -> int {
    if n.is_leaf() {
        w.intersection as int * (n.count as int * n.aabb.spec_half_area())
    } else {
        w.traversal as int * n.aabb.spec_half_area()
    }
}

/// The cost of the first `k` nodes.
pub open spec fn cost_prefix(nodes: Seq<Bvh2Node>, w: SahWeights, k: int) -> int
    decreases k,
{
    if k <= 0 {
        0
    } else {
        cost_prefix(nodes, w, k - 1) + node_cost(nodes[k - 1], w)
    }
}

/// The summed half-area of the internal nodes among the first `k` nodes.
pub open spec fn inner_area_prefix(nodes: Seq<Bvh2Node>, k: int) -> int
    decreases k,
{
    if k <= 0 {
        0
    } else {
        inner_area_prefix(nodes, k - 1) + if nodes[k - 1].is_leaf() {
            0
        } else {
            nodes[k - 1].aabb.spec_half_area()
        }
    }
}

impl Bvh2 {
    /// The number of nodes.
    pub open spec fn len(self) -> int {
        self.nodes@.len() as int
    }

    /// `i` is an internal node.
    pub open spec fn is_inner(self, i: int) -> bool {
        0 <= i < self.len() && !self.nodes@[i].is_leaf()
    }

    /// The lists have the lengths that belong together, and the count of nodes is
    /// within what the count of references allows.
    pub open spec fn sizes_ok(self) -> bool {
        &&& 1 <= self.nodes@.len() < NO_NODE
        &&& self.parents@.len() == self.nodes@.len()
        &&& self.shape@.height.len() == self.nodes@.len()
        &&& self.root < self.nodes@.len()
        &&& self.refs@.len() <= MAX_REFERENCES
        &&& self.shape@.leaf_of.len() == self.refs@.len()
        &&& self.shape@.pos_of.len() == self.refs@.len()
        &&& self.nodes@.len() + 2 * inside_places(
            self.nodes@,
            self.shape@.leaf_of,
            self.refs@.len() as int,
        ) <= 2 * MAX_REFERENCES
    }

    /// Node `i` is a child of the node that it names as its parent.
    pub open spec fn child_ok(self, i: int) -> bool {
        let p = self.parents@[i];
        &&& p < self.nodes@.len()
        &&& !self.nodes@[p as int].is_leaf()
        &&& (self.nodes@[p as int].left == i || self.nodes@[p as int].right == i)
    }

    /// The internal node `i` has two different children that name it as
    /// their parent and are lower than it.
    pub open spec fn inner_ok(self, i: int) -> bool {
        let n = self.nodes@[i];
        &&& n.left < self.nodes@.len()
        &&& n.right < self.nodes@.len()
        &&& n.left != n.right
        &&& self.parents@[n.left as int] == i
        &&& self.parents@[n.right as int] == i
        &&& self.shape@.height[n.left as int] < self.shape@.height[i]
        &&& self.shape@.height[n.right as int] < self.shape@.height[i]
    }

    /// The links form a tree below the root, but for a subtree `x` and an
    /// internal node `p` that may hang loose (`-1` where there is none).
    pub open spec fn linked(self, x: int, p: int) -> bool {
        &&& self.parents@[self.root as int] == NO_NODE
        &&& forall|i: int|
            0 <= i < self.len() && i != self.root && i != x && i != p ==> #[trigger] self.child_ok(
                i,
            )
        &&& forall|i: int| self.is_inner(i) && i != p ==> #[trigger] self.inner_ok(i)
        &&& forall|i: int|
            0 <= i < self.len() ==> #[trigger] self.shape@.height[i] <= self.shape@.cap
    }

    /// The box of the internal node `i` is the union of its children's.
    pub open spec fn tight_at(self, i: int) -> bool {
        let n = self.nodes@[i];
        n.aabb == self.nodes@[n.left as int].aabb.spec_union(self.nodes@[n.right as int].aabb)
    }

    /// Every place of the reference list belongs to exactly one leaf, and
    /// the list holds every reference exactly once.
    pub open spec fn leaves_ok(self) -> bool {
        let n = self.refs@.len();
        &&& forall|i: int|
            0 <= i < self.len() && (#[trigger] self.nodes@[i]).is_leaf() ==> {
                &&& self.nodes@[i].first + self.nodes@[i].count <= n
                &&& forall|k: int|
                    self.nodes@[i].first <= k < self.nodes@[i].first + self.nodes@[i].count
                        ==> #[trigger] self.shape@.leaf_of[k] == i
            }
        &&& forall|k: int|
            0 <= k < n ==> {
                let l = #[trigger] self.shape@.leaf_of[k];
                &&& 0 <= l < self.len()
                &&& self.nodes@[l].is_leaf()
                &&& self.nodes@[l].first <= k < self.nodes@[l].first + self.nodes@[l].count
            }
        &&& forall|k: int|
            0 <= k < n ==> (#[trigger] self.refs@[k]) < n && self.shape@.pos_of[self.refs@[k] as int]
                == k
        &&& forall|r: int|
            0 <= r < n ==> {
                let k = #[trigger] self.shape@.pos_of[r];
                0 <= k < n && self.refs@[k] == r
            }
    }

    /// The tree is whole, but for a subtree `x` and an internal node `p`
    /// that may hang loose, and for the internal node `dirty` whose box may
    /// be stale.
    pub open spec fn wf_but(self, x: int, p: int, dirty: int) -> bool {
        &&& self.sizes_ok()
        &&& self.linked(x, p)
        &&& self.leaves_ok()
        &&& forall|i: int| 0 <= i < self.len() ==> (#[trigger] self.nodes@[i]).aabb.valid()
        &&& forall|i: int|
            self.is_inner(i) && i != p && i != dirty ==> #[trigger] self.tight_at(i)
    }

    /// The hierarchy is a binary tree: every node but the root has one
    /// parent, every internal node two children and the union of their
    /// boxes as its box, and every reference lies in exactly one leaf.
    pub open spec fn wf(self) -> bool {
        self.wf_but(-1, -1, -1)
    }

    /// The box of every leaf is the hull of the boxes of its references.
    pub open spec fn bounds(self, boxes: Seq<Aabb>) -> bool {
        &&& boxes.len() == self.refs@.len()
        &&& forall|i: int|
            0 <= i < self.len() && (#[trigger] self.nodes@[i]).is_leaf() ==> self.nodes@[i].aabb
                == range_hull(
                boxes,
                self.refs@,
                self.nodes@[i].first as int,
                self.nodes@[i].count as int,
            )
    }

    /// The surface-area cost: the weighted half-areas of the internal
    /// nodes plus those of the leaves, each times its number of references.
    pub open spec fn spec_sah_cost(self, w: SahWeights) -> int {
        cost_prefix(self.nodes@, w, self.len())
    }

    /// The summed half-area of the internal nodes.
    pub open spec fn inner_area(self) -> int {
        inner_area_prefix(self.nodes@, self.len())
    }

    /// The number of nodes.
    pub fn node_count(&self) -> (n: usize)
        ensures
            n == self.len(),
    {
        self.nodes.len()
    }

    /// The number of references.
    pub fn reference_count(&self) -> (n: usize)
        ensures
            n == self.refs@.len(),
    {
        self.refs.len()
    }

    /// The root.
    pub fn root_index(&self) -> (r: u32)
        ensures
            r == self.root,
    {
        self.root
    }

    /// The node `i`.
    pub fn node(&self, i: usize) -> (n: Bvh2Node)
        requires
            i < self.len(),
        ensures
            n == self.nodes@[i as int],
    {
        self.nodes[i]
    }

    /// The parent of the node `i`, `NO_NODE` for the root.
    pub fn parent(&self, i: usize) -> (p: u32)
        requires
            i < self.parents@.len(),
        ensures
            p == self.parents@[i as int],
    {
        self.parents[i]
    }

    /// The reference at place `k` of the list.
    pub fn reference(&self, k: usize) -> (r: u32)
        requires
            k < self.refs@.len(),
        ensures
            r == self.refs@[k as int],
    {
        self.refs[k]
    }

    /// The surface-area cost, or `None` where it does not fit the result.
    pub fn sah_cost(&self, w: SahWeights) -> (c: Option<u128>)
        ensures
            c == if self.spec_sah_cost(w) <= u128::MAX {
                Some(self.spec_sah_cost(w) as u128)
            } else {
                None
            },
    {
        let mut total: u128 = 0;
        let mut i: usize = 0;
        while i < self.nodes.len()
            invariant
                i <= self.nodes@.len(),
                total == cost_prefix(self.nodes@, w, i as int),
            decreases self.nodes@.len() - i,
        {
            let n = self.nodes[i];
            let area: u64 = n.aabb.half_area();
            proof {
                lemma_half_area_bounds(n.aabb);
                lemma_cost_prefix_monotone(self.nodes@, w, i + 1, self.len());
            }
            let term: u128 = if n.count > 0 {
                assert(n.count as int * area as int <= 0x1_0000_0000 * 0x1_0000_0000_0000_0000)
                    by (nonlinear_arith)
                    requires
                        0 <= n.count < 0x1_0000_0000,
                        0 <= area < 0x1_0000_0000_0000_0000,
                ;
                assert(w.intersection as int * (n.count as int * area as int) <= 0x1_0000
                    * 0x1_0000_0000_0000_0000_0000_0000) by (nonlinear_arith)
                    requires
                        0 <= w.intersection < 0x1_0000,
                        0 <= n.count as int * area as int <= 0x1_0000_0000_0000_0000_0000_0000,
                ;
                (w.intersection as u128) * ((n.count as u128) * (area as u128))
            } else {
                assert(w.traversal as int * area as int <= 0x1_0000 * 0x1_0000_0000_0000_0000)
                    by (nonlinear_arith)
                    requires
                        0 <= w.traversal < 0x1_0000,
                        0 <= area < 0x1_0000_0000_0000_0000,
                ;
                (w.traversal as u128) * (area as u128)
            };
            assert(term == node_cost(n, w));
            match total.checked_add(term) {
                Some(t) => {
                    total = t;
                },
                None => {
                    return None;
                },
            }
            i = i + 1;
        }
        Some(total)
    }
}

/// A node's cost is never negative.
pub proof fn lemma_node_cost_nonneg(n: Bvh2Node, w: SahWeights)
    ensures
        0 <= node_cost(n, w),
{
    lemma_half_area_bounds(n.aabb);
    assert(0 <= n.count as int * n.aabb.spec_half_area()) by (nonlinear_arith)
        requires
            0 <= n.count,
            0 <= n.aabb.spec_half_area(),
    ;
    assert(0 <= w.intersection as int * (n.count as int * n.aabb.spec_half_area()))
        by (nonlinear_arith)
        requires
            0 <= w.intersection,
            0 <= n.count as int * n.aabb.spec_half_area(),
    ;
    assert(0 <= w.traversal as int * n.aabb.spec_half_area()) by (nonlinear_arith)
        requires
            0 <= w.traversal,
            0 <= n.aabb.spec_half_area(),
    ;
}

/// The cost of a prefix grows with the prefix.
pub proof fn lemma_cost_prefix_monotone(nodes: Seq<Bvh2Node>, w: SahWeights, j: int, k: int)
    requires
        0 <= j <= k,
    ensures
        0 <= cost_prefix(nodes, w, j) <= cost_prefix(nodes, w, k),
    decreases k,
{
    if j < k {
        lemma_cost_prefix_monotone(nodes, w, j, k - 1);
        lemma_node_cost_nonneg(nodes[k - 1], w);
    } else if k > 0 {
        lemma_cost_prefix_monotone(nodes, w, j - 1, k - 1);
        lemma_node_cost_nonneg(nodes[k - 1], w);
    }
}

/// In a whole tree the box of the root holds the box of every node.
pub proof fn lemma_root_holds_node(t: Bvh2, i: int)
    requires
        t.wf(),
        0 <= i < t.len(),
    ensures
        t.nodes@[t.root as int].aabb.contains(t.nodes@[i].aabb),
    decreases t.shape@.cap - t.shape@.height[i],
{
    if i != t.root {
        let p = t.parents@[i] as int;
        assert(t.child_ok(i));
        assert(t.is_inner(p));
        assert(t.inner_ok(p));
        assert(t.tight_at(p));
        assert(t.shape@.height[p] <= t.shape@.cap);
        let n = t.nodes@[p];
        lemma_union_is_least(t.nodes@[n.left as int].aabb, t.nodes@[n.right as int].aabb);
        lemma_root_holds_node(t, p);
        lemma_contains_transitive(t.nodes@[t.root as int].aabb, t.nodes@[p].aabb, t.nodes@[i].aabb);
    }
}

/// In a whole tree whose leaves bound their references, every reference
/// lies in a leaf whose box holds the reference's box, and so does the
/// box of the root.
pub proof fn lemma_every_reference_covered(t: Bvh2, boxes: Seq<Aabb>, r: int)
    requires
        t.wf(),
        t.bounds(boxes),
        0 <= r < boxes.len(),
    ensures
        ({
            let k = t.shape@.pos_of[r];
            let l = t.shape@.leaf_of[k];
            &&& 0 <= k < t.refs@.len()
            &&& t.refs@[k] == r
            &&& 0 <= l < t.len()
            &&& t.nodes@[l].is_leaf()
            &&& t.nodes@[l].first <= k < t.nodes@[l].first + t.nodes@[l].count
            &&& t.nodes@[l].aabb.contains(boxes[r])
            &&& t.nodes@[t.root as int].aabb.contains(boxes[r])
        }),
{
    let k = t.shape@.pos_of[r];
    let l = t.shape@.leaf_of[k];
    let n = t.nodes@[l];
    lemma_range_hull_contains(boxes, t.refs@, n.first as int, n.count as int, k - n.first);
    lemma_root_holds_node(t, l);
    lemma_contains_transitive(t.nodes@[t.root as int].aabb, n.aabb, boxes[r]);
}

/// In a whole tree, a box that holds the box of every leaf holds the box
/// of every node.
pub proof fn lemma_node_within(t: Bvh2, s: Aabb, i: int)
    requires
        t.wf(),
        0 <= i < t.len(),
        forall|l: int|
            0 <= l < t.len() && (#[trigger] t.nodes@[l]).is_leaf() ==> s.contains(t.nodes@[l].aabb),
    ensures
        s.contains(t.nodes@[i].aabb),
    decreases t.shape@.height[i],
{
    if !t.nodes@[i].is_leaf() {
        assert(t.is_inner(i));
        assert(t.inner_ok(i));
        assert(t.tight_at(i));
        let n = t.nodes@[i];
        lemma_node_within(t, s, n.left as int);
        lemma_node_within(t, s, n.right as int);
        lemma_union_is_least(t.nodes@[n.left as int].aabb, t.nodes@[n.right as int].aabb);
    }
}

/// A box that holds every box of a range holds the hull of the range.
pub proof fn lemma_range_hull_within(
    boxes: Seq<Aabb>,
    refs: Seq<u32>,
    first: int,
    count: int,
    s: Aabb,
)
    requires
        count > 0,
        forall|k: int| 0 <= k < count ==> s.contains(boxes[#[trigger] refs[first + k] as int]),
    ensures
        s.contains(range_hull(boxes, refs, first, count)),
    decreases count,
{
    reveal_with_fuel(range_hull, 2);
    assert(s.contains(boxes[refs[first + (count - 1)] as int]));
    if count > 1 {
        assert forall|k: int| 0 <= k < count - 1 implies s.contains(
            boxes[#[trigger] refs[first + k] as int],
        ) by {}
        lemma_range_hull_within(boxes, refs, first, count - 1, s);
    }
}

/// A whole tree whose root is a leaf has no other node.
pub proof fn lemma_root_leaf_alone(t: Bvh2, i: int)
    requires
        t.wf(),
        t.nodes@[t.root as int].is_leaf(),
        0 <= i < t.len(),
    ensures
        i == t.root,
    decreases t.shape@.cap - t.shape@.height[i],
{
    if i != t.root {
        let p = t.parents@[i] as int;
        assert(t.child_ok(i));
        assert(t.is_inner(p));
        assert(t.inner_ok(p));
        assert(t.shape@.height[p] <= t.shape@.cap);
        lemma_root_leaf_alone(t, p);
    }
}

/// No leaf holds more than `cap` references.
pub open spec fn leaves_capped(t: Bvh2, cap: int) -> bool {
    forall|i: int| 0 <= i < t.len() ==> (#[trigger] t.nodes@[i]).count <= cap
}

} // verus!
