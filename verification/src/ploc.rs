//! Bottom-up clustering of references into a binary hierarchy.
//!
//! The references are sorted by a spatial key. In rounds, every cluster
//! picks the partner within its search window whose union with it has the
//! least half-area, and two clusters that pick each other are merged,
//! until one cluster is left.
use vstd::prelude::*;
use crate::aabb::{Aabb, lemma_union_is_least};
use crate::bvh2::{Bvh2, Bvh2Node, TreeShape, NO_NODE, range_hull};
use crate::config::{
    BuildError, SearchDistance, MAX_REFERENCES, axis_bits, round_window, spec_axis_bits,
    spec_round_window,
};
use crate::keys::{spatial_key, spec_spatial_key};
use crate::primitive::{PrimitiveReference, all_valid, boxes_of, hull, hull_prefix, lemma_hull_prefix};
use crate::sort::{SortEntry, entry_le, lemma_sorted_ids, sort_entries, sorted};

verus! {

/// The least position from `k` on whose box is not valid, or the length.
pub open spec fn first_invalid(refs: Seq<PrimitiveReference>, k: int) -> int
    decreases refs.len() - k,
{
    if k >= refs.len() {
        refs.len() as int
    } else if !refs[k].aabb.valid() {
        k
    } else {
        first_invalid(refs, k + 1)
    }
}

/// Why a list of references cannot be clustered, if it cannot.
pub open spec fn spec_input_error(refs: Seq<PrimitiveReference>) -> Option<BuildError> {
    if refs.len() == 0 {
        Some(BuildError::NoPrimitives)
    } else if refs.len() > MAX_REFERENCES {
        Some(BuildError::TooManyPrimitives)
    } else if first_invalid(refs, 0) < refs.len() {
        Some(BuildError::UnboundedGeometry { index: first_invalid(refs, 0) as usize })
    } else {
        None
    }
}

/// Every box before the first that is not valid is valid, and that one is
/// not.
pub proof fn lemma_first_invalid(refs: Seq<PrimitiveReference>, k: int)
    requires
        0 <= k <= refs.len(),
    ensures
        k <= first_invalid(refs, k) <= refs.len(),
        forall|j: int| k <= j < first_invalid(refs, k) ==> (#[trigger] refs[j]).aabb.valid(),
        first_invalid(refs, k) < refs.len() ==> !refs[first_invalid(refs, k)].aabb.valid(),
    decreases refs.len() - k,
{
    if k < refs.len() && refs[k].aabb.valid() {
        lemma_first_invalid(refs, k + 1);
    }
}

/// The box around all references, or the place of the first reference
/// whose box is not valid.
pub fn scene_bounds(refs: &Vec<PrimitiveReference>) -> (r: Result<Aabb, usize>)
    ensures
        match r {
            Ok(scene) => first_invalid(refs@, 0) == refs@.len() && all_valid(refs@) && scene
                == hull(boxes_of(refs@)),
            Err(index) => index == first_invalid(refs@, 0) && index < refs@.len(),
        },
{
    let mut scene = Aabb::empty();
    let mut i: usize = 0;
    while i < refs.len()
        invariant
            i <= refs@.len(),
            first_invalid(refs@, 0) == first_invalid(refs@, i as int),
            forall|j: int| 0 <= j < i ==> (#[trigger] refs@[j]).aabb.valid(),
            scene == hull_prefix(boxes_of(refs@), i as int),
        decreases refs@.len() - i,
    {
        let b = refs[i].aabb;
        if !b.is_valid() {
            return Err(i);
        }
        scene = scene.union(b);
        i = i + 1;
    }
    Ok(scene)
}

/// The sort entry of reference `r`: its spatial key and its position.
pub open spec fn entry_of(refs: Seq<PrimitiveReference>, scene: Aabb, bits: int, r: int) -> SortEntry {
    SortEntry { key: spec_spatial_key(refs[r].aabb, scene, bits) as u64, id: r as u32 }
}

/// The sort entries of the references: their spatial keys and their positions.
pub fn make_entries(refs: &Vec<PrimitiveReference>, scene: &Aabb, bits: u8) -> (out: Vec<SortEntry>)
    requires
        refs@.len() <= MAX_REFERENCES,
        bits <= crate::config::MAX_AXIS_BITS,
    ensures
        out@.len() == refs@.len(),
        forall|i: int| 0 <= i < out@.len() ==> #[trigger] out@[i] == entry_of(refs@, *scene, bits as int, i),
{
    let mut out: Vec<SortEntry> = Vec::new();
    let mut i: usize = 0;
    while i < refs.len()
        invariant
            i <= refs@.len(),
            refs@.len() <= MAX_REFERENCES,
            bits <= crate::config::MAX_AXIS_BITS,
            out@.len() == i,
            forall|j: int| 0 <= j < i ==> #[trigger] out@[j] == entry_of(refs@, *scene, bits as int, j),
        decreases refs@.len() - i,
    {
        let key: u64 = spatial_key(&refs[i].aabb, scene, bits);
        out.push(SortEntry { key, id: i as u32 });
        i = i + 1;
    }
    out
}

/// The number of nodes without a parent among the first `k`.
pub open spec fn roots_count(parents: Seq<u32>, k: int) -> int
    decreases k,
{
    if k <= 0 {
        0
    } else {
        roots_count(parents, k - 1) + if parents[k - 1] == NO_NODE {
            1int
        } else {
            0int
        }
    }
}

/// The count of nodes without a parent depends on the parents counted only,
/// and is within their number.
pub proof fn lemma_roots_same(p: Seq<u32>, q: Seq<u32>, k: int)
    requires
        0 <= k <= p.len(),
        k <= q.len(),
        forall|i: int| 0 <= i < k ==> p[i] == q[i],
    ensures
        roots_count(p, k) == roots_count(q, k),
        0 <= roots_count(p, k) <= k,
    decreases k,
{
    if k > 0 {
        lemma_roots_same(p, q, k - 1);
    }
}

/// Giving a parent to a node that had none lowers the count by one.
pub proof fn lemma_roots_update(p: Seq<u32>, c: int, v: u32, k: int)
    requires
        0 <= c < k <= p.len(),
        p[c] == NO_NODE,
        v != NO_NODE,
    ensures
        roots_count(p.update(c, v), k) == roots_count(p, k) - 1,
    decreases k,
{
    if c == k - 1 {
        lemma_roots_same(p, p.update(c, v), k - 1);
    } else {
        lemma_roots_update(p, c, v, k - 1);
    }
}

/// Where no node has a parent, the count is the number of nodes.
pub proof fn lemma_roots_all(p: Seq<u32>, k: int)
    requires
        0 <= k <= p.len(),
        forall|i: int| 0 <= i < k ==> p[i] == NO_NODE,
    ensures
        roots_count(p, k) == k,
    decreases k,
{
    if k > 0 {
        lemma_roots_all(p, k - 1);
    }
}

/// Where one node only has no parent, the count is one.
pub proof fn lemma_roots_single(p: Seq<u32>, k: int, r: int)
    requires
        0 <= k <= p.len(),
        forall|i: int| 0 <= i < k ==> (p[i] == NO_NODE <==> i == r),
    ensures
        roots_count(p, k) == if 0 <= r < k {
            1int
        } else {
            0int
        },
    decreases k,
{
    if k > 0 {
        lemma_roots_single(p, k - 1, r);
    }
}

/// The node `c`, made by a merge, has two earlier nodes as its children,
/// which name it as their parent, and the union of their boxes as its
/// box.
pub open spec fn inner_built(nodes: Seq<Bvh2Node>, parents: Seq<u32>, c: int) -> bool {
    let n = nodes[c];
    &&& n.count == 0
    &&& n.left < c
    &&& n.right < c
    &&& n.left != n.right
    &&& parents[n.left as int] == c
    &&& parents[n.right as int] == c
    &&& n.aabb == nodes[n.left as int].aabb.spec_union(nodes[n.right as int].aabb)
}

/// The node `c` has no parent, or is a child of the merged node that it
/// names.
pub open spec fn parent_built(nodes: Seq<Bvh2Node>, parents: Seq<u32>, n: int, c: int) -> bool {
    let p = parents[c];
    p == NO_NODE || (n <= p < nodes.len() && (nodes[p as int].left == c || nodes[p as int].right
        == c))
}

/// The clusters of a build in progress: trees over the leaves, whose
/// roots are the active clusters, in spatial order.
pub struct Forest {
    pub nodes: Vec<Bvh2Node>,
    pub parents: Vec<u32>,
    /// The roots of the trees.
    pub active: Vec<u32>,
    /// For each node without a parent, its place in `active`.
    pub place: Ghost<Seq<int>>,
    /// The leaves that the forest was started with.
    pub leaves: Ghost<Seq<Bvh2Node>>,
}

impl Forest {
    /// The forest is sound: the leaves come first and are as they were made; every
    /// later node merges two earlier ones, with the union of their boxes; and the
    /// active clusters are the nodes without a parent, each once.
    pub open spec fn ok(self) -> bool {
        let n = self.leaves@.len();
        let len = self.nodes@.len();
        &&& 1 <= n <= MAX_REFERENCES
        &&& n <= len
        &&& self.parents@.len() == len
        &&& self.place@.len() == len
        &&& len + roots_count(self.parents@, len as int) == 2 * n
        &&& forall|c: int| 0 <= c < n ==> #[trigger] self.nodes@[c] == self.leaves@[c]
        &&& forall|c: int| n <= c < len ==> #[trigger] inner_built(self.nodes@, self.parents@, c)
        &&& forall|c: int| 0 <= c < len ==> (#[trigger] self.nodes@[c]).aabb.valid()
        &&& forall|c: int|
            0 <= c < len ==> #[trigger] parent_built(self.nodes@, self.parents@, n as int, c)
        &&& 1 <= self.active@.len()
        &&& forall|k: int|
            0 <= k < self.active@.len() ==> {
                let c = #[trigger] self.active@[k];
                c < len && self.parents@[c as int] == NO_NODE && self.place@[c as int] == k
            }
        &&& forall|c: int|
            0 <= c < len && #[trigger] self.parents@[c] == NO_NODE ==> 0 <= self.place@[c]
                < self.active@.len() && self.active@[self.place@[c]] == c
    }

    /// The half-area of the union of the clusters at `i` and `j`.
    pub open spec fn pair_area(self, i: int, j: int) -> int {
        self.nodes@[self.active@[i] as int].aabb.spec_union(
            self.nodes@[self.active@[j] as int].aabb,
        ).spec_half_area()
    }

    /// The pair `(i, j)` is at least as good as the pair `(k, l)`: its
    /// union has the smaller half-area, or the same and the pair comes
    /// first by its lower place, then by its higher place.
    pub open spec fn pair_le(self, i: int, j: int, k: int, l: int) -> bool {
        let a = self.pair_area(i, j);
        let b = self.pair_area(k, l);
        a < b || (a == b && (lower(i, j) < lower(k, l) || (lower(i, j) == lower(k, l) && upper(
            i,
            j,
        ) <= upper(k, l))))
    }

    /// `j` is the partner that the cluster at `i` picks with window `w`:
    /// of the clusters within `w` places of `i`, the one whose pair with
    /// `i` is the best.
    pub open spec fn is_best(self, w: int, i: int, j: int) -> bool {
        &&& in_window(self.active@.len() as int, w, i, j)
        &&& forall|k: int| #[trigger]
            in_window(self.active@.len() as int, w, i, k) ==> self.pair_le(i, j, i, k)
    }
}

/// The lesser of two places.
pub open spec fn lower(i: int, j: int) -> int {
    if i <= j {
        i
    } else {
        j
    }
}

/// The greater of two places.
pub open spec fn upper(i: int, j: int) -> int {
    if i <= j {
        j
    } else {
        i
    }
}

/// `j` is another one of `m` places, at most `w` away from `i`.
pub open spec fn in_window(m: int, w: int, i: int, j: int) -> bool {
    0 <= j < m && j != i && i - w <= j <= i + w
}

/// The clusters at `i` and at `picks[i]` have picked each other.
pub open spec fn mutual(picks: Seq<usize>, i: int) -> bool {
    0 <= i < picks.len() && picks[i] < picks.len() && picks[picks[i] as int] == i
}

/// The partner that the cluster at `i` picks.
pub fn find_best(f: &Forest, w: usize, i: usize) -> (best: usize)
    requires
        f.ok(),
        f.active@.len() >= 2,
        i < f.active@.len(),
        1 <= w <= 24,
    ensures
        f.is_best(w as int, i as int, best as int),
{
    let m: usize = f.active.len();
    let lo: usize = if i >= w {
        i - w
    } else {
        0
    };
    let hi: usize = if m - 1 - i >= w {
        i + w
    } else {
        m - 1
    };
    let bi = f.nodes[f.active[i] as usize].aabb;
    let mut best: usize = if i > 0 {
        i - 1
    } else {
        i + 1
    };
    let mut best_area: u64 = bi.union(f.nodes[f.active[best] as usize].aabb).half_area();
    let mut k: usize = lo;
    while k <= hi
        invariant
            f.ok(),
            m == f.active@.len(),
            i < m,
            lo <= k <= hi + 1,
            hi < m,
            lo == if i >= w {
                i - w
            } else {
                0
            },
            hi == if m - 1 - i >= w {
                i + w
            } else {
                m - 1
            },
            bi == f.nodes@[f.active@[i as int] as int].aabb,
            in_window(m as int, w as int, i as int, best as int),
            best_area == f.pair_area(i as int, best as int),
            forall|c: int| #[trigger]
                in_window(m as int, w as int, i as int, c) && c < k ==> f.pair_le(
                    i as int,
                    best as int,
                    i as int,
                    c,
                ),
        decreases hi + 1 - k,
    {
        if k != i {
            let area: u64 = bi.union(f.nodes[f.active[k] as usize].aabb).half_area();
            let k_lower: usize = if i <= k {
                i
            } else {
                k
            };
            let k_upper: usize = if i <= k {
                k
            } else {
                i
            };
            let b_lower: usize = if i <= best {
                i
            } else {
                best
            };
            let b_upper: usize = if i <= best {
                best
            } else {
                i
            };
            if area < best_area || (area == best_area && (k_lower < b_lower || (k_lower == b_lower
                && k_upper < b_upper))) {
                best = k;
                best_area = area;
            }
        }
        k = k + 1;
    }
    best
}

/// The partner that every cluster picks.
pub fn find_neighbors(f: &Forest, w: usize) -> (picks: Vec<usize>)
    requires
        f.ok(),
        f.active@.len() >= 2,
        1 <= w <= 24,
    ensures
        picks@.len() == f.active@.len(),
        forall|i: int| 0 <= i < picks@.len() ==> f.is_best(w as int, i, #[trigger] picks@[i] as int),
{
    let mut picks: Vec<usize> = Vec::new();
    let mut i: usize = 0;
    while i < f.active.len()
        invariant
            f.ok(),
            f.active@.len() >= 2,
            1 <= w <= 24,
            i <= f.active@.len(),
            picks@.len() == i,
            forall|j: int| 0 <= j < i ==> f.is_best(w as int, j, #[trigger] picks@[j] as int),
        decreases f.active@.len() - i,
    {
        let b: usize = find_best(f, w, i);
        picks.push(b);
        i = i + 1;
    }
    picks
}

/// A place below `upto` whose pair with its pick is at least as good as
/// that of every other place below `upto`.
pub proof fn lemma_best_pair(f: Forest, picks: Seq<usize>, upto: int) -> (g: int)
    requires
        1 <= upto <= picks.len(),
    ensures
        0 <= g < upto,
        forall|i: int| 0 <= i < upto ==> f.pair_le(g, picks[g] as int, i, #[trigger] picks[i] as int),
    decreases upto,
{
    if upto == 1 {
        0
    } else {
        let g0 = lemma_best_pair(f, picks, upto - 1);
        let last = upto - 1;
        if f.pair_le(g0, picks[g0] as int, last, picks[last] as int) {
            g0
        } else {
            assert forall|i: int| 0 <= i < upto implies f.pair_le(
                last,
                picks[last] as int,
                i,
                #[trigger] picks[i] as int,
            ) by {
                if i < last {
                    assert(f.pair_le(g0, picks[g0] as int, i, picks[i] as int));
                }
            }
            last
        }
    }
}

/// Whenever every cluster has picked its best partner, two clusters have
/// picked each other.
pub proof fn lemma_mutual_exists(f: Forest, w: int, picks: Seq<usize>) -> (g: int)
    requires
        picks.len() == f.active@.len(),
        picks.len() >= 2,
        forall|i: int| 0 <= i < picks.len() ==> f.is_best(w, i, #[trigger] picks[i] as int),
    ensures
        mutual(picks, g),
        picks[g] != g,
{
    let m = picks.len() as int;
    let g = lemma_best_pair(f, picks, m);
    let j = picks[g] as int;
    assert(f.is_best(w, g, j));
    assert(f.is_best(w, j, picks[j] as int));
    assert(in_window(m, w, j, g));
    assert(f.pair_le(j, picks[j] as int, j, g));
    assert(f.pair_le(g, j, j, picks[j] as int));
    lemma_union_is_least(
        f.nodes@[f.active@[g] as int].aabb,
        f.nodes@[f.active@[j] as int].aabb,
    );
    assert(f.pair_area(g, j) == f.pair_area(j, g));
    g
}

/// The leaf that holds the single reference at place `k`, with box `b`.
pub open spec fn leaf_node(b: Aabb, k: int) -> Bvh2Node {
    Bvh2Node { aabb: b, left: 0, right: 0, first: k as u32, count: 1 }
}

/// One cluster per sorted entry: a leaf with the reference's box. Also
/// returns the references in the order of the leaves.
pub fn init_forest(entries: &Vec<SortEntry>, refs: &Vec<PrimitiveReference>) -> (out: (
    Forest,
    Vec<u32>,
))
    requires
        all_valid(refs@),
        1 <= refs@.len() <= MAX_REFERENCES,
        entries@.len() == refs@.len(),
        forall|k: int| 0 <= k < entries@.len() ==> (#[trigger] entries@[k]).id < refs@.len(),
    ensures
        out.0.ok(),
        out.0.leaves@.len() == refs@.len(),
        out.0.nodes@ == out.0.leaves@,
        out.0.active@.len() == refs@.len(),
        out.1@.len() == refs@.len(),
        forall|k: int| 0 <= k < refs@.len() ==> (#[trigger] out.1@[k]) == entries@[k].id,
        forall|k: int|
            0 <= k < refs@.len() ==> #[trigger] out.0.leaves@[k] == leaf_node(
                refs@[entries@[k].id as int].aabb,
                k,
            ),
{
    let n: usize = refs.len();
    let mut nodes: Vec<Bvh2Node> = Vec::new();
    let mut parents: Vec<u32> = Vec::new();
    let mut active: Vec<u32> = Vec::new();
    let mut order: Vec<u32> = Vec::new();
    let mut k: usize = 0;
    while k < n
        invariant
            k <= n,
            n == refs@.len(),
            n <= MAX_REFERENCES,
            entries@.len() == n,
            all_valid(refs@),
            forall|j: int| 0 <= j < entries@.len() ==> (#[trigger] entries@[j]).id < refs@.len(),
            nodes@.len() == k,
            parents@.len() == k,
            active@.len() == k,
            order@.len() == k,
            forall|j: int| 0 <= j < k ==> #[trigger] parents@[j] == NO_NODE,
            forall|j: int| 0 <= j < k ==> #[trigger] active@[j] == j,
            forall|j: int| 0 <= j < k ==> #[trigger] order@[j] == entries@[j].id,
            forall|j: int|
                0 <= j < k ==> #[trigger] nodes@[j] == leaf_node(
                    refs@[entries@[j].id as int].aabb,
                    j,
                ),
        decreases n - k,
    {
        let id: u32 = entries[k].id;
        let b = refs[id as usize].aabb;
        nodes.push(Bvh2Node { aabb: b, left: 0, right: 0, first: k as u32, count: 1 });
        parents.push(NO_NODE);
        active.push(k as u32);
        order.push(id);
        k = k + 1;
    }
    let ghost place = Seq::new(n as nat, |c: int| c);
    let f = Forest { nodes, parents, active, place: Ghost(place), leaves: Ghost(nodes@) };
    proof {
        lemma_roots_all(f.parents@, n as int);
        assert forall|c: int| 0 <= c < n implies (#[trigger] f.nodes@[c]).aabb.valid() by {
            assert(refs@[entries@[c].id as int].aabb.valid());
        }
        assert forall|c: int| 0 <= c < n implies #[trigger] parent_built(
            f.nodes@,
            f.parents@,
            n as int,
            c,
        ) by {
            assert(f.parents@[c] == NO_NODE);
        }
        assert forall|j: int| 0 <= j < f.active@.len() implies ({
            let c = #[trigger] f.active@[j];
            c < n && f.parents@[c as int] == NO_NODE && f.place@[c as int] == j
        }) by {
            assert(f.active@[j] == j);
            assert(f.parents@[j] == NO_NODE);
        }
        assert forall|c: int| 0 <= c < n && #[trigger] f.parents@[c] == NO_NODE implies 0
            <= f.place@[c] < f.active@.len() && f.active@[f.place@[c]] == c by {
            assert(f.active@[c] == c);
        }
    }
    (f, order)
}

/// The node that merges the clusters at the places `i` and `j`.
pub open spec fn merged_node(f: Forest, i: int, j: int) -> Bvh2Node {
    Bvh2Node {
        aabb: f.nodes@[f.active@[i] as int].aabb.spec_union(f.nodes@[f.active@[j] as int].aabb),
        left: f.active@[i],
        right: f.active@[j],
        first: 0,
        count: 0,
    }
}

/// Among the clusters `active` is the node `node`, made after the first
/// `len0` nodes.
pub open spec fn holds_merge(nodes: Seq<Bvh2Node>, active: Seq<u32>, len0: int, node: Bvh2Node) -> bool {
    exists|k: int|
        0 <= k < active.len() && len0 <= (#[trigger] active[k]) < nodes.len()
            && nodes[active[k] as int] == node
}

/// `node` merges two clusters of `f` that picked each other.
pub open spec fn is_merge(f: Forest, picks: Seq<usize>, node: Bvh2Node) -> bool {
    exists|i: int|
        #![trigger picks[i]]
        mutual(picks, i) && i < picks[i] && node == merged_node(f, i, picks[i] as int)
}

/// Merges every two clusters that picked each other; the merged cluster
/// takes the place of the earlier of the two. The other clusters stay, and
/// no other node is made.
pub fn merge_round(f: Forest, picks: &Vec<usize>) -> (out: Forest)
    requires
        f.ok(),
        f.active@.len() >= 2,
        picks@.len() == f.active@.len(),
        forall|i: int|
            0 <= i < picks@.len() ==> (#[trigger] picks@[i]) < picks@.len() && picks@[i] != i,
        exists|g: int| mutual(picks@, g),
    ensures
        out.ok(),
        out.leaves@ == f.leaves@,
        out.active@.len() < f.active@.len(),
        out.nodes@.len() >= f.nodes@.len(),
        forall|c: int| 0 <= c < f.nodes@.len() ==> #[trigger] out.nodes@[c] == f.nodes@[c],
        forall|i: int|
            0 <= i < picks@.len() && !mutual(picks@, i) ==> out.active@.contains(
                #[trigger] f.active@[i],
            ),
        forall|i: int|
            #![trigger picks@[i]]
            mutual(picks@, i) && i < picks@[i] ==> holds_merge(
                out.nodes@,
                out.active@,
                f.nodes@.len() as int,
                merged_node(f, i, picks@[i] as int),
            ),
        forall|c: int|
            f.nodes@.len() <= c < out.nodes@.len() ==> is_merge(f, picks@, #[trigger] out.nodes@[c]),
{
    let ghost f0 = f;
    let ghost n = f.leaves@.len() as int;
    let ghost len0 = f.nodes@.len() as int;
    let ghost place0 = f.place@;
    let ghost leaves = f.leaves@;
    let Forest { nodes, parents, active, .. } = f;
    let mut nodes = nodes;
    let mut parents = parents;
    let m: usize = active.len();
    let mut next: Vec<u32> = Vec::new();
    let ghost mut place_next: Seq<int> = place0;
    let ghost mut skipped: int = 0;
    let mut i: usize = 0;
    while i < m
        invariant
            i <= m,
            m == active@.len(),
            m >= 2,
            picks@.len() == m,
            forall|k: int| 0 <= k < m ==> (#[trigger] picks@[k]) < m && picks@[k] != k,
            n == leaves.len(),
            1 <= n <= MAX_REFERENCES,
            n <= len0 <= nodes@.len(),
            parents@.len() == nodes@.len(),
            place_next.len() == nodes@.len(),
            place0.len() == len0,
            nodes@.len() + roots_count(parents@, nodes@.len() as int) == 2 * n,
            forall|c: int| 0 <= c < n ==> #[trigger] nodes@[c] == leaves[c],
            forall|c: int| n <= c < nodes@.len() ==> #[trigger] inner_built(nodes@, parents@, c),
            forall|c: int| 0 <= c < nodes@.len() ==> (#[trigger] nodes@[c]).aabb.valid(),
            forall|c: int| 0 <= c < nodes@.len() ==> #[trigger] parent_built(nodes@, parents@, n, c),
            forall|k: int|
                0 <= k < m ==> (#[trigger] active@[k]) < len0 && place0[active@[k] as int] == k,
            forall|k: int|
                0 <= k < next@.len() ==> {
                    let c = #[trigger] next@[k];
                    &&& c < nodes@.len()
                    &&& parents@[c as int] == NO_NODE
                    &&& place_next[c as int] == k
                    &&& (c >= len0 || 0 <= place0[c as int] < i)
                },
            forall|k: int|
                i <= k < m ==> (parents@[(#[trigger] active@[k]) as int] == NO_NODE <==> !(mutual(
                    picks@,
                    k,
                ) && picks@[k] < i)),
            forall|c: int|
                0 <= c < nodes@.len() && #[trigger] parents@[c] == NO_NODE ==> (c < len0 && i
                    <= place0[c] < m && active@[place0[c]] == c) || (0 <= place_next[c]
                    < next@.len() && next@[place_next[c]] == c),
            active@ == f0.active@,
            len0 == f0.nodes@.len(),
            forall|c: int| 0 <= c < len0 ==> #[trigger] nodes@[c] == f0.nodes@[c],
            forall|k: int|
                0 <= k < i && !mutual(picks@, k) ==> next@.contains(#[trigger] active@[k]),
            forall|k: int|
                #![trigger picks@[k]]
                0 <= k < i && mutual(picks@, k) && k < picks@[k] ==> holds_merge(
                    nodes@,
                    next@,
                    len0,
                    merged_node(f0, k, picks@[k] as int),
                ),
            forall|c: int| len0 <= c < nodes@.len() ==> is_merge(f0, picks@, #[trigger] nodes@[c]),
            next@.len() + skipped == i,
            skipped >= 0,
            i >= 1 ==> next@.len() >= 1,
            forall|h: int| 0 <= h < i && mutual(picks@, h) && (#[trigger] picks@[h]) < h ==> skipped >= 1,
        decreases m - i,
    {
        let j: usize = picks[i];
        let c: u32 = active[i];
        let ghost nodes_before = nodes@;
        let ghost parents_before = parents@;
        let ghost next_before = next@;
        let ghost place_before = place_next;
        let ghost lenb = nodes@.len() as int;
        if picks[j] == i {
            if i < j {
                let r: u32 = active[j];
                proof {
                    lemma_roots_same(parents@, parents@, lenb);
                    assert(mutual(picks@, i as int));
                    assert(mutual(picks@, j as int));
                    assert(place0[c as int] == i);
                    assert(place0[r as int] == j);
                    assert(parents@[active@[i as int] as int] == NO_NODE);
                    assert(parents@[active@[j as int] as int] == NO_NODE);
                }
                let id: u32 = nodes.len() as u32;
                let bx = nodes[c as usize].aabb.union(nodes[r as usize].aabb);
                nodes.push(Bvh2Node { aabb: bx, left: c, right: r, first: 0, count: 0 });
                parents.set(c as usize, id);
                parents.set(r as usize, id);
                parents.push(NO_NODE);
                next.push(id);
                proof {
                    place_next = place_next.push(next@.len() - 1);
                    assert(nodes@[id as int] == merged_node(f0, i as int, j as int));
                    assert(is_merge(f0, picks@, nodes@[id as int])) by {
                        assert(mutual(picks@, i as int) && i < picks@[i as int]);
                    }
                    assert forall|k: int|
                        0 <= k < i + 1 && !mutual(picks@, k) implies next@.contains(
                        #[trigger] active@[k],
                    ) by {
                        let w = choose|w: int| 0 <= w < next_before.len() && next_before[w] == active@[k];
                        assert(next@[w] == active@[k]);
                    }
                    assert forall|k: int|
                        #![trigger picks@[k]]
                        0 <= k < i + 1 && mutual(picks@, k) && k < picks@[k] implies holds_merge(
                        nodes@,
                        next@,
                        len0,
                        merged_node(f0, k, picks@[k] as int),
                    ) by {
                        if k < i {
                            let node = merged_node(f0, k, picks@[k] as int);
                            assert(holds_merge(nodes_before, next_before, len0, node));
                            let w = choose|w: int|
                                0 <= w < next_before.len() && len0 <= (#[trigger] next_before[w])
                                    < nodes_before.len() && nodes_before[next_before[w] as int]
                                    == node;
                            assert(next@[w] == next_before[w]);
                        } else {
                            assert(next@[next@.len() - 1] == id);
                        }
                    }
                    let p1 = parents_before.update(c as int, id);
                    let p2 = p1.update(r as int, id);
                    lemma_roots_update(parents_before, c as int, id, lenb);
                    lemma_roots_update(p1, r as int, id, lenb);
                    lemma_roots_same(p2, parents@, lenb);
                    lemma_union_is_least(nodes_before[c as int].aabb, nodes_before[r as int].aabb);
                    assert(parents@ =~= p2.push(NO_NODE));
                    assert forall|x: int| n <= x < nodes@.len() implies #[trigger] inner_built(
                        nodes@,
                        parents@,
                        x,
                    ) by {
                        if x < lenb {
                            assert(inner_built(nodes_before, parents_before, x));
                            let nx = nodes_before[x];
                            assert(parents_before[nx.left as int] == x);
                            assert(parents_before[nx.right as int] == x);
                        }
                    }
                    assert forall|x: int| 0 <= x < nodes@.len() implies #[trigger] parent_built(
                        nodes@,
                        parents@,
                        n,
                        x,
                    ) by {
                        if x < lenb && x != c && x != r {
                            assert(parent_built(nodes_before, parents_before, n, x));
                        }
                    }
                    assert forall|k: int| 0 <= k < next@.len() implies ({
                        let x = #[trigger] next@[k];
                        &&& x < nodes@.len()
                        &&& parents@[x as int] == NO_NODE
                        &&& place_next[x as int] == k
                        &&& (x >= len0 || 0 <= place0[x as int] < i + 1)
                    }) by {
                        if k < next_before.len() {
                            let x = next_before[k];
                            assert(next@[k] == x);
                            assert(parents_before[x as int] == NO_NODE);
                        }
                    }
                    assert forall|k: int| i + 1 <= k < m implies (parents@[(
                    #[trigger] active@[k]) as int] == NO_NODE <==> !(mutual(picks@, k)
                        && picks@[k] < i + 1)) by {
                        let x = active@[k];
                        assert(place0[x as int] == k);
                        if k == j {
                        } else {
                            assert(x != r);
                            assert(x != c);
                            assert(parents@[x as int] == parents_before[x as int]);
                            if mutual(picks@, k) && picks@[k] == i {
                                assert(false);
                            }
                        }
                    }
                    assert forall|x: int|
                        0 <= x < nodes@.len() && #[trigger] parents@[x] == NO_NODE implies (x
                        < len0 && i + 1 <= place0[x] < m && active@[place0[x]] == x) || (0
                        <= place_next[x] < next@.len() && next@[place_next[x]] == x) by {
                        if x < lenb {
                            assert(x != c && x != r);
                            assert(parents_before[x] == NO_NODE);
                        }
                    }
                }
            } else {
                proof {
                    skipped = skipped + 1;
                    assert(mutual(picks@, i as int));
                    assert forall|k: int| i + 1 <= k < m implies (parents@[(
                    #[trigger] active@[k]) as int] == NO_NODE <==> !(mutual(picks@, k)
                        && picks@[k] < i + 1)) by {
                        if mutual(picks@, k) && picks@[k] == i {
                            assert(false);
                        }
                    }
                    assert forall|x: int|
                        0 <= x < nodes@.len() && #[trigger] parents@[x] == NO_NODE implies (x
                        < len0 && i + 1 <= place0[x] < m && active@[place0[x]] == x) || (0
                        <= place_next[x] < next@.len() && next@[place_next[x]] == x) by {
                        if x < len0 && place0[x] == i && active@[place0[x]] == x {
                            assert(parents@[active@[i as int] as int] != NO_NODE);
                        }
                    }
                }
            }
        } else {
            next.push(c);
            proof {
                place_next = place_next.update(c as int, next@.len() - 1);
                assert(!mutual(picks@, i as int));
                assert forall|k: int|
                    0 <= k < i + 1 && !mutual(picks@, k) implies next@.contains(
                    #[trigger] active@[k],
                ) by {
                    if k < i {
                        let w = choose|w: int| 0 <= w < next_before.len() && next_before[w] == active@[k];
                        assert(next@[w] == active@[k]);
                    } else {
                        assert(next@[next@.len() - 1] == active@[k]);
                    }
                }
                assert forall|k: int|
                    #![trigger picks@[k]]
                    0 <= k < i + 1 && mutual(picks@, k) && k < picks@[k] implies holds_merge(
                    nodes@,
                    next@,
                    len0,
                    merged_node(f0, k, picks@[k] as int),
                ) by {
                    let node = merged_node(f0, k, picks@[k] as int);
                    assert(holds_merge(nodes_before, next_before, len0, node));
                    let w = choose|w: int|
                        0 <= w < next_before.len() && len0 <= (#[trigger] next_before[w])
                            < nodes_before.len() && nodes_before[next_before[w] as int] == node;
                    assert(next@[w] == next_before[w]);
                }
                assert(parents@[active@[i as int] as int] == NO_NODE);
                assert(place0[c as int] == i);
                assert forall|k: int| 0 <= k < next@.len() implies ({
                    let x = #[trigger] next@[k];
                    &&& x < nodes@.len()
                    &&& parents@[x as int] == NO_NODE
                    &&& place_next[x as int] == k
                    &&& (x >= len0 || 0 <= place0[x as int] < i + 1)
                }) by {
                    if k < next_before.len() {
                        let x = next_before[k];
                        assert(next@[k] == x);
                        assert(x != c);
                    }
                }
                assert forall|k: int| i + 1 <= k < m implies (parents@[(
                #[trigger] active@[k]) as int] == NO_NODE <==> !(mutual(picks@, k) && picks@[k]
                    < i + 1)) by {
                    if mutual(picks@, k) && picks@[k] == i {
                        assert(false);
                    }
                }
                assert forall|x: int|
                    0 <= x < nodes@.len() && #[trigger] parents@[x] == NO_NODE implies (x < len0
                    && i + 1 <= place0[x] < m && active@[place0[x]] == x) || (0 <= place_next[x]
                    < next@.len() && next@[place_next[x]] == x) by {
                    if x != c {
                        if 0 <= place_before[x] < next_before.len() && next_before[place_before[x]]
                            == x {
                            assert(next@[place_before[x]] == x);
                        }
                    }
                }
            }
        }
        i = i + 1;
    }
    proof {
        let g = choose|g: int| mutual(picks@, g);
        let h = picks@[g] as int;
        assert(picks@[g] != g);
        if h < g {
            assert(mutual(picks@, g) && picks@[g] < g);
        } else {
            assert(mutual(picks@, h) && picks@[h] < h);
        }
        assert(skipped >= 1);
    }
    Forest { nodes, parents, active: next, place: Ghost(place_next), leaves: Ghost(leaves) }
}

/// `out` is what one round with the window `w` makes of `f`: every
/// cluster picks its best partner within the window; two clusters that
/// picked each other are merged; the others stay; no other node is made.
pub open spec fn round_of(f: Forest, out: Forest, w: int) -> bool {
    exists|picks: Seq<usize>|
        #![trigger picks.len()]
        {
            &&& picks.len() == f.active@.len()
            &&& forall|i: int| 0 <= i < picks.len() ==> f.is_best(w, i, #[trigger] picks[i] as int)
            &&& out.nodes@.len() >= f.nodes@.len()
            &&& forall|c: int| 0 <= c < f.nodes@.len() ==> #[trigger] out.nodes@[c] == f.nodes@[c]
            &&& forall|i: int|
                0 <= i < picks.len() && !mutual(picks, i) ==> out.active@.contains(
                    #[trigger] f.active@[i],
                )
            &&& forall|i: int|
                #![trigger picks[i]]
                mutual(picks, i) && i < picks[i] ==> holds_merge(
                    out.nodes@,
                    out.active@,
                    f.nodes@.len() as int,
                    merged_node(f, i, picks[i] as int),
                )
            &&& forall|c: int|
                f.nodes@.len() <= c < out.nodes@.len() ==> is_merge(f, picks, #[trigger] out.nodes@[c])
        }
}

/// One round of clustering: round number `round` of a build that uses the
/// window `full` for its first `threshold` rounds and a window of one
/// after that. At least one pair is merged.
pub fn cluster_round(f: Forest, full: usize, round: u32, threshold: u32) -> (out: Forest)
    requires
        f.ok(),
        f.active@.len() >= 2,
        1 <= full <= 24,
    ensures
        out.ok(),
        out.leaves@ == f.leaves@,
        out.active@.len() < f.active@.len(),
        round_of(f, out, spec_round_window(full as int, round as int, threshold as int)),
{
    let w: usize = round_window(full, round, threshold);
    let picks = find_neighbors(&f, w);
    proof {
        let g = lemma_mutual_exists(f, w as int, picks@);
        assert forall|i: int| 0 <= i < picks@.len() implies (#[trigger] picks@[i]) < picks@.len()
            && picks@[i] != i by {
            assert(f.is_best(w as int, i, picks@[i] as int));
        }
    }
    let out = merge_round(f, &picks);
    proof {
        assert(picks@.len() == f.active@.len());
    }
    out
}

/// Makes the hierarchy of a forest that has come down to one tree.
fn assemble(
    f: Forest,
    order: Vec<u32>,
    Ghost(pos_of): Ghost<Seq<int>>,
    Ghost(boxes): Ghost<Seq<Aabb>>,
) -> (t: Bvh2)
    requires
        f.ok(),
        f.active@.len() == 1,
        order@.len() == f.leaves@.len(),
        pos_of.len() == order@.len(),
        boxes.len() == order@.len(),
        forall|k: int|
            0 <= k < order@.len() ==> (#[trigger] order@[k]) < order@.len() && pos_of[order@[k] as int]
                == k,
        forall|r: int|
            0 <= r < order@.len() ==> 0 <= (#[trigger] pos_of[r]) < order@.len()
                && order@[pos_of[r]] == r,
        forall|k: int|
            0 <= k < order@.len() ==> #[trigger] f.leaves@[k] == leaf_node(
                boxes[order@[k] as int],
                k,
            ),
    ensures
        t.wf(),
        t.bounds(boxes),
        t.nodes@ == f.nodes@,
        t.refs@ == order@,
        t.len() == 2 * order@.len() - 1,
{
    let ghost n = order@.len() as int;
    let ghost len = f.nodes@.len() as int;
    let root: u32 = f.active[0];
    let ghost shape = TreeShape {
        height: Seq::new(len as nat, |i: int| i as nat),
        cap: len as nat,
        leaf_of: Seq::new(n as nat, |k: int| k),
        pos_of,
    };
    proof {
        assert forall|c: int| 0 <= c < len implies (f.parents@[c] == NO_NODE <==> c == root) by {
            if f.parents@[c] == NO_NODE {
                assert(f.active@[f.place@[c]] == c);
            } else {
                assert(f.active@[0] == root);
            }
        }
        lemma_roots_single(f.parents@, len, root as int);
    }
    let leaves = f.leaves;
    let Forest { nodes, parents, .. } = f;
    let t = Bvh2 { nodes, parents, root, refs: order, shape: Ghost(shape) };
    proof {
        assert forall|k: int| 0 <= k < n implies t.nodes@[#[trigger] t.shape@.leaf_of[k]].first
            == k by {
            assert(t.nodes@[k] == leaves@[k]);
        }
        crate::bvh2::lemma_inside_places_none(t.nodes@, t.shape@.leaf_of, n);
        assert(t.sizes_ok());
        assert forall|i: int| 0 <= i < t.len() && i != t.root implies #[trigger] t.child_ok(i) by {
            assert(parent_built(t.nodes@, t.parents@, n, i));
            let p = t.parents@[i] as int;
            assert(inner_built(t.nodes@, t.parents@, p));
        }
        assert forall|i: int| t.is_inner(i) implies #[trigger] t.inner_ok(i) by {
            if i < n {
                assert(t.nodes@[i] == leaves@[i]);
            }
            assert(inner_built(t.nodes@, t.parents@, i));
        }
        assert forall|i: int| t.is_inner(i) implies #[trigger] t.tight_at(i) by {
            if i < n {
                assert(t.nodes@[i] == leaves@[i]);
            }
            assert(inner_built(t.nodes@, t.parents@, i));
        }
        assert(t.linked(-1, -1));
        assert forall|i: int| 0 <= i < t.len() && (#[trigger] t.nodes@[i]).is_leaf() implies i < n
            && t.nodes@[i] == leaf_node(boxes[order@[i] as int], i) by {
            if i >= n {
                assert(inner_built(t.nodes@, t.parents@, i));
            } else {
                assert(t.nodes@[i] == leaves@[i]);
            }
        }
        assert forall|k: int| 0 <= k < n implies ({
            let l = #[trigger] t.shape@.leaf_of[k];
            &&& 0 <= l < t.len()
            &&& t.nodes@[l].is_leaf()
            &&& t.nodes@[l].first <= k < t.nodes@[l].first + t.nodes@[l].count
        }) by {
            assert(t.nodes@[k] == leaves@[k]);
        }
        assert(t.leaves_ok());
        assert(t.wf());
        assert forall|i: int|
            0 <= i < t.len() && (#[trigger] t.nodes@[i]).is_leaf() implies t.nodes@[i].aabb
            == range_hull(boxes, t.refs@, t.nodes@[i].first as int, t.nodes@[i].count as int) by {
            reveal_with_fuel(range_hull, 2);
        }
    }
    t
}

/// What clustering makes of the references `refs` with `bits` key bits
/// per axis: a whole tree with one leaf per reference, the leaves in the
/// order of the references' spatial keys and ahead of the internal nodes,
/// every box tight, and the box of the root the hull of all references.
pub open spec fn clustered(t: Bvh2, refs: Seq<PrimitiveReference>, bits: int) -> bool {
    let n = refs.len() as int;
    let scene = hull(boxes_of(refs));
    &&& t.wf()
    &&& t.bounds(boxes_of(refs))
    &&& t.refs@.len() == n
    &&& t.len() == 2 * n - 1
    &&& forall|k: int|
        0 <= k < n ==> #[trigger] t.nodes@[k] == leaf_node(refs[t.refs@[k] as int].aabb, k)
    &&& forall|c: int| n <= c < t.len() ==> !(#[trigger] t.nodes@[c]).is_leaf()
    &&& forall|j: int, k: int|
        0 <= j <= k < n ==> entry_le(
            entry_of(refs, scene, bits, #[trigger] t.refs@[j] as int),
            entry_of(refs, scene, bits, #[trigger] t.refs@[k] as int),
        )
    &&& t.nodes@[t.root as int].aabb == scene
}

impl SearchDistance {
    /// Clusters the references into a binary hierarchy. The search window
    /// of `self` is used in the first `search_depth_threshold` rounds, a
    /// window of one neighbour to each side after that.
    pub fn build(
        self,
        references: &Vec<PrimitiveReference>,
        sort_precision: u8,
        search_depth_threshold: u32,
    ) -> (r: Result<Bvh2, BuildError>)
        ensures
            match r {
                Ok(t) => spec_input_error(references@).is_none() && clustered(
                    t,
                    references@,
                    spec_axis_bits(sort_precision),
                ),
                Err(e) => spec_input_error(references@) == Some(e),
            },
    {
        let n: usize = references.len();
        if n == 0 {
            return Err(BuildError::NoPrimitives);
        }
        if n > MAX_REFERENCES {
            return Err(BuildError::TooManyPrimitives);
        }
        let scene = match scene_bounds(references) {
            Ok(scene) => scene,
            Err(index) => {
                return Err(BuildError::UnboundedGeometry { index });
            },
        };
        let bits: u8 = axis_bits(sort_precision);
        let entries = make_entries(references, &scene, bits);
        let ordered = sort_entries(&entries);
        let ghost boxes = boxes_of(references@);
        let ghost pos_of = Seq::new(
            n as nat,
            |r: int| choose|k: int| 0 <= k < ordered@.len() && ordered@[k] == entries@[r],
        );
        proof {
            assert forall|i: int| 0 <= i < entries@.len() implies (#[trigger] entries@[i]).id
                == i by {
                assert(entries@[i] == entry_of(references@, scene, bits as int, i));
            }
            lemma_sorted_ids(entries@, ordered@);
        }
        let (forest0, order) = init_forest(&ordered, references);
        proof {
            assert forall|r: int| 0 <= r < n implies 0 <= (#[trigger] pos_of[r]) < n
                && order@[pos_of[r]] == r by {
                assert(ordered@.contains(entries@[r]));
                let k = choose|k: int| 0 <= k < ordered@.len() && ordered@[k] == entries@[r];
                assert(order@[k] == ordered@[k].id);
            }
            assert forall|k: int| 0 <= k < n implies (#[trigger] order@[k]) < n
                && pos_of[order@[k] as int] == k by {
                let r = ordered@[k].id as int;
                assert(order@[k] == r);
                assert(ordered@[k] == entries@[r]);
                let k2 = pos_of[r];
                assert(ordered@[k2] == entries@[r]);
                if k2 != k {
                    assert(ordered@[k2].id != ordered@[k].id);
                }
            }
            assert forall|k: int| 0 <= k < n implies #[trigger] forest0.leaves@[k] == leaf_node(
                boxes[order@[k] as int],
                k,
            ) by {
                assert(order@[k] == ordered@[k].id);
            }
        }
        let ghost leaves0 = forest0.leaves@;
        let mut forest = forest0;
        let mut round: u32 = 0;
        let full: usize = self.window();
        while forest.active.len() > 1
            invariant
                forest.ok(),
                forest.leaves@ == leaves0,
                1 <= full <= 24,
            decreases forest.active@.len(),
        {
            forest = cluster_round(forest, full, round, search_depth_threshold);
            if round < u32::MAX {
                round = round + 1;
            }
        }
        let t = assemble(forest, order, Ghost(pos_of), Ghost(boxes));
        proof {
            let refs = references@;
            let b = spec_axis_bits(sort_precision);
            assert forall|k: int| 0 <= k < n implies #[trigger] t.nodes@[k] == leaf_node(
                refs[t.refs@[k] as int].aabb,
                k,
            ) by {
                assert(t.nodes@[k] == leaves0[k]);
            }
            assert forall|c: int| n <= c < t.len() implies !(#[trigger] t.nodes@[c]).is_leaf() by {
                assert(t.is_inner(c) || t.nodes@[c].is_leaf());
                if t.nodes@[c].is_leaf() {
                    let k = t.nodes@[c].first as int;
                    assert(t.shape@.leaf_of[k] == c);
                    let l = t.shape@.leaf_of[k];
                    assert(t.nodes@[k] == leaves0[k]);
                }
            }
            assert forall|j: int, k: int| 0 <= j <= k < n implies entry_le(
                entry_of(refs, scene, b, #[trigger] t.refs@[j] as int),
                entry_of(refs, scene, b, #[trigger] t.refs@[k] as int),
            ) by {
                assert(entry_le(ordered@[j], ordered@[k]));
                assert(ordered@[j] == entries@[ordered@[j].id as int]);
                assert(ordered@[k] == entries@[ordered@[k].id as int]);
                assert(t.refs@[j] == ordered@[j].id);
                assert(t.refs@[k] == ordered@[k].id);
            }
            lemma_hull_prefix(boxes, n as int);
            let rootbox = t.nodes@[t.root as int].aabb;
            assert forall|l: int|
                0 <= l < t.len() && (#[trigger] t.nodes@[l]).is_leaf() implies scene.contains(
                t.nodes@[l].aabb,
            ) by {
                assert(l < n);
                assert(t.nodes@[l] == leaf_node(refs[t.refs@[l] as int].aabb, l));
                assert(boxes[t.refs@[l] as int] == refs[t.refs@[l] as int].aabb);
            }
            crate::bvh2::lemma_node_within(t, scene, t.root as int);
            assert forall|i: int| 0 <= i < n implies rootbox.contains(#[trigger] boxes[i]) by {
                crate::bvh2::lemma_every_reference_covered(t, boxes, i);
            }
            assert(rootbox.contains(hull_prefix(boxes, n as int)));
        }
        Ok(t)
    }
}

/// A cluster has one best partner only: whoever picks for it picks the
/// same.
pub proof fn lemma_pick_unique(f: Forest, w: int, i: int, a: int, b: int)
    requires
        f.is_best(w, i, a),
        f.is_best(w, i, b),
    ensures
        a == b,
{
    let m = f.active@.len() as int;
    assert(in_window(m, w, i, a));
    assert(in_window(m, w, i, b));
    assert(f.pair_le(i, a, i, b));
    assert(f.pair_le(i, b, i, a));
}

} // verus!
