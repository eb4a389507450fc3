//! The build, from primitives to the compressed hierarchy.
use vstd::prelude::*;
use crate::aabb::{Aabb, Point};
use crate::bvh2::{Bvh2, leaves_capped};
use crate::compress::{bvh2_to_cwbvh, compressed, exactly_quantized, holds_reference, placed};
use crate::config::{BuildConfig, BuildError};
use crate::cwbvh::{CwBvh, SlotKind, WIDTH, lemma_leaf_cover_holds_reference};
use crate::ploc::{first_invalid, lemma_first_invalid, spec_input_error};
use crate::reinsertion::{ReinsertionOptimizer, lemma_bounds_kept};
use crate::primitive::{Boundable, PrimitiveReference, Triangle, boxes_of, lemma_triangle_bound};
use crate::splits::{housed, pieces_placed, split_aabbs_preset, split_of};
use crate::setup::{ReferenceSet, bounds_of, largest_area, references_of, total_area, unsplit};

verus! {

/// What a build over the references `refs` yields: a sound hierarchy
/// whose leaves hold at most `cap` references, in which every reference
/// stands once, every slot's box holds all boxes below it, and grids and
/// slot boxes are the tightest that the rounding allows. Of a single
/// reference it is one node with one leaf.
pub open spec fn built_over(cw: CwBvh, refs: Seq<PrimitiveReference>, cap: int) -> bool {
    &&& cw.wf()
    &&& cw.capped(cap)
    &&& cw.primitive_indices@.len() == refs.len()
    &&& cw.shape@.boxes.len() == refs.len()
    &&& cw.conservative(cw.shape@.boxes)
    &&& exactly_quantized(cw, cw.shape@.boxes)
    &&& forall|r: int| 0 <= r < refs.len() ==> #[trigger] placed(cw, refs, r)
    &&& forall|k: int| 0 <= k < refs.len() ==> #[trigger] holds_reference(cw, refs, k)
    &&& cw.node_hull(cw.shape@.boxes, 0, WIDTH as int) == crate::primitive::hull(boxes_of(refs))
    &&& refs.len() == 1 ==> cw.len() == 1 && cw.slot(0, 0).kind == SlotKind::Leaf && cw.slot(
        0,
        0,
    ).index == 0 && cw.slot(0, 0).count == 1 && forall|s: int|
        1 <= s < WIDTH ==> (#[trigger] cw.slot(0, s)).kind == SlotKind::Empty
}

/// The failure of a build with this configuration over these references.
pub open spec fn spec_build_error(config: BuildConfig, refs: Seq<PrimitiveReference>) -> Option<
    BuildError,
> {
    if config.spec_check().is_some() {
        config.spec_check()
    } else {
        spec_input_error(refs)
    }
}

/// Builds the compressed hierarchy over a list of references: clusters
/// them into a binary hierarchy, improves that by moving nodes, and
/// collapses it.
pub fn build_from_references(references: &Vec<PrimitiveReference>, config: &BuildConfig) -> (r:
    Result<CwBvh, BuildError>)
    ensures
        match r {
            Ok(cw) => spec_build_error(*config, references@).is_none() && built_over(
                cw,
                references@,
                config.max_prims_per_leaf as int,
            ),
            Err(e) => spec_build_error(*config, references@) == Some(e),
        },
{
    match config.check() {
        Some(e) => {
            return Err(e);
        },
        None => {},
    }
    let mut bvh2 = match config.ploc_search_distance.build(
        references,
        config.sort_precision,
        config.search_depth_threshold,
    ) {
        Ok(t) => t,
        Err(e) => {
            return Err(e);
        },
    };
    let ghost clustered_tree = bvh2;
    ReinsertionOptimizer::run(&mut bvh2, config.reinsertion_batch_ratio, None);
    proof {
        lemma_bounds_kept(clustered_tree, bvh2, boxes_of(references@));
        lemma_first_invalid(references@, 0);
    }
    let cw = bvh2_to_cwbvh(&bvh2, references, config.max_prims_per_leaf);
    proof {
        lemma_built_over(cw, bvh2, references@, config.max_prims_per_leaf as int);
    }
    Ok(cw)
}

/// The compression of the clustering of `refs` is a build over `refs`.
pub proof fn lemma_built_over(cw: CwBvh, t: Bvh2, refs: Seq<PrimitiveReference>, cap: int)
    requires
        t.wf(),
        t.bounds(boxes_of(refs)),
        t.refs@.len() == refs.len(),
        t.nodes@[t.root as int].aabb == crate::primitive::hull(boxes_of(refs)),
        refs.len() == 1 ==> t.len() == 1,
        cap >= 1,
        compressed(cw, t, refs, cap),
    ensures
        built_over(cw, refs, cap),
{
    if refs.len() == 1 {
        assert(t.root == 0);
        let leaf = t.nodes@[0];
        if !leaf.is_leaf() {
            assert(t.is_inner(0));
            assert(t.inner_ok(0));
        }
        assert(leaf.is_leaf());
        assert(t.leaves_ok());
        assert(t.shape@.leaf_of[0] == 0);
        assert(leaf.first == 0 && leaf.count == 1);
        assert(leaves_capped(t, cap));
        let (i, s) = cw.shape@.owner[leaf.first as int];
        assert(cw.slot(i, s).index == leaf.first);
        assert(cw.shape@.owner[0] == (i, s));
        assert(cw.is_slot(i, s));
        assert(cw.slot(i, s).kind == SlotKind::Leaf);
        if s != 0 {
            assert(cw.slot(0, s).kind == SlotKind::Empty);
        }
    }
}

/// What a build over primitives with the bounds `bounds` yields: a sound
/// hierarchy whose leaves hold at most `cap` references, in which every
/// slot's box holds all boxes below it, every reference lies within the
/// bound of its primitive, and every primitive stands in a leaf, the
/// union of the boxes of its leaves holding its bound.
pub open spec fn built(cw: CwBvh, bounds: Seq<Aabb>, cap: int) -> bool {
    &&& cw.wf()
    &&& cw.capped(cap)
    &&& cw.conservative(cw.shape@.boxes)
    &&& forall|k: int|
        0 <= k < cw.primitive_indices@.len() ==> (#[trigger] cw.primitive_indices@[k])
            < bounds.len() && bounds[cw.primitive_indices@[k] as int].contains(cw.shape@.boxes[k])
    &&& forall|i: int| 0 <= i < bounds.len() ==> #[trigger] cw.covers(i, bounds[i])
}

/// Build a compressed hierarchy from a list of items that have bounds.
/// `pre_split` of the configuration has no effect here.
pub fn build_cwbvh<T: Boundable>(primitives: &[T], config: &BuildConfig) -> (r: Result<
    CwBvh,
    BuildError,
>)
    ensures
        match r {
            Ok(cw) => {
                let bounds = bounds_of(primitives@);
                &&& spec_build_error(*config, unsplit(bounds)).is_none()
                &&& built(cw, bounds, config.max_prims_per_leaf as int)
                &&& built_over(cw, unsplit(bounds), config.max_prims_per_leaf as int)
            },
            Err(e) => spec_build_error(*config, unsplit(bounds_of(primitives@))) == Some(e),
        },
{
    match config.check() {
        Some(e) => {
            return Err(e);
        },
        None => {},
    }
    let set = match references_of(primitives) {
        Ok(set) => set,
        Err(e) => {
            return Err(e);
        },
    };
    match build_from_references(&set.references, config) {
        Ok(cw) => {
            proof {
                lemma_built_unsplit(cw, bounds_of(primitives@), config.max_prims_per_leaf as int);
            }
            Ok(cw)
        },
        Err(e) => Err(e),
    }
}

/// A build over one reference per primitive is a build over the
/// primitives.
pub proof fn lemma_built_unsplit(cw: CwBvh, bounds: Seq<Aabb>, cap: int)
    requires
        bounds.len() <= crate::config::MAX_REFERENCES,
        built_over(cw, unsplit(bounds), cap),
    ensures
        built(cw, bounds, cap),
{
    let refs = unsplit(bounds);
    let n = bounds.len() as int;
    assert forall|i: int| 0 <= i < n implies #[trigger] cw.covers(i, bounds[i]) by {
        assert(placed(cw, refs, i));
        let k = choose|k: int|
            0 <= k < cw.primitive_indices@.len() && #[trigger] cw.primitive_indices@[k]
                == refs[i].index && cw.shape@.boxes[k] == refs[i].aabb;
        lemma_leaf_cover_holds_reference(cw, i, k);
    }
    assert forall|k: int| 0 <= k < cw.primitive_indices@.len() implies (
    #[trigger] cw.primitive_indices@[k]) < bounds.len() && bounds[cw.primitive_indices@[k] as int].contains(
        cw.shape@.boxes[k],
    ) by {
        assert(holds_reference(cw, refs, k));
    }
}

/// A build over the references that splitting makes of the triangles is
/// a build over the triangles.
pub proof fn lemma_built_split(
    cw: CwBvh,
    tris: Seq<Triangle>,
    refs: Seq<PrimitiveReference>,
    average: int,
    largest: int,
    cap: int,
)
    requires
        tris.len() <= crate::config::MAX_REFERENCES,
        forall|i: int| 0 <= i < tris.len() ==> (#[trigger] tris[i]).in_range(),
        split_of(refs, tris, average, largest),
        built_over(cw, refs, cap),
    ensures
        built(cw, bounds_of(tris), cap),
{
    let bounds = bounds_of(tris);
    let n = tris.len() as int;
    let len = cw.primitive_indices@.len() as int;
    assert forall|k: int| 0 <= k < len implies (#[trigger] cw.primitive_indices@[k]) < bounds.len()
        && bounds[cw.primitive_indices@[k] as int].contains(cw.shape@.boxes[k]) by {
        assert(holds_reference(cw, refs, k));
    }
    assert forall|i: int| 0 <= i < n implies #[trigger] cw.covers(i, bounds[i]) by {
        assert(pieces_placed(refs, tris, average, largest, i));
        assert(placed(cw, refs, i));
        let t = tris[i];
        lemma_triangle_bound(t);
        lemma_cover_holds_corner(cw, refs, i, t.v0);
        lemma_cover_holds_corner(cw, refs, i, t.v1);
        lemma_cover_holds_corner(cw, refs, i, t.v2);
    }
}

/// The cover of a primitive holds every point that one of the
/// primitive's references holds.
pub proof fn lemma_cover_holds_corner(cw: CwBvh, refs: Seq<PrimitiveReference>, i: int, v: Point)
    requires
        cw.wf(),
        cw.conservative(cw.shape@.boxes),
        forall|r: int| 0 <= r < refs.len() ==> #[trigger] placed(cw, refs, r),
        housed(refs, i, v),
    ensures
        cw.leaf_cover(i, cw.primitive_indices@.len() as int).contains_point(v),
{
    let m = choose|m: int|
        0 <= m < refs.len() && (#[trigger] refs[m]).index == i && refs[m].aabb.contains_point(v);
    assert(placed(cw, refs, m));
    let k = choose|k: int|
        0 <= k < cw.primitive_indices@.len() && #[trigger] cw.primitive_indices@[k]
            == refs[m].index && cw.shape@.boxes[k] == refs[m].aabb;
    lemma_leaf_cover_holds_reference(cw, i, k);
}

/// The average, rounded down, of the half-areas of the boxes.
pub open spec fn average_area(bounds: Seq<Aabb>) -> int {
    total_area(bounds, bounds.len() as int) / (bounds.len() as int)
}

/// What a build over the triangles yields. Without splitting it is a
/// build over one reference per triangle; with splitting, over the
/// references that splitting makes of them.
pub open spec fn built_from_tris(cw: CwBvh, tris: Seq<Triangle>, config: BuildConfig) -> bool {
    let bounds = bounds_of(tris);
    let cap = config.max_prims_per_leaf as int;
    &&& built(cw, bounds, cap)
    &&& !config.pre_split ==> built_over(cw, unsplit(bounds), cap)
    &&& config.pre_split ==> exists|refs: Seq<PrimitiveReference>|
        #![trigger built_over(cw, refs, cap)]
        split_of(refs, tris, average_area(bounds), largest_area(bounds, bounds.len() as int))
            && built_over(cw, refs, cap)
}

/// The part of a build from triangles that follows the derivation of the
/// bounds: splitting, if the configuration asks for it, clustering,
/// optimisation and collapse. `set` is what `references_of` has made of
/// the triangles.
pub fn build_prepared_tris(triangles: &[Triangle], set: ReferenceSet, config: &BuildConfig) -> (r:
    Result<CwBvh, BuildError>)
    requires
        spec_input_error(unsplit(bounds_of(triangles@))).is_none(),
        set.references@ == unsplit(bounds_of(triangles@)),
        set.largest_half_area == largest_area(
            bounds_of(triangles@),
            bounds_of(triangles@).len() as int,
        ),
        set.average_half_area == average_area(bounds_of(triangles@)),
    ensures
        match r {
            Ok(cw) => spec_build_error(*config, unsplit(bounds_of(triangles@))).is_none()
                && built_from_tris(cw, triangles@, *config),
            Err(e) => spec_build_error(*config, unsplit(bounds_of(triangles@))) == Some(e),
        },
{
    match config.check() {
        Some(e) => {
            return Err(e);
        },
        None => {},
    }
    let ghost tris = triangles@;
    let ghost bounds = bounds_of(tris);
    let ghost cap = config.max_prims_per_leaf as int;
    let ReferenceSet { references, largest_half_area, average_half_area } = set;
    let mut references = references;
    proof {
        lemma_first_invalid(unsplit(bounds), 0);
        assert forall|i: int| 0 <= i < tris.len() implies (#[trigger] tris[i]).in_range() by {
            assert(unsplit(bounds)[i].aabb.valid());
            lemma_triangle_bound(tris[i]);
        }
    }
    if config.pre_split {
        split_aabbs_preset(&mut references, triangles, average_half_area, largest_half_area);
        proof {
            lemma_split_is_input(references@, tris, average_half_area as int, largest_half_area as int);
        }
        match build_from_references(&references, config) {
            Ok(cw) => {
                proof {
                    lemma_built_split(
                        cw,
                        tris,
                        references@,
                        average_half_area as int,
                        largest_half_area as int,
                        cap,
                    );
                    assert(built_over(cw, references@, cap));
                }
                Ok(cw)
            },
            Err(e) => Err(e),
        }
    } else {
        match build_from_references(&references, config) {
            Ok(cw) => {
                proof {
                    lemma_built_unsplit(cw, bounds, cap);
                }
                Ok(cw)
            },
            Err(e) => Err(e),
        }
    }
}

/// The references that splitting makes are fit for a build.
pub proof fn lemma_split_is_input(
    refs: Seq<PrimitiveReference>,
    tris: Seq<Triangle>,
    average: int,
    largest: int,
)
    requires
        1 <= tris.len() <= crate::config::MAX_REFERENCES,
        split_of(refs, tris, average, largest),
    ensures
        spec_input_error(refs).is_none(),
{
    lemma_all_valid_is_input(refs, 0);
}

/// Where every box from `k` on is valid, none is the first that is not.
pub proof fn lemma_all_valid_is_input(refs: Seq<PrimitiveReference>, k: int)
    requires
        0 <= k <= refs.len(),
        forall|m: int| 0 <= m < refs.len() ==> (#[trigger] refs[m]).aabb.valid(),
    ensures
        first_invalid(refs, k) == refs.len(),
    decreases refs.len() - k,
{
    if k < refs.len() {
        lemma_all_valid_is_input(refs, k + 1);
    }
}

/// Build a compressed hierarchy from the given list of triangles.
pub fn build_cwbvh_from_tris(triangles: &[Triangle], config: &BuildConfig) -> (r: Result<
    CwBvh,
    BuildError,
>)
    ensures
        match r {
            Ok(cw) => spec_build_error(*config, unsplit(bounds_of(triangles@))).is_none()
                && built_from_tris(cw, triangles@, *config),
            Err(e) => spec_build_error(*config, unsplit(bounds_of(triangles@))) == Some(e),
        },
{
    match config.check() {
        Some(e) => {
            return Err(e);
        },
        None => {},
    }
    let set = match references_of(triangles) {
        Ok(set) => set,
        Err(e) => {
            return Err(e);
        },
    };
    build_prepared_tris(triangles, set, config)
}

} // verus!
