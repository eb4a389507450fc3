use cwbvh_builder::aabb::{Aabb, Point, COORD_LIMIT};
use cwbvh_builder::builder::{build_cwbvh, build_cwbvh_from_tris};
use cwbvh_builder::bvh2::{Bvh2Node, NO_NODE};
use cwbvh_builder::config::{
    axis_bits, round_window, BuildConfig, BuildError, SahWeights, SearchDistance, MAX_REFERENCES,
};
use cwbvh_builder::keys::{cell_of, cells, interleave, spatial_key};
use cwbvh_builder::ploc::{
    cluster_round, find_best, find_neighbors, init_forest, make_entries, merge_round,
    scene_bounds,
};
use cwbvh_builder::primitive::{Boundable, PrimitiveReference, Triangle};
use cwbvh_builder::setup::references_of;
use cwbvh_builder::sort::{merge, precedes, sort_entries, sort_range, SortEntry};

fn p(x: i32, y: i32, z: i32) -> Point {
    Point::new(x, y, z)
}

fn bx(a: (i32, i32, i32), b: (i32, i32, i32)) -> Aabb {
    Aabb::new(p(a.0, a.1, a.2), p(b.0, b.1, b.2))
}

fn refs_of(boxes: &[Aabb]) -> Vec<PrimitiveReference> {
    boxes.iter().enumerate().map(|(i, b)| PrimitiveReference { aabb: *b, index: i as u32 }).collect()
}

#[test]
fn half_area_is_half_the_surface() {
    assert_eq!(bx((0, 0, 0), (1, 1, 1)).half_area(), 3);
    assert_eq!(bx((0, 0, 0), (2, 3, 4)).half_area(), 2 * 3 + 3 * 4 + 4 * 2);
    assert_eq!(bx((-1, -2, -3), (1, 2, 3)).half_area(), 2 * 4 + 4 * 6 + 6 * 2);
    assert_eq!(bx((5, 5, 5), (5, 5, 5)).half_area(), 0);
    assert_eq!(bx((0, 0, 0), (7, 0, 0)).half_area(), 0);
    assert_eq!(Aabb::empty().half_area(), 0);
    let whole = bx((-COORD_LIMIT, -COORD_LIMIT, -COORD_LIMIT), (COORD_LIMIT, COORD_LIMIT, COORD_LIMIT));
    assert_eq!(whole.half_area(), 3 * (1u64 << 62));
}

#[test]
fn empty_box_absorbs() {
    let e = Aabb::empty();
    assert!(!e.is_valid());
    assert_eq!(e.extend(p(3, -4, 5)), bx((3, -4, 5), (3, -4, 5)));
    let b = bx((0, 0, 0), (2, 2, 2));
    assert_eq!(e.union(b), b);
    assert_eq!(b.union(e), b);
    assert_eq!(b.extend(p(5, -1, 1)), bx((0, -1, 0), (5, 2, 2)));
    assert_eq!(b.union(bx((1, 1, 1), (9, 1, 1))), bx((0, 0, 0), (9, 2, 2)));
}

#[test]
fn validity_and_containment() {
    assert!(bx((0, 0, 0), (0, 0, 0)).is_valid());
    assert!(!bx((1, 0, 0), (0, 0, 0)).is_valid());
    assert!(bx((-COORD_LIMIT, 0, 0), (COORD_LIMIT, 0, 0)).is_valid());
    assert!(!bx((0, 0, 0), (COORD_LIMIT + 1, 0, 0)).is_valid());
    assert!(!bx((0, -COORD_LIMIT - 1, 0), (0, 0, 0)).is_valid());
    assert!(p(0, COORD_LIMIT, -COORD_LIMIT).is_in_range());
    assert!(!p(0, 0, COORD_LIMIT + 1).is_in_range());
    let outer = bx((0, 0, 0), (10, 10, 10));
    assert!(outer.encloses(&bx((0, 0, 0), (10, 10, 10))));
    assert!(outer.encloses(&bx((1, 2, 3), (4, 5, 6))));
    assert!(!outer.encloses(&bx((-1, 2, 3), (4, 5, 6))));
    assert!(!outer.encloses(&bx((1, 2, 3), (4, 5, 11))));
    assert_eq!(p(1, 2, 3).get(0), 1);
    assert_eq!(p(1, 2, 3).get(1), 2);
    assert_eq!(p(1, 2, 3).get(2), 3);
    assert_eq!(p(1, 5, 3).min(p(2, 4, 3)), p(1, 4, 3));
    assert_eq!(p(1, 5, 3).max(p(2, 4, 3)), p(2, 5, 3));
}

#[test]
fn triangle_bound_holds_the_corners() {
    let t = Triangle::new(p(3, 0, -1), p(0, 4, 0), p(1, 1, 7));
    assert_eq!(t.aabb(), bx((0, 0, -1), (3, 4, 7)));
    let b = bx((1, 2, 3), (4, 5, 6));
    assert_eq!(b.aabb(), b);
}

#[test]
fn configuration_checks() {
    let c = BuildConfig::standard();
    assert_eq!(c.check(), None);
    assert_eq!(c.max_prims_per_leaf, 3);
    assert_eq!(c.reinsertion_batch_ratio, 500);
    let mut bad = c;
    bad.reinsertion_batch_ratio = 0;
    assert_eq!(bad.check(), Some(BuildError::ZeroBatchRatio));
    bad.max_prims_per_leaf = 0;
    assert_eq!(bad.check(), Some(BuildError::ZeroBatchRatio));
    bad.reinsertion_batch_ratio = 1;
    assert_eq!(bad.check(), Some(BuildError::ZeroLeafCapacity));
    assert_eq!(SahWeights::balanced(), SahWeights { traversal: 1, intersection: 1 });
    assert_eq!(SearchDistance::VeryLow.window(), 2);
    assert_eq!(SearchDistance::Low.window(), 6);
    assert_eq!(SearchDistance::Medium.window(), 14);
    assert_eq!(SearchDistance::High.window(), 24);
    assert_eq!(axis_bits(0), 1);
    assert_eq!(axis_bits(2), 1);
    assert_eq!(axis_bits(3), 1);
    assert_eq!(axis_bits(30), 10);
    assert_eq!(axis_bits(63), 21);
    assert_eq!(axis_bits(64), 21);
    assert_eq!(axis_bits(255), 21);
    assert_eq!(round_window(14, 0, 2), 14);
    assert_eq!(round_window(14, 1, 2), 14);
    assert_eq!(round_window(14, 2, 2), 1);
    assert_eq!(round_window(14, 0, 0), 1);
}

#[test]
fn keys_interleave_the_cells() {
    assert_eq!(interleave(0, 0, 0, 21), 0);
    assert_eq!(interleave(1, 0, 0, 1), 1);
    assert_eq!(interleave(0, 1, 0, 1), 2);
    assert_eq!(interleave(0, 0, 1, 1), 4);
    assert_eq!(interleave(0b11, 0b01, 0b10, 2), 0b101_011);
    assert_eq!(interleave(0b111, 0, 0, 2), 0b001_001);
    assert_eq!(interleave(u32::MAX, u32::MAX, u32::MAX, 21), (1u64 << 63) - 1);
    assert_eq!(cells(0), 1);
    assert_eq!(cells(10), 1024);
    assert_eq!(cells(21), 2_097_152);
    // centre of [2, 4] is 3, a quarter of the way along [0, 12]: cell 3 * 2 * 15 / 24 = 3 of 16
    assert_eq!(cell_of(2, 4, 0, 12, 16), 3);
    assert_eq!(cell_of(0, 0, 0, 12, 16), 0);
    assert_eq!(cell_of(12, 12, 0, 12, 16), 15);
    assert_eq!(cell_of(5, 5, 5, 5, 16), 0);
    assert_eq!(cell_of(-50, -40, 0, 12, 16), 0);
    assert_eq!(cell_of(40, 50, 0, 12, 16), 15);
    let scene = bx((0, 0, 0), (30, 30, 30));
    assert_eq!(spatial_key(&bx((30, 0, 0), (30, 0, 0)), &scene, 1), 1);
    assert_eq!(spatial_key(&bx((0, 30, 30), (0, 30, 30)), &scene, 1), 6);
    assert_eq!(spatial_key(&bx((30, 30, 30), (30, 30, 30)), &scene, 2), 63);
    assert_eq!(spatial_key(&bx((10, 0, 20), (10, 0, 20)), &scene, 2), 0b100_001);
}

#[test]
fn sorting_orders_by_key_then_id() {
    let e = |key: u64, id: u32| SortEntry { key, id };
    assert!(precedes(&e(1, 9), &e(2, 0)));
    assert!(precedes(&e(2, 0), &e(2, 0)));
    assert!(precedes(&e(2, 0), &e(2, 1)));
    assert!(!precedes(&e(2, 1), &e(2, 0)));
    assert!(!precedes(&e(3, 0), &e(2, 1)));
    let v = vec![e(5, 0), e(1, 1), e(5, 2), e(0, 3), e(1, 4), e(9, 5), e(5, 6)];
    assert_eq!(
        sort_entries(&v),
        vec![e(0, 3), e(1, 1), e(1, 4), e(5, 0), e(5, 2), e(5, 6), e(9, 5)]
    );
    assert_eq!(sort_range(&v, 1, 4), vec![e(0, 3), e(1, 1), e(5, 2)]);
    assert_eq!(sort_range(&v, 2, 2), vec![]);
    assert_eq!(sort_entries(&Vec::new()), vec![]);
    assert_eq!(
        merge(&vec![e(1, 1), e(4, 0)], &vec![e(0, 7), e(1, 0), e(9, 9)]),
        vec![e(0, 7), e(1, 0), e(1, 1), e(4, 0), e(9, 9)]
    );
}

#[test]
fn setup_derives_bounds_and_figures() {
    let boxes = vec![bx((0, 0, 0), (1, 1, 1)), bx((0, 0, 0), (2, 2, 2)), bx((5, 5, 5), (5, 5, 5))];
    let set = references_of(&boxes[..]).unwrap();
    assert_eq!(set.references, refs_of(&boxes));
    assert_eq!(set.largest_half_area, 12);
    assert_eq!(set.average_half_area, 5);
    let none: Vec<Aabb> = Vec::new();
    assert_eq!(references_of(&none[..]).err(), Some(BuildError::NoPrimitives));
    let bad = vec![boxes[0], bx((1, 0, 0), (0, 0, 0)), Aabb::empty()];
    assert_eq!(references_of(&bad[..]).err(), Some(BuildError::UnboundedGeometry { index: 1 }));
    assert!(MAX_REFERENCES == 1 << 30);
}

#[test]
fn scene_and_entries() {
    let boxes = vec![bx((0, 0, 0), (2, 2, 2)), bx((10, 0, 0), (12, 2, 2)), bx((4, 8, 0), (6, 10, 2))];
    let refs = refs_of(&boxes);
    let scene = scene_bounds(&refs).unwrap();
    assert_eq!(scene, bx((0, 0, 0), (12, 10, 2)));
    let entries = make_entries(&refs, &scene, 2);
    assert_eq!(entries.len(), 3);
    for (i, e) in entries.iter().enumerate() {
        assert_eq!(e.id, i as u32);
        assert_eq!(e.key, spatial_key(&boxes[i], &scene, 2));
    }
    let mut bad = refs.clone();
    bad[1].aabb = Aabb::empty();
    assert_eq!(scene_bounds(&bad), Err(1));
}

#[test]
fn clusters_pick_their_cheapest_neighbour() {
    // along x: two close pairs and a loner
    let boxes = vec![
        bx((0, 0, 0), (1, 1, 1)),
        bx((2, 0, 0), (3, 1, 1)),
        bx((20, 0, 0), (21, 1, 1)),
        bx((40, 0, 0), (41, 1, 1)),
        bx((42, 0, 0), (43, 1, 1)),
    ];
    let refs = refs_of(&boxes);
    let entries: Vec<SortEntry> = (0..5).map(|i| SortEntry { key: i as u64, id: i }).collect();
    let (forest, order) = init_forest(&entries, &refs);
    assert_eq!(order, vec![0, 1, 2, 3, 4]);
    assert_eq!(forest.active, vec![0, 1, 2, 3, 4]);
    assert_eq!(forest.nodes.len(), 5);
    assert_eq!(
        forest.nodes[3],
        Bvh2Node { aabb: boxes[3], left: 0, right: 0, first: 3, count: 1 }
    );
    let picks = find_neighbors(&forest, 2);
    assert_eq!(picks, vec![1, 0, 1, 4, 3]);
    // with a window of one the loner sees its two neighbours only
    assert_eq!(find_best(&forest, 1, 2), 1);
    assert_eq!(find_best(&forest, 1, 0), 1);
    let merged = merge_round(forest, &picks);
    assert_eq!(merged.active, vec![5, 2, 6]);
    assert_eq!(merged.nodes.len(), 7);
    assert_eq!(merged.nodes[5].aabb, bx((0, 0, 0), (3, 1, 1)));
    assert_eq!((merged.nodes[5].left, merged.nodes[5].right), (0, 1));
    assert_eq!(merged.nodes[6].aabb, bx((40, 0, 0), (43, 1, 1)));
    assert_eq!(merged.parents, vec![5, 5, NO_NODE, 6, 6, NO_NODE, NO_NODE]);
}

#[test]
fn equal_costs_go_to_the_earlier_pair() {
    // evenly spaced: every pair of neighbours costs the same
    let boxes: Vec<Aabb> = (0..4).map(|i| bx((i * 10, 0, 0), (i * 10 + 1, 1, 1))).collect();
    let refs = refs_of(&boxes);
    let entries: Vec<SortEntry> = (0..4).map(|i| SortEntry { key: i as u64, id: i }).collect();
    let (forest, _) = init_forest(&entries, &refs);
    assert_eq!(find_neighbors(&forest, 2), vec![1, 0, 1, 2]);
}

#[test]
fn tree_accessors_and_cost() {
    let boxes = vec![bx((0, 0, 0), (1, 1, 1)), bx((10, 0, 0), (11, 1, 1))];
    let refs = refs_of(&boxes);
    let t = SearchDistance::Low.build(&refs, 63, 1).unwrap();
    assert_eq!(t.node_count(), 3);
    assert_eq!(t.reference_count(), 2);
    assert_eq!(t.root_index(), 2);
    assert_eq!(t.parent(0), 2);
    assert_eq!(t.parent(2), NO_NODE);
    assert_eq!(t.reference(0), 0);
    assert_eq!(t.reference(1), 1);
    assert!(t.node(0).leaf());
    assert!(!t.node(2).leaf());
    // leaves: half-area 3 each; root: 11 * 1 + 1 * 1 + 1 * 11 = 23
    assert_eq!(t.sah_cost(SahWeights::balanced()), Some(3 + 3 + 23));
    assert_eq!(t.sah_cost(SahWeights { traversal: 2, intersection: 5 }), Some(5 * 6 + 2 * 23));
    assert_eq!(t.sah_cost(SahWeights { traversal: 0, intersection: 0 }), Some(0));
}

#[test]
fn too_many_and_too_few_references() {
    let none: Vec<PrimitiveReference> = Vec::new();
    assert_eq!(SearchDistance::Low.build(&none, 63, 1).err(), Some(BuildError::NoPrimitives));
    let mut refs = refs_of(&[bx((0, 0, 0), (1, 1, 1)), bx((0, 0, 0), (1, 1, 1))]);
    refs[0].aabb = bx((0, 0, 0), (COORD_LIMIT + 1, 0, 0));
    assert_eq!(
        SearchDistance::Low.build(&refs, 63, 1).err(),
        Some(BuildError::UnboundedGeometry { index: 0 })
    );
}

#[test]
fn the_same_input_gives_the_same_hierarchy() {
    let mut state = 99u64;
    let mut next = move |m: i32| -> i32 {
        state = state.wrapping_mul(6364136223846793005).wrapping_add(1442695040888963407);
        ((state >> 33) % (m as u64)) as i32
    };
    let tris: Vec<Triangle> = (0..300)
        .map(|_| {
            let (x, y, z) = (next(2000), next(2000), next(2000));
            Triangle::new(
                p(x, y, z),
                p(x + next(60), y + next(60), z + next(60)),
                p(x + next(900), y + next(60), z + next(60)),
            )
        })
        .collect();
    for pre_split in [false, true] {
        let mut config = BuildConfig::standard();
        config.pre_split = pre_split;
        let a = build_cwbvh_from_tris(&tris[..], &config).unwrap();
        let b = build_cwbvh_from_tris(&tris[..], &config).unwrap();
        assert_eq!(a.node_count(), b.node_count());
        assert_eq!(a.nodes, b.nodes);
        assert_eq!(a.primitive_indices, b.primitive_indices);
        assert_eq!(a.node(0), b.node(0));
    }
    let boxes: Vec<Aabb> = tris.iter().map(|t| t.aabb()).collect();
    let a = build_cwbvh(&boxes[..], &BuildConfig::standard()).unwrap();
    let b = build_cwbvh(&boxes[..], &BuildConfig::standard()).unwrap();
    assert_eq!(a.nodes, b.nodes);
    assert_eq!(a.primitive_indices, b.primitive_indices);
}

#[test]
fn later_rounds_look_one_place_to_each_side() {
    // the cluster at place 0 is closest to the one at place 2
    let boxes = vec![
        bx((0, 0, 0), (1, 1, 1)),
        bx((0, 50, 0), (1, 51, 1)),
        bx((2, 0, 0), (3, 1, 1)),
        bx((0, 100, 0), (1, 101, 1)),
    ];
    let refs = refs_of(&boxes);
    let entries: Vec<SortEntry> = (0..4).map(|i| SortEntry { key: i as u64, id: i }).collect();
    let (forest, _) = init_forest(&entries, &refs);
    // round 0 of a build with one full round: the window is 2
    let wide = cluster_round(forest, 2, 0, 1);
    assert_eq!((wide.nodes[4].left, wide.nodes[4].right), (0, 2));
    assert_eq!(wide.active, vec![4, 1, 3]);
    let (forest, _) = init_forest(&entries, &refs);
    // round 1 of the same build: the window is 1
    let narrow = cluster_round(forest, 2, 1, 1);
    assert_eq!((narrow.nodes[4].left, narrow.nodes[4].right), (0, 1));
    assert_eq!(narrow.active, vec![4, 2, 3]);
}
