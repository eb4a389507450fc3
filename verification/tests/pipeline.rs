use cwbvh_builder::aabb::{Aabb, Point};
use cwbvh_builder::builder::{build_cwbvh, build_from_references};
use cwbvh_builder::config::{BuildConfig, BuildError, SearchDistance};
use cwbvh_builder::compress::collapse;
use cwbvh_builder::cwbvh::{CwBvh, SlotKind};
use cwbvh_builder::primitive::PrimitiveReference;

fn cube(x: i32, y: i32, z: i32, side: i32) -> Aabb {
    Aabb::new(Point::new(x, y, z), Point::new(x + side, y + side, z + side))
}

fn config(cap: u32) -> BuildConfig {
    BuildConfig {
        pre_split: false,
        ploc_search_distance: SearchDistance::Medium,
        sort_precision: 63,
        search_depth_threshold: 2,
        reinsertion_batch_ratio: 500,
        max_prims_per_leaf: cap,
    }
}

fn used_slots(cw: &CwBvh, node: usize) -> Vec<usize> {
    let mut out = Vec::new();
    for s in 0..8 {
        if cw.nodes[node].slots[s].kind != SlotKind::Empty {
            out.push(s);
        }
    }
    out
}

#[test]
fn two_cubes_make_one_wide_node_with_two_leaves() {
    let boxes = vec![cube(0, 0, 0, 1), cube(10, 0, 0, 1)];
    let refs: Vec<PrimitiveReference> = boxes
        .iter()
        .enumerate()
        .map(|(i, b)| PrimitiveReference { aabb: *b, index: i as u32 })
        .collect();
    let tree = SearchDistance::Medium.build(&refs, 63, 2).unwrap();
    assert_eq!(tree.nodes.len(), 3);
    let root = tree.nodes[tree.root as usize];
    assert_eq!(root.count, 0);
    assert_eq!(root.aabb, Aabb::new(Point::new(0, 0, 0), Point::new(11, 1, 1)));
    assert!(tree.nodes[root.left as usize].count == 1);
    assert!(tree.nodes[root.right as usize].count == 1);

    let cw = build_cwbvh(&boxes[..], &config(1)).unwrap();
    assert_eq!(cw.nodes.len(), 1);
    let used = used_slots(&cw, 0);
    assert_eq!(used.len(), 2);
    assert_eq!(used, vec![0, 4]);
    for s in used {
        assert_eq!(cw.nodes[0].slots[s].kind, SlotKind::Leaf);
        assert_eq!(cw.nodes[0].slots[s].count, 1);
    }
    let mut prims = cw.primitive_indices.clone();
    prims.sort();
    assert_eq!(prims, vec![0, 1]);
}

#[test]
fn one_primitive_makes_one_leaf_with_its_bound() {
    let boxes = vec![cube(3, -4, 5, 7)];
    let cw = build_cwbvh(&boxes[..], &config(3)).unwrap();
    assert_eq!(cw.nodes.len(), 1);
    assert_eq!(used_slots(&cw, 0), vec![0]);
    let node = cw.nodes[0];
    assert_eq!(node.origin, Point::new(3, -4, 5));
    assert_eq!((node.ex, node.ey, node.ez), (0, 0, 0));
    assert_eq!(node.slots[0].kind, SlotKind::Leaf);
    assert_eq!((node.slots[0].index, node.slots[0].count), (0, 1));
    assert_eq!(node.decompress(0), boxes[0]);
    assert_eq!(cw.primitive_indices, vec![0]);
}

#[test]
fn no_primitives_is_an_error() {
    let boxes: Vec<Aabb> = Vec::new();
    assert_eq!(build_cwbvh(&boxes[..], &config(1)).err(), Some(BuildError::NoPrimitives));
    let refs: Vec<PrimitiveReference> = Vec::new();
    assert_eq!(build_from_references(&refs, &config(1)).err(), Some(BuildError::NoPrimitives));
}

#[test]
fn bad_configuration_is_an_error() {
    let boxes = vec![cube(0, 0, 0, 1)];
    let mut c = config(0);
    assert_eq!(build_cwbvh(&boxes[..], &c).err(), Some(BuildError::ZeroLeafCapacity));
    c.reinsertion_batch_ratio = 0;
    assert_eq!(build_cwbvh(&boxes[..], &c).err(), Some(BuildError::ZeroBatchRatio));
}

#[test]
fn unbounded_geometry_is_an_error() {
    let boxes = vec![cube(0, 0, 0, 1), Aabb::empty(), cube(i32::MAX - 1, 0, 0, 1)];
    assert_eq!(
        build_cwbvh(&boxes[..], &config(1)).err(),
        Some(BuildError::UnboundedGeometry { index: 1 })
    );
}

#[test]
fn coincident_flat_boxes_build() {
    let boxes = vec![cube(5, 5, 5, 0); 100];
    let cw = build_cwbvh(&boxes[..], &config(1)).unwrap();
    let mut prims = cw.primitive_indices.clone();
    prims.sort();
    assert_eq!(prims, (0..100).collect::<Vec<u32>>());
}

#[test]
fn slots_follow_the_paths_of_up_to_three_levels() {
    // sixteen cubes in a row, clustered pairwise: a full binary tree of depth 4
    let boxes: Vec<Aabb> = (0..16).map(|i| cube(i * 4 + (i / 2) * 8 + (i / 4) * 64 + (i / 8) * 512, 0, 0, 1)).collect();
    let refs: Vec<PrimitiveReference> = boxes
        .iter()
        .enumerate()
        .map(|(i, b)| PrimitiveReference { aabb: *b, index: i as u32 })
        .collect();
    let tree = SearchDistance::Low.build(&refs, 63, 8).unwrap();
    assert_eq!(tree.nodes.len(), 31);
    let cw = collapse(&tree, &refs, 1);
    // the root takes in three levels: eight internal slots, each a node with two leaves
    assert_eq!(cw.nodes.len(), 9);
    assert_eq!(used_slots(&cw, 0), vec![0, 1, 2, 3, 4, 5, 6, 7]);
    for s in 0..8 {
        let slot = cw.nodes[0].slots[s];
        assert_eq!(slot.kind, SlotKind::Internal);
        let child = slot.index as usize;
        assert_eq!(child, s + 1);
        assert_eq!(used_slots(&cw, child), vec![0, 4]);
        assert_eq!(cw.nodes[child].slots[0].kind, SlotKind::Leaf);
        assert_eq!(cw.nodes[child].slots[4].kind, SlotKind::Leaf);
    }
    // three cubes: a leaf beside a pair
    let three = vec![cube(0, 0, 0, 1), cube(100, 0, 0, 1), cube(104, 0, 0, 1)];
    let cw = build_cwbvh(&three[..], &config(1)).unwrap();
    assert_eq!(cw.nodes.len(), 1);
    let used = used_slots(&cw, 0);
    assert_eq!(used.len(), 3);
    assert!(used == vec![0, 4, 6] || used == vec![0, 2, 4]);
}
