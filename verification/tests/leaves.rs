use cwbvh_builder::aabb::{Aabb, Point};
use cwbvh_builder::bvh2::Bvh2;
use cwbvh_builder::compress::bvh2_to_cwbvh;
use cwbvh_builder::config::BuildError;
use cwbvh_builder::cwbvh::{CwBvh, SlotKind};
use cwbvh_builder::leaves::{centre2, divide, has_large_leaf, split_large_leaves, split_leaf};
use cwbvh_builder::primitive::PrimitiveReference;
use cwbvh_builder::validate::{check_conservative, check_coverage, check_leaf_sizes};

fn row(n: i32) -> Vec<PrimitiveReference> {
    // boxes along x, given out of order
    (0..n)
        .map(|i| {
            let x = ((i * 7) % n) * 10;
            PrimitiveReference {
                aabb: Aabb::new(Point::new(x, 0, 0), Point::new(x + 4, 3, 2)),
                index: i as u32,
            }
        })
        .collect()
}

fn leaf_runs(cw: &CwBvh) -> Vec<(u32, u32)> {
    let mut runs = Vec::new();
    for node in cw.nodes.iter() {
        for s in 0..8 {
            if node.slots[s].kind == SlotKind::Leaf {
                runs.push((node.slots[s].index, node.slots[s].count));
            }
        }
    }
    runs.sort();
    runs
}

#[test]
fn single_leaf_holds_everything() {
    let refs = row(10);
    let t = Bvh2::single_leaf(&refs).unwrap();
    assert_eq!(t.nodes.len(), 1);
    assert_eq!(t.root, 0);
    assert_eq!(t.nodes[0].count, 10);
    assert_eq!(t.nodes[0].first, 0);
    assert_eq!(t.nodes[0].aabb, Aabb::new(Point::new(0, 0, 0), Point::new(94, 3, 2)));
    assert_eq!(t.refs, (0..10).collect::<Vec<u32>>());
    let none: Vec<PrimitiveReference> = Vec::new();
    assert_eq!(Bvh2::single_leaf(&none).err(), Some(BuildError::NoPrimitives));
    let mut bad = row(3);
    bad[2].aabb = Aabb::empty();
    assert_eq!(Bvh2::single_leaf(&bad).err(), Some(BuildError::UnboundedGeometry { index: 2 }));
}

#[test]
fn centre_is_doubled() {
    let b = Aabb::new(Point::new(1, -6, 10), Point::new(4, -1, 10));
    assert_eq!(centre2(&b, 0), 5);
    assert_eq!(centre2(&b, 1), -7);
    assert_eq!(centre2(&b, 2), 20);
}

#[test]
fn divide_parts_the_references_by_position() {
    let refs = row(10);
    let mut t = Bvh2::single_leaf(&refs).unwrap();
    let (a, b) = divide(&mut t, &refs, 0);
    assert_eq!((a, b), (1, 2));
    assert_eq!(t.nodes.len(), 3);
    assert_eq!(t.nodes[0].count, 0);
    assert_eq!((t.nodes[0].left, t.nodes[0].right), (1, 2));
    // the box spans 0..94 along x: the centre, doubled, is 94
    let left: Vec<u32> = t.refs[..t.nodes[1].count as usize].to_vec();
    let right: Vec<u32> = t.refs[t.nodes[1].count as usize..].to_vec();
    assert_eq!(left.len() + right.len(), 10);
    for &r in &left {
        assert!(centre2(&refs[r as usize].aabb, 0) < 94);
    }
    for &r in &right {
        assert!(centre2(&refs[r as usize].aabb, 0) >= 94);
    }
    assert_eq!(left.len(), 5);
    assert_eq!(t.nodes[1].aabb, Aabb::new(Point::new(0, 0, 0), Point::new(44, 3, 2)));
    assert_eq!(t.nodes[2].aabb, Aabb::new(Point::new(50, 0, 0), Point::new(94, 3, 2)));
    assert_eq!(t.parents, vec![u32::MAX, 0, 0]);
}

#[test]
fn coincident_references_are_halved() {
    let b = Aabb::new(Point::new(2, 2, 2), Point::new(2, 2, 2));
    let refs: Vec<PrimitiveReference> =
        (0..7).map(|i| PrimitiveReference { aabb: b, index: i }).collect();
    let mut t = Bvh2::single_leaf(&refs).unwrap();
    let (a, b2) = divide(&mut t, &refs, 0);
    assert_eq!(t.nodes[a as usize].count, 3);
    assert_eq!(t.nodes[b2 as usize].count, 4);
    split_large_leaves(&mut t, &refs, 1);
    assert!(!has_large_leaf(&t, 1));
    assert_eq!(t.nodes.len(), 13);
}

#[test]
fn splitting_a_leaf_respects_the_capacity() {
    let refs = row(23);
    for cap in [1u32, 2, 3, 5, 23, 100] {
        let mut t = Bvh2::single_leaf(&refs).unwrap();
        assert_eq!(has_large_leaf(&t, cap), cap < 23);
        split_leaf(&mut t, &refs, cap, 0);
        assert!(!has_large_leaf(&t, cap));
        let mut all: Vec<u32> = t.refs.clone();
        all.sort();
        assert_eq!(all, (0..23).collect::<Vec<u32>>());
        let held: u32 = t.nodes.iter().map(|n| n.count).sum();
        assert_eq!(held, 23);
        if cap >= 23 {
            assert_eq!(t.nodes.len(), 1);
        }
    }
}

#[test]
fn compression_divides_large_leaves() {
    let refs = row(40);
    let bounds: Vec<Aabb> = refs.iter().map(|r| r.aabb).collect();
    let t = Bvh2::single_leaf(&refs).unwrap();
    for cap in [0u32, 1, 3, 40] {
        let cw = bvh2_to_cwbvh(&t, &refs, cap);
        let limit = if cap == 0 { 1 } else { cap };
        let runs = leaf_runs(&cw);
        let mut next = 0;
        for (first, count) in runs {
            assert_eq!(first, next);
            assert!(1 <= count && count <= limit);
            next = first + count;
        }
        assert_eq!(next, 40);
        let mut prims = cw.primitive_indices.clone();
        prims.sort();
        assert_eq!(prims, (0..40).collect::<Vec<u32>>());
        let boxes: Vec<Aabb> = cw.primitive_indices.iter().map(|&p| bounds[p as usize]).collect();
        assert_eq!(check_leaf_sizes(&cw, limit), None);
        assert_eq!(check_conservative(&cw, &boxes), None);
        assert_eq!(check_coverage(&cw, &bounds), None);
        if cap == 40 {
            assert_eq!(cw.nodes.len(), 1);
            assert_eq!(cw.nodes[0].slots[0].count, 40);
        }
    }
    // the tree that was given is left as it was
    assert_eq!(t.nodes.len(), 1);
    assert_eq!(t.refs, (0..40).collect::<Vec<u32>>());
}
