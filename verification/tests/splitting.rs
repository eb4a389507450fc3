use cwbvh_builder::aabb::{Aabb, Point};
use cwbvh_builder::builder::{build_cwbvh_from_tris, build_prepared_tris};
use cwbvh_builder::config::{BuildConfig, BuildError, SearchDistance};
use cwbvh_builder::cwbvh::{CwBvh, SlotKind};
use cwbvh_builder::primitive::{Boundable, PrimitiveReference, Triangle};
use cwbvh_builder::setup::references_of;
use cwbvh_builder::splits::{clip, cross_hi, cross_lo, cut, longest_axis, pieces, split_aabbs_preset};

fn p(x: i32, y: i32, z: i32) -> Point {
    Point::new(x, y, z)
}

fn tri(a: (i32, i32, i32), b: (i32, i32, i32), c: (i32, i32, i32)) -> Triangle {
    Triangle::new(p(a.0, a.1, a.2), p(b.0, b.1, b.2), p(c.0, c.1, c.2))
}

fn split_config(pre_split: bool) -> BuildConfig {
    BuildConfig {
        pre_split,
        ploc_search_distance: SearchDistance::Low,
        sort_precision: 30,
        search_depth_threshold: 1,
        reinsertion_batch_ratio: 300,
        max_prims_per_leaf: 2,
    }
}

#[test]
fn crossing_is_rounded_outward() {
    // from (0, 0) to (3, 1): at 1 the second coordinate is 1/3
    assert_eq!(cross_lo(0, 0, 3, 1, 1), 0);
    assert_eq!(cross_hi(0, 0, 3, 1, 1), 1);
    // from (0, 1) to (3, 0): at 2 it is 1/3 as well
    assert_eq!(cross_lo(0, 1, 3, 0, 2), 0);
    assert_eq!(cross_hi(0, 1, 3, 0, 2), 1);
    // exact crossings are not moved
    assert_eq!(cross_lo(0, 0, 10, 20, 5), 10);
    assert_eq!(cross_hi(0, 0, 10, 20, 5), 10);
    assert_eq!(cross_lo(-4, 7, 4, -9, 0), -1);
    assert_eq!(cross_hi(-4, 7, 4, -9, 0), -1);
    // negative slopes and negative values
    assert_eq!(cross_lo(0, -1, 4, -2, 1), -2);
    assert_eq!(cross_hi(0, -1, 4, -2, 1), -1);
}

#[test]
fn clip_bounds_the_part_in_the_slab() {
    let t = tri((0, 0, 0), (10, 0, 0), (0, 10, 0));
    assert_eq!(clip(&t, 0, 0, 5), Aabb::new(p(0, 0, 0), p(5, 10, 0)));
    assert_eq!(clip(&t, 0, 5, 10), Aabb::new(p(5, 0, 0), p(10, 5, 0)));
    assert_eq!(clip(&t, 1, 8, 10), Aabb::new(p(0, 8, 0), p(2, 10, 0)));
    // a slab that holds no corner
    assert_eq!(clip(&t, 0, 2, 3), Aabb::new(p(2, 0, 0), p(3, 8, 0)));
    // a slab beside the triangle holds nothing
    assert_eq!(clip(&t, 0, 11, 12), Aabb::empty());
}

#[test]
fn clip_rounds_outward() {
    let t = tri((0, 0, 0), (3, 1, 5), (3, 0, 0));
    // at x = 1 the edge v0-v1 is at y = 1/3, z = 5/3
    assert_eq!(clip(&t, 0, 0, 1), Aabb::new(p(0, 0, 0), p(1, 1, 2)));
    assert_eq!(clip(&t, 0, 1, 3), Aabb::new(p(1, 0, 0), p(3, 1, 5)));
}

#[test]
fn longest_axis_takes_the_first_of_equals() {
    assert_eq!(longest_axis(&Aabb::new(p(0, 0, 0), p(5, 5, 5))), 0);
    assert_eq!(longest_axis(&Aabb::new(p(0, 0, 0), p(4, 5, 5))), 1);
    assert_eq!(longest_axis(&Aabb::new(p(0, 0, 0), p(4, 5, 6))), 2);
    assert_eq!(longest_axis(&Aabb::new(p(-9, 0, 0), p(0, 5, 6))), 0);
}

#[test]
fn piece_counts() {
    // no outlier in the set: the largest is within 8 times the average
    assert_eq!(pieces(100, 20, 160, 50, 10), 1);
    // an outlier, but this box is small
    assert_eq!(pieces(80, 20, 1000, 50, 10), 1);
    // 81 / 81 + 1 = 2 pieces
    assert_eq!(pieces(81, 20, 1000, 50, 10), 2);
    assert_eq!(pieces(400, 20, 1000, 50, 10), 5);
    assert_eq!(pieces(1000, 20, 1000, 50, 10), 8);
    // capped by the length of the box
    assert_eq!(pieces(1000, 20, 1000, 3, 10), 3);
    assert_eq!(pieces(1000, 20, 1000, 1, 10), 1);
    // capped by what is left of the budget
    assert_eq!(pieces(1000, 20, 1000, 50, 2), 3);
    assert_eq!(pieces(1000, 20, 1000, 50, 0), 1);
    // flat boxes are never split
    assert_eq!(pieces(0, 0, 1000, 50, 10), 1);
}

#[test]
fn cut_puts_the_first_piece_in_place_and_the_others_behind() {
    let t = tri((0, 0, 0), (9, 0, 0), (0, 9, 0));
    let other = PrimitiveReference { aabb: Aabb::new(p(1, 1, 1), p(2, 2, 2)), index: 0 };
    let mut refs = vec![other, PrimitiveReference { aabb: t.aabb(), index: 1 }, other];
    cut(&mut refs, &t, 1, 3);
    assert_eq!(refs.len(), 5);
    assert_eq!(refs[0], other);
    assert_eq!(refs[2], other);
    assert_eq!(refs[1], PrimitiveReference { aabb: Aabb::new(p(0, 0, 0), p(3, 9, 0)), index: 1 });
    assert_eq!(refs[3], PrimitiveReference { aabb: Aabb::new(p(3, 0, 0), p(6, 6, 0)), index: 1 });
    assert_eq!(refs[4], PrimitiveReference { aabb: Aabb::new(p(6, 0, 0), p(9, 3, 0)), index: 1 });
}

fn field_with_outlier() -> Vec<Triangle> {
    let mut tris = Vec::new();
    for i in 0..40 {
        let x = (i % 8) * 10;
        let y = (i / 8) * 10;
        tris.push(tri((x, y, 0), (x + 2, y, 0), (x, y + 2, 1)));
    }
    tris.push(tri((0, 0, -5), (800, 10, 5), (400, 90, 0)));
    // a flat triangle: all corners on a line along one axis
    tris.push(tri((0, 0, 0), (500, 0, 0), (900, 0, 0)));
    tris
}

#[test]
fn splitting_cuts_the_outlier_only() {
    let tris = field_with_outlier();
    let set = references_of(&tris[..]).unwrap();
    let mut refs = set.references.clone();
    split_aabbs_preset(&mut refs, &tris[..], set.average_half_area, set.largest_half_area);
    assert_eq!(refs.len(), tris.len() + 7);
    for i in 0..tris.len() {
        assert_eq!(refs[i].index, i as u32);
        if i != 40 {
            assert_eq!(refs[i], set.references[i]);
        }
    }
    let big = tris[40].aabb();
    let mut hull = Aabb::empty();
    let mut xs = Vec::new();
    for r in refs.iter().filter(|r| r.index == 40) {
        assert!(big.encloses(&r.aabb));
        assert!(r.aabb.is_valid());
        hull = hull.union(r.aabb);
        xs.push((r.aabb.min.x, r.aabb.max.x));
    }
    assert_eq!(hull, big);
    assert_eq!(
        xs,
        vec![(0, 100), (100, 200), (200, 300), (300, 400), (400, 500), (500, 600), (600, 700), (700, 800)]
    );
}

#[test]
fn splitting_leaves_an_even_set_alone() {
    let tris: Vec<Triangle> =
        (0..20).map(|i| tri((i * 5, 0, 0), (i * 5 + 4, 0, 0), (i * 5, 4 + i % 3, 0))).collect();
    let set = references_of(&tris[..]).unwrap();
    let mut refs = set.references.clone();
    split_aabbs_preset(&mut refs, &tris[..], set.average_half_area, set.largest_half_area);
    assert_eq!(refs, set.references);
}

#[test]
fn splitting_adds_fewer_references_than_there_are_triangles() {
    // ten outliers of half-area 2 300 000 among 210 small and flat triangles:
    // the average is 104 545, so each outlier is cut into 2 300 000 / 418 181 + 1 = 6
    let mut tris = Vec::new();
    for i in 0..10 {
        tris.push(tri((i, 0, 0), (i + 1, 0, 0), (i, 1, 1)));
        tris.push(tri((0, i, 0), (2000, i, 0), (0, i + 1000, 100)));
    }
    for _ in 0..200 {
        tris.push(tri((0, 0, 0), (0, 0, 0), (0, 0, 0)));
    }
    let set = references_of(&tris[..]).unwrap();
    assert_eq!(set.largest_half_area, 2_300_000);
    assert_eq!(set.average_half_area, 104_545);
    let mut refs = set.references.clone();
    split_aabbs_preset(&mut refs, &tris[..], set.average_half_area, set.largest_half_area);
    assert_eq!(refs.len(), tris.len() + 50);
    for i in 0..tris.len() {
        let count = refs.iter().filter(|r| r.index == i as u32).count();
        assert_eq!(count, if i < 20 && i % 2 == 1 { 6 } else { 1 });
    }
}

fn leaf_boxes_of(cw: &CwBvh, prim: u32) -> Vec<Aabb> {
    let mut out = Vec::new();
    for node in cw.nodes.iter() {
        for s in 0..8 {
            let slot = node.slots[s];
            if slot.kind == SlotKind::Leaf {
                let run = &cw.primitive_indices[slot.index as usize..(slot.index + slot.count) as usize];
                if run.contains(&prim) {
                    out.push(node.decompress(s));
                }
            }
        }
    }
    out
}

#[test]
fn every_triangle_is_covered_with_and_without_splitting() {
    let tris = field_with_outlier();
    for pre_split in [false, true] {
        let cw = build_cwbvh_from_tris(&tris[..], &split_config(pre_split)).unwrap();
        let expected = if pre_split { tris.len() + 7 } else { tris.len() };
        assert_eq!(cw.primitive_indices.len(), expected);
        for (i, t) in tris.iter().enumerate() {
            let boxes = leaf_boxes_of(&cw, i as u32);
            assert!(!boxes.is_empty());
            let hull = boxes.iter().fold(Aabb::empty(), |h, b| h.union(*b));
            assert!(hull.encloses(&t.aabb()));
        }
        for node in cw.nodes.iter() {
            for s in 0..8 {
                if node.slots[s].kind == SlotKind::Leaf {
                    assert!(node.slots[s].count <= 2);
                }
            }
        }
    }
}

#[test]
fn prepared_build_is_the_build() {
    let tris = field_with_outlier();
    let config = split_config(true);
    let set = references_of(&tris[..]).unwrap();
    let a = build_prepared_tris(&tris[..], set, &config).unwrap();
    let b = build_cwbvh_from_tris(&tris[..], &config).unwrap();
    assert_eq!(a.nodes, b.nodes);
    assert_eq!(a.primitive_indices, b.primitive_indices);
}

#[test]
fn triangles_out_of_range_are_refused() {
    let tris = vec![
        tri((0, 0, 0), (1, 0, 0), (0, 1, 0)),
        tri((0, 0, 0), (1, 0, 0), (0, 1, 1073741825)),
    ];
    assert_eq!(
        build_cwbvh_from_tris(&tris[..], &split_config(true)).err(),
        Some(BuildError::UnboundedGeometry { index: 1 })
    );
    let none: Vec<Triangle> = Vec::new();
    assert_eq!(
        build_cwbvh_from_tris(&none[..], &split_config(false)).err(),
        Some(BuildError::NoPrimitives)
    );
}
