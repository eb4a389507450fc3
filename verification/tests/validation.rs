use cwbvh_builder::aabb::{Aabb, Point};
use cwbvh_builder::builder::build_cwbvh;
use cwbvh_builder::config::{BuildConfig, SearchDistance};
use cwbvh_builder::cwbvh::{
    ceil_cell, choose_exponent, floor_cell, step_of, CwBvh, GridPoint, Slot, SlotKind,
};
use cwbvh_builder::validate::{
    check_conservative, check_coverage, check_leaf_sizes, hull_of_run, Defect,
};

fn boxes(n: i32) -> Vec<Aabb> {
    (0..n)
        .map(|i| {
            let x = (i * 37) % 101 * 13;
            let y = (i * 91) % 53 * 29;
            let z = (i * 17) % 11 * 301;
            Aabb::new(Point::new(x - 500, y, z), Point::new(x - 500 + 1 + i % 9, y + 2 + i % 5, z + 77))
        })
        .collect()
}

fn config(cap: u32) -> BuildConfig {
    BuildConfig {
        pre_split: false,
        ploc_search_distance: SearchDistance::High,
        sort_precision: 63,
        search_depth_threshold: 3,
        reinsertion_batch_ratio: 1000,
        max_prims_per_leaf: cap,
    }
}

fn by_place(cw: &CwBvh, bounds: &[Aabb]) -> Vec<Aabb> {
    cw.primitive_indices.iter().map(|&p| bounds[p as usize]).collect()
}

#[test]
fn a_build_passes_every_check() {
    for n in [1, 2, 3, 9, 64, 257] {
        let bounds = boxes(n);
        let cw = build_cwbvh(&bounds[..], &config(1)).unwrap();
        assert_eq!(check_leaf_sizes(&cw, 1), None);
        assert_eq!(check_conservative(&cw, &by_place(&cw, &bounds)), None);
        assert_eq!(check_coverage(&cw, &bounds), None);
    }
}

#[test]
fn slot_boxes_are_rounded_outward_on_the_grid() {
    let bounds = boxes(64);
    let cw = build_cwbvh(&bounds[..], &config(1)).unwrap();
    let place_boxes = by_place(&cw, &bounds);
    for node in cw.nodes.iter() {
        let steps = [step_of(node.ex), step_of(node.ey), step_of(node.ez)];
        for s in 0..8 {
            let slot = node.slots[s];
            if slot.kind == SlotKind::Leaf {
                let exact = hull_of_run(&place_boxes, slot.index as usize, slot.count as usize);
                let shown = node.decompress(s);
                assert!(shown.encloses(&exact));
                assert!((exact.min.x - shown.min.x) < steps[0] as i32);
                assert!((shown.max.x - exact.max.x) < steps[0] as i32);
                assert!((exact.min.y - shown.min.y) < steps[1] as i32);
                assert!((shown.max.y - exact.max.y) < steps[1] as i32);
                assert!((exact.min.z - shown.min.z) < steps[2] as i32);
                assert!((shown.max.z - exact.max.z) < steps[2] as i32);
            }
        }
    }
}

#[test]
fn grid_steps_are_the_least_powers_of_two() {
    assert_eq!(choose_exponent(0), 0);
    assert_eq!(choose_exponent(255), 0);
    assert_eq!(choose_exponent(256), 1);
    assert_eq!(choose_exponent(510), 1);
    assert_eq!(choose_exponent(511), 2);
    assert_eq!(choose_exponent(255 * 1024), 10);
    assert_eq!(choose_exponent(255 * 1024 + 1), 11);
    assert_eq!(choose_exponent(0x8000_0000), 24);
    assert_eq!(step_of(0), 1);
    assert_eq!(step_of(10), 1024);
    assert_eq!(step_of(24), 16_777_216);
}

#[test]
fn cells_round_down_and_up() {
    assert_eq!(floor_cell(17, 10, 4), 1);
    assert_eq!(ceil_cell(17, 10, 4), 2);
    assert_eq!(floor_cell(18, 10, 4), 2);
    assert_eq!(ceil_cell(18, 10, 4), 2);
    assert_eq!(floor_cell(-3, -10, 1), 7);
    assert_eq!(ceil_cell(-3, -10, 1), 7);
    assert_eq!(floor_cell(10, 10, 8), 0);
    assert_eq!(ceil_cell(10, 10, 8), 0);
    assert_eq!(ceil_cell(11, 10, 8), 1);
    assert_eq!(ceil_cell(1030, 10, 4), 255);
}

#[test]
fn a_leaf_that_is_too_large_is_found() {
    let bounds = boxes(64);
    let cw = build_cwbvh(&bounds[..], &config(1)).unwrap();
    assert_eq!(check_leaf_sizes(&cw, 0).is_some(), true);
    match check_leaf_sizes(&cw, 0) {
        Some(Defect::LeafTooLarge { node, slot }) => {
            assert_eq!(cw.nodes[node].slots[slot].kind, SlotKind::Leaf);
        }
        other => panic!("{:?}", other),
    }
}

#[test]
fn a_box_that_was_shrunk_is_found() {
    let bounds = boxes(64);
    let mut cw = build_cwbvh(&bounds[..], &config(1)).unwrap();
    let place_boxes = by_place(&cw, &bounds);
    // pull the far side of one slot in by one grid line
    let mut changed = None;
    'search: for i in 0..cw.nodes.len() {
        for s in 0..8 {
            let slot = cw.nodes[i].slots[s];
            if slot.kind != SlotKind::Empty && slot.qmax.x > slot.qmin.x {
                cw.nodes[i].slots[s].qmax.x -= 1;
                changed = Some((i, s));
                break 'search;
            }
        }
    }
    let (i, s) = changed.unwrap();
    assert_eq!(
        check_conservative(&cw, &place_boxes),
        Some(Defect::NotConservative { node: i, slot: s })
    );
    let mut short = place_boxes.clone();
    short.pop();
    assert_eq!(check_conservative(&cw, &short), Some(Defect::BoxCount));
}

#[test]
fn a_primitive_that_is_not_covered_is_found() {
    let bounds = boxes(30);
    let cw = build_cwbvh(&bounds[..], &config(1)).unwrap();
    let mut more = bounds.clone();
    more.push(bounds[0]);
    assert_eq!(check_coverage(&cw, &more), Some(Defect::MissingPrimitive { index: 30 }));
    let fewer = bounds[..29].to_vec();
    let place = cw.primitive_indices.iter().position(|&p| p == 29).unwrap();
    assert_eq!(check_coverage(&cw, &fewer), Some(Defect::UnknownPrimitive { place }));
    let mut larger = bounds.clone();
    larger[7] = Aabb::new(Point::new(-100_000, 0, 0), larger[7].max);
    assert_eq!(check_coverage(&cw, &larger), Some(Defect::NotCovered { index: 7 }));
}

#[test]
fn a_vacant_slot_is_all_zero() {
    let zero = GridPoint { x: 0, y: 0, z: 0 };
    assert_eq!(
        Slot::vacant(),
        Slot { kind: SlotKind::Empty, qmin: zero, qmax: zero, index: 0, count: 0 }
    );
}
