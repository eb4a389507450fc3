use cwbvh_builder::aabb::{Aabb, Point};
use cwbvh_builder::bvh2::{Bvh2, NO_NODE};
use cwbvh_builder::config::{SahWeights, SearchDistance};
use cwbvh_builder::primitive::PrimitiveReference;
use cwbvh_builder::reinsertion::{
    attach, batch_size, detach, find_target, is_movable, pass, select_batch, try_move,
    ReinsertionOptimizer,
};

fn scattered(n: u32, seed: u64) -> Vec<PrimitiveReference> {
    let mut state = seed;
    let mut next = move |m: i32| -> i32 {
        state = state.wrapping_mul(6364136223846793005).wrapping_add(1442695040888963407);
        ((state >> 33) % (m as u64)) as i32
    };
    (0..n)
        .map(|i| {
            let x = next(1000);
            let y = next(1000);
            let z = next(1000);
            let w = 1 + next(40);
            let h = 1 + next(40);
            let d = 1 + next(40);
            PrimitiveReference {
                aabb: Aabb::new(Point::new(x, y, z), Point::new(x + w, y + h, z + d)),
                index: i,
            }
        })
        .collect()
}

fn check_tree(t: &Bvh2, refs: &[PrimitiveReference]) {
    let n = t.nodes.len();
    assert_eq!(t.parents.len(), n);
    assert_eq!(t.parents[t.root as usize], NO_NODE);
    let mut seen = vec![0u32; refs.len()];
    let mut children = vec![0u32; n];
    for i in 0..n {
        let node = t.nodes[i];
        if i as u32 != t.root {
            let p = t.nodes[t.parents[i] as usize];
            assert_eq!(p.count, 0);
            assert!(p.left == i as u32 || p.right == i as u32);
        }
        if node.count == 0 {
            assert_ne!(node.left, node.right);
            assert_eq!(t.parents[node.left as usize], i as u32);
            assert_eq!(t.parents[node.right as usize], i as u32);
            children[node.left as usize] += 1;
            children[node.right as usize] += 1;
            let l = t.nodes[node.left as usize].aabb;
            let r = t.nodes[node.right as usize].aabb;
            assert_eq!(node.aabb, l.union(r));
        } else {
            let mut hull = Aabb::empty();
            for k in node.first..node.first + node.count {
                let r = t.refs[k as usize] as usize;
                seen[r] += 1;
                hull = hull.union(refs[r].aabb);
            }
            assert_eq!(node.aabb, hull);
        }
    }
    assert!(seen.iter().all(|&c| c == 1));
    for i in 0..n {
        assert_eq!(children[i], if i as u32 == t.root { 0 } else { 1 });
    }
    // every node reaches the root
    for i in 0..n {
        let mut cur = i as u32;
        let mut steps = 0;
        while cur != t.root {
            cur = t.parents[cur as usize];
            steps += 1;
            assert!(steps <= n);
        }
    }
}

fn inner_area(t: &Bvh2) -> u128 {
    t.nodes.iter().filter(|n| n.count == 0).map(|n| n.aabb.half_area() as u128).sum()
}

#[test]
fn clustering_makes_a_whole_tree() {
    let refs = scattered(500, 7);
    let t = SearchDistance::High.build(&refs, 63, 2).unwrap();
    assert_eq!(t.nodes.len(), 999);
    check_tree(&t, &refs);
}

#[test]
fn optimising_never_raises_the_cost() {
    for (n, seed, ratio) in [(2u32, 1u64, 1000u32), (3, 2, 1), (50, 3, 500), (400, 4, 250), (400, 5, 5000)] {
        let refs = scattered(n, seed);
        let mut t = SearchDistance::VeryLow.build(&refs, 12, 0).unwrap();
        let w = SahWeights { traversal: 3, intersection: 2 };
        let before = t.sah_cost(w).unwrap();
        let area_before = inner_area(&t);
        let root_box = t.nodes[t.root as usize].aabb;
        ReinsertionOptimizer::run(&mut t, ratio, None);
        check_tree(&t, &refs);
        let after = t.sah_cost(w).unwrap();
        assert!(after <= before);
        assert!(inner_area(&t) <= area_before);
        assert_eq!(t.nodes[t.root as usize].aabb, root_box);
    }
}

#[test]
fn optimising_improves_a_poor_tree() {
    // With a window of one and few key bits the clustering of scattered boxes
    // leaves room for the local search.
    let refs = scattered(300, 11);
    let mut t = SearchDistance::VeryLow.build(&refs, 3, 0).unwrap();
    let before = inner_area(&t);
    ReinsertionOptimizer::run(&mut t, 1000, Some(4));
    check_tree(&t, &refs);
    assert!(inner_area(&t) < before);
}

#[test]
fn a_pass_reports_whether_it_moved() {
    let refs = scattered(120, 21);
    let mut t = SearchDistance::Low.build(&refs, 6, 0).unwrap();
    let before = inner_area(&t);
    let improved = pass(&mut t, 1000);
    let after = inner_area(&t);
    assert_eq!(improved, after < before);
    check_tree(&t, &refs);
}

#[test]
fn zero_passes_change_nothing() {
    let refs = scattered(64, 5);
    let mut t = SearchDistance::Medium.build(&refs, 63, 2).unwrap();
    let nodes = t.nodes.clone();
    ReinsertionOptimizer::run(&mut t, 500, Some(0));
    assert_eq!(t.nodes, nodes);
}

#[test]
fn taking_out_and_putting_back_keeps_the_cost() {
    let refs = scattered(40, 9);
    let mut t = SearchDistance::Medium.build(&refs, 63, 2).unwrap();
    let before = inner_area(&t);
    let x = (0..t.nodes.len() as u32).find(|&x| is_movable(&t, x)).unwrap();
    let d = detach(&mut t, x);
    assert_eq!(t.parents[x as usize], NO_NODE);
    assert_eq!(t.parents[d.parent as usize], NO_NODE);
    let added = attach(&mut t, x, d.parent, d.sibling).unwrap();
    assert_eq!(d.delta.unwrap() + added, 0);
    assert_eq!(inner_area(&t), before);
    check_tree(&t, &refs);
}

#[test]
fn a_move_stays_only_if_it_lowers_the_cost() {
    let refs = scattered(80, 13);
    let mut t = SearchDistance::VeryLow.build(&refs, 3, 0).unwrap();
    for x in 0..t.nodes.len() as u32 {
        if is_movable(&t, x) {
            let before = inner_area(&t);
            let moved = try_move(&mut t, x);
            let after = inner_area(&t);
            if moved {
                assert!(after < before);
            } else {
                assert_eq!(after, before);
            }
        }
    }
    check_tree(&t, &refs);
}

#[test]
fn batch_takes_the_greatest_gains_first() {
    let refs = scattered(60, 17);
    let t = SearchDistance::Medium.build(&refs, 63, 2).unwrap();
    let gain = |x: u32| -> u64 {
        let p = t.nodes[t.parents[x as usize] as usize];
        let s = if p.left == x { p.right } else { p.left };
        p.aabb.half_area() - t.nodes[s as usize].aabb.half_area()
    };
    let movable: Vec<u32> = (0..t.nodes.len() as u32).filter(|&x| is_movable(&t, x)).collect();
    let mut ranked = movable.clone();
    ranked.sort_by(|&a, &b| gain(b).cmp(&gain(a)).then(a.cmp(&b)));
    let batch = select_batch(&t, 250);
    let size = t.nodes.len() * 250 / 1000;
    assert_eq!(batch.len(), size);
    assert_eq!(batch, ranked[..size].to_vec());
    assert_eq!(select_batch(&t, 1).len(), 1);
    assert_eq!(select_batch(&t, 4000), ranked);
}

#[test]
fn batch_sizes() {
    assert_eq!(batch_size(0, 10, 1000), 0);
    assert_eq!(batch_size(5, 7, 1), 1);
    assert_eq!(batch_size(5, 7, 0), 1);
    assert_eq!(batch_size(100, 200, 250), 50);
    assert_eq!(batch_size(100, 200, 1000), 100);
    assert_eq!(batch_size(100, 200, 9999), 100);
}

fn cost_beside(t: &Bvh2, v: u32, b: Aabb) -> u128 {
    let mut cost = t.nodes[v as usize].aabb.union(b).half_area() as u128;
    let mut cur = v;
    while t.parents[cur as usize] != NO_NODE {
        cur = t.parents[cur as usize];
        let old = t.nodes[cur as usize].aabb;
        cost += (old.union(b).half_area() - old.half_area()) as u128;
    }
    cost
}

fn in_tree(t: &Bvh2, v: u32) -> bool {
    let mut cur = v;
    while t.parents[cur as usize] != NO_NODE {
        cur = t.parents[cur as usize];
    }
    cur == t.root
}

#[test]
fn the_search_finds_the_cheapest_place() {
    let refs = scattered(60, 31);
    let mut t = SearchDistance::VeryLow.build(&refs, 3, 0).unwrap();
    let nodes = t.nodes.len() as u32;
    let mut exhaustive = 0;
    for x in 0..nodes {
        if !is_movable(&t, x) {
            continue;
        }
        let d = detach(&mut t, x);
        let b = t.nodes[x as usize].aabb;
        let place = find_target(&t, x, d.parent, d.sibling);
        assert!(place.node != t.root);
        assert!(in_tree(&t, place.node));
        let found = cost_beside(&t, place.node, b);
        assert!(found <= cost_beside(&t, d.sibling, b));
        if place.exhaustive {
            exhaustive += 1;
            for v in 0..nodes {
                if v != t.root && v != x && v != d.parent && in_tree(&t, v) {
                    assert!(found <= cost_beside(&t, v, b));
                }
            }
        }
        attach(&mut t, x, d.parent, d.sibling);
    }
    assert!(exhaustive > 0);
    check_tree(&t, &refs);
}

#[test]
fn a_try_is_take_out_search_and_put_beside() {
    let refs = scattered(70, 41);
    let nodes = SearchDistance::VeryLow.build(&refs, 3, 0).unwrap().nodes.len() as u32;
    let mut stayed = 0;
    for x in 0..nodes {
        let mut a = SearchDistance::VeryLow.build(&refs, 3, 0).unwrap();
        let mut b = SearchDistance::VeryLow.build(&refs, 3, 0).unwrap();
        if !is_movable(&a, x) {
            continue;
        }
        let before = inner_area(&a);
        let moved = try_move(&mut a, x);
        // the same by hand
        let d = detach(&mut b, x);
        assert!(d.delta.is_some());
        let place = find_target(&b, x, d.parent, d.sibling);
        if place.node == d.sibling {
            assert!(!moved);
            continue;
        }
        let added = attach(&mut b, x, d.parent, place.node);
        assert_eq!(inner_area(&b) as i128 - before as i128, d.delta.unwrap() + added.unwrap());
        assert_eq!(moved, inner_area(&b) < before);
        if moved {
            stayed += 1;
            assert_eq!(a.nodes, b.nodes);
            assert_eq!(a.parents, b.parents);
        } else {
            assert_eq!(inner_area(&a), before);
        }
    }
    assert!(stayed > 0);
}

#[test]
fn a_run_is_a_row_of_passes() {
    let refs = scattered(150, 51);
    for cap in [0u32, 1, 2, 5] {
        let mut a = SearchDistance::VeryLow.build(&refs, 3, 0).unwrap();
        let mut b = SearchDistance::VeryLow.build(&refs, 3, 0).unwrap();
        ReinsertionOptimizer::run(&mut a, 400, Some(cap));
        let mut made = 0;
        while made < cap {
            made += 1;
            if !pass(&mut b, 400) {
                break;
            }
        }
        assert_eq!(a.nodes, b.nodes);
        assert_eq!(a.parents, b.parents);
    }
    let mut a = SearchDistance::VeryLow.build(&refs, 3, 0).unwrap();
    let mut b = SearchDistance::VeryLow.build(&refs, 3, 0).unwrap();
    ReinsertionOptimizer::run(&mut a, 400, None);
    ReinsertionOptimizer::run(&mut b, 400, Some(8));
    assert_eq!(a.nodes, b.nodes);
}

#[test]
fn a_pass_gives_every_node_of_the_batch_its_turn() {
    let refs = scattered(90, 61);
    let mut a = SearchDistance::VeryLow.build(&refs, 3, 0).unwrap();
    let mut b = SearchDistance::VeryLow.build(&refs, 3, 0).unwrap();
    let improved = pass(&mut a, 300);
    let batch = select_batch(&b, 300);
    let mut any = false;
    for x in batch {
        if is_movable(&b, x) && try_move(&mut b, x) {
            any = true;
        }
    }
    assert_eq!(improved, any);
    assert_eq!(a.nodes, b.nodes);
    assert_eq!(a.parents, b.parents);
}
