use quadtrees::geometry::{Point, Rect};
use quadtrees::quadtree::{Quadtree, Region, MAX_SIZE};

fn pt(x: i64, y: i64) -> Point {
    Point::new(x, y)
}

fn rect(x: i64, y: i64, w: i64, h: i64) -> Rect {
    Rect::new(x, y, w, h)
}

fn leaf_points(t: &Quadtree) -> Option<Vec<Point>> {
    match &t.region {
        Region::Leaf { points } => Some(points.clone()),
        Region::Internal { .. } => None,
    }
}

fn children(t: &Quadtree) -> Vec<&Quadtree> {
    match &t.region {
        Region::Leaf { .. } => vec![],
        Region::Internal { tl, tr, bl, br } => vec![&**tl, &**tr, &**bl, &**br],
    }
}

fn count_nodes(t: &Quadtree) -> usize {
    1 + children(t).into_iter().map(count_nodes).sum::<usize>()
}

fn all_points(t: &Quadtree, out: &mut Vec<Point>) {
    match &t.region {
        Region::Leaf { points } => out.extend(points.iter().copied()),
        Region::Internal { tl, tr, bl, br } => {
            all_points(tl, out);
            all_points(tr, out);
            all_points(bl, out);
            all_points(br, out);
        }
    }
}

fn area(r: Rect) -> i64 {
    r.w * r.h
}

fn within(inner: Rect, outer: Rect) -> bool {
    outer.x <= inner.x
        && outer.y <= inner.y
        && inner.x + inner.w <= outer.x + outer.w
        && inner.y + inner.h <= outer.y + outer.h
}

fn scenario_tree() -> Quadtree {
    let mut t = Quadtree::new(0, 0, 100, 100);
    for i in 1..=5 {
        assert!(t.insert(pt(i, i)));
    }
    t
}

#[test]
fn new_is_an_empty_leaf() {
    let t = Quadtree::new(3, 4, 10, 20);
    assert_eq!(t.bounds, rect(3, 4, 10, 20));
    assert_eq!(leaf_points(&t), Some(vec![]));
    assert!(!t.contains(&pt(3, 4)));
}

#[test]
fn four_points_stay_in_root_leaf() {
    let mut t = Quadtree::new(0, 0, 100, 100);
    for i in 1..=4 {
        assert!(t.insert(pt(i, i)));
    }
    assert_eq!(leaf_points(&t), Some(vec![pt(1, 1), pt(2, 2), pt(3, 3), pt(4, 4)]));
    assert!(t.contains(&pt(1, 1)));
    assert_eq!(t.locate(50, 50), Some(rect(0, 0, 100, 100)));
}

#[test]
fn fifth_point_splits_root() {
    let t = scenario_tree();
    let kids = children(&t);
    assert_eq!(kids.len(), 4);
    assert_eq!(kids[0].bounds, rect(0, 0, 50, 50));
    assert_eq!(kids[1].bounds, rect(50, 0, 50, 50));
    assert_eq!(kids[2].bounds, rect(0, 50, 50, 50));
    assert_eq!(kids[3].bounds, rect(50, 50, 50, 50));
    for i in 1..=5 {
        assert!(t.contains(&pt(i, i)));
    }
    // All five points fall in the top-left quadrant, which cannot hold them
    // all, so it is split in turn until the points fit.
    let mut in_tl = vec![];
    all_points(kids[0], &mut in_tl);
    assert_eq!(in_tl.len(), 5);
    for k in 1..4 {
        assert_eq!(leaf_points(kids[k]), Some(vec![]));
    }
    assert_eq!(t.locate(1, 1), Some(rect(0, 0, 3, 3)));
    assert_eq!(t.locate(4, 4), Some(rect(3, 3, 3, 3)));
    assert_eq!(t.locate(75, 75), Some(rect(50, 50, 50, 50)));
}

#[test]
fn center_point_goes_to_bottom_right() {
    let mut t = scenario_tree();
    assert!(t.insert(pt(50, 50)));
    let kids = children(&t);
    assert_eq!(leaf_points(kids[3]), Some(vec![pt(50, 50)]));
    assert!(!kids[0].contains(&pt(50, 50)));
    assert!(!kids[1].contains(&pt(50, 50)));
    assert!(!kids[2].contains(&pt(50, 50)));
    assert!(kids[3].contains(&pt(50, 50)));
}

#[test]
fn outside_points_are_refused_without_change() {
    let mut t = scenario_tree();
    let nodes = count_nodes(&t);
    let mut before = vec![];
    all_points(&t, &mut before);
    for p in [pt(100, 10), pt(10, 100), pt(-1, 10), pt(10, -1), pt(100, 100), pt(i64::MAX, 0)] {
        assert!(!t.insert(p));
        assert!(!t.contains(&p));
    }
    let mut after = vec![];
    all_points(&t, &mut after);
    assert_eq!(before, after);
    assert_eq!(count_nodes(&t), nodes);
}

#[test]
fn near_edge_points_are_accepted() {
    let mut t = Quadtree::new(0, 0, 100, 100);
    assert!(t.insert(pt(0, 0)));
    assert!(t.insert(pt(99, 99)));
    assert!(t.insert(pt(99, 0)));
    assert!(t.insert(pt(0, 99)));
    assert!(t.contains(&pt(99, 99)));
}

#[test]
fn inserted_points_stay_contained() {
    let mut t = Quadtree::new(-500, -500, 1000, 1000);
    let mut seed: u64 = 12345;
    let mut kept = vec![];
    for _ in 0..300 {
        seed = seed.wrapping_mul(6364136223846793005).wrapping_add(1442695040888963407);
        let x = ((seed >> 33) % 1000) as i64 - 500;
        let y = ((seed >> 13) % 1000) as i64 - 500;
        let p = pt(x, y);
        if t.insert(p) {
            kept.push(p);
        }
        assert!(t.contains(&p) || !kept.contains(&p));
        for q in &kept {
            assert!(t.contains(q));
        }
    }
    assert!(kept.len() > 250);
}

#[test]
fn contains_needs_exact_coordinates() {
    let mut t = Quadtree::new(0, 0, 100, 100);
    assert!(t.insert(pt(10, 20)));
    assert!(t.contains(&pt(10, 20)));
    assert!(!t.contains(&pt(20, 10)));
    assert!(!t.contains(&pt(10, 21)));
}

#[test]
fn smallest_leaf_refuses_overflow() {
    let mut t = Quadtree::new(0, 0, 1, 1);
    for _ in 0..MAX_SIZE {
        assert!(t.insert(pt(0, 0)));
    }
    assert!(!t.insert(pt(0, 0)));
    assert_eq!(leaf_points(&t).map(|v| v.len()), Some(MAX_SIZE));
}

#[test]
fn duplicates_in_a_small_cell_end_at_the_finest_cell() {
    let mut t = Quadtree::new(0, 0, 8, 8);
    for _ in 0..MAX_SIZE {
        assert!(t.insert(pt(1, 1)));
    }
    // The region splits down to a 1x1 cell, which then holds four copies.
    assert!(!t.insert(pt(1, 1)));
    assert!(t.contains(&pt(1, 1)));
    assert_eq!(t.locate(1, 1), Some(rect(0, 0, 1, 1)));
    // Other cells still take points.
    assert!(t.insert(pt(6, 6)));
    assert!(t.contains(&pt(6, 6)));
}

#[test]
fn divide_tiles_the_parent() {
    let mut t = Quadtree::new(10, 20, 7, 5);
    t.divide();
    let kids = children(&t);
    assert_eq!(kids[0].bounds, rect(10, 20, 3, 2));
    assert_eq!(kids[1].bounds, rect(13, 20, 4, 2));
    assert_eq!(kids[2].bounds, rect(10, 22, 3, 3));
    assert_eq!(kids[3].bounds, rect(13, 22, 4, 3));
    let total: i64 = kids.iter().map(|k| area(k.bounds)).sum();
    assert_eq!(total, area(t.bounds));
    for x in 10..17 {
        for y in 20..25 {
            let p = pt(x, y);
            let n = kids.iter().filter(|k| k.bounds.contains_point(&p)).count();
            assert_eq!(n, 1);
        }
    }
}

#[test]
fn divide_moves_points_and_is_idempotent() {
    let mut t = Quadtree::new(0, 0, 100, 100);
    for p in [pt(10, 10), pt(60, 10), pt(10, 60), pt(60, 60)] {
        assert!(t.insert(p));
    }
    t.divide();
    let kids = children(&t);
    assert_eq!(leaf_points(kids[0]), Some(vec![pt(10, 10)]));
    assert_eq!(leaf_points(kids[1]), Some(vec![pt(60, 10)]));
    assert_eq!(leaf_points(kids[2]), Some(vec![pt(10, 60)]));
    assert_eq!(leaf_points(kids[3]), Some(vec![pt(60, 60)]));
    let nodes = count_nodes(&t);
    t.divide();
    assert_eq!(count_nodes(&t), nodes);
}

#[test]
fn divide_leaves_small_leaf_alone() {
    let mut t = Quadtree::new(0, 0, 1, 10);
    assert!(t.insert(pt(0, 3)));
    t.divide();
    assert_eq!(leaf_points(&t), Some(vec![pt(0, 3)]));
}

#[test]
fn locate_outside_domain_is_none() {
    let t = scenario_tree();
    assert_eq!(t.locate(-1, 0), None);
    assert_eq!(t.locate(0, 101), None);
    assert_eq!(t.locate(101, 101), None);
}

#[test]
fn locate_includes_far_edges() {
    let t = Quadtree::new(0, 0, 100, 100);
    assert_eq!(t.locate(100, 100), Some(rect(0, 0, 100, 100)));
    let t = scenario_tree();
    assert_eq!(t.locate(100, 100), Some(rect(50, 50, 50, 50)));
    // On a shared edge the first quadrant in order wins.
    assert_eq!(t.locate(50, 50), Some(rect(25, 25, 25, 25)));
}

#[test]
fn locate_only_shrinks_as_points_arrive() {
    let mut t = Quadtree::new(0, 0, 64, 64);
    let probes = [(0, 0), (5, 7), (32, 32), (63, 1), (64, 64), (20, 40)];
    let mut last: Vec<Rect> = probes.iter().map(|&(x, y)| t.locate(x, y).unwrap()).collect();
    for i in 0..40 {
        assert!(t.insert(pt((i * 7) % 64, (i * 13) % 64)));
        for (k, &(x, y)) in probes.iter().enumerate() {
            let now = t.locate(x, y).unwrap();
            assert!(within(now, last[k]));
            assert!(within(now, t.bounds));
            last[k] = now;
        }
    }
}

#[test]
fn rect_tests_follow_their_edges() {
    let r = rect(0, 0, 10, 10);
    assert!(r.contains_point(&pt(0, 0)));
    assert!(!r.contains_point(&pt(10, 0)));
    assert!(r.covers_coord(10, 10));
    assert!(!r.covers_coord(11, 10));
    assert!(r.is_splittable());
    assert!(!rect(0, 0, 1, 5).is_splittable());
    let q = r.quadrants();
    assert_eq!(q, [rect(0, 0, 5, 5), rect(5, 0, 5, 5), rect(0, 5, 5, 5), rect(5, 5, 5, 5)]);
}
