use quadtree_physics::geometry::{Point, Rect};
use quadtree_physics::quadtree::{rebuild, Quadtree};

fn world() -> Rect {
    Rect::new(-400, -400, 400, 400)
}

fn sorted_query(t: &Quadtree, area: &Rect) -> Vec<u64> {
    let mut found = Vec::new();
    t.query(area, &mut found);
    found.sort();
    found
}

fn grid_snapshot() -> Vec<(u64, Point)> {
    let mut s = Vec::new();
    let mut id = 0u64;
    for x in (-390..=390).step_by(37) {
        for y in (-385..=385).step_by(41) {
            s.push((id, Point::new(x, y)));
            id += 1;
        }
    }
    s
}

#[test]
fn empty_tree_finds_nothing() {
    let t = Quadtree::new(world(), 4);
    assert_eq!(sorted_query(&t, &world()), Vec::<u64>::new());
}

#[test]
fn insert_then_query_whole_world() {
    let mut t = Quadtree::new(world(), 2);
    t.insert(7, Point::new(10, 10));
    t.insert(3, Point::new(-10, 10));
    t.insert(9, Point::new(-10, -10));
    t.insert(1, Point::new(10, -10));
    t.insert(5, Point::new(400, 400));
    assert_eq!(sorted_query(&t, &world()), vec![1, 3, 5, 7, 9]);
}

#[test]
fn containment_every_id_exactly_once() {
    let snap = grid_snapshot();
    let t = rebuild(world(), 5, &snap);
    let found = sorted_query(&t, &Rect::new(-1000, -1000, 1000, 1000));
    let expected: Vec<u64> = (0..snap.len() as u64).collect();
    assert_eq!(found, expected);
}

#[test]
fn range_query_matches_brute_force() {
    let snap = grid_snapshot();
    let t = rebuild(world(), 3, &snap);
    let areas = [
        Rect::new(-100, -50, 120, 300),
        Rect::new(0, 0, 0, 0),
        Rect::new(-390, -385, -390, -385),
        Rect::new(5, -400, 45, 400),
        Rect::new(300, 300, 200, 200),
        Rect::new(-500, -500, 500, -300),
    ];
    for area in areas.iter() {
        let mut brute: Vec<u64> = snap
            .iter()
            .filter(|(_, p)| world().contains(*p) && area.contains(*p))
            .map(|(id, _)| *id)
            .collect();
        brute.sort();
        assert_eq!(sorted_query(&t, area), brute);
    }
}

#[test]
fn rebuild_twice_gives_same_answers() {
    let snap = grid_snapshot();
    let a = rebuild(world(), 4, &snap);
    let b = rebuild(world(), 4, &snap);
    let area = Rect::new(-200, -120, 77, 301);
    let mut qa = Vec::new();
    let mut qb = Vec::new();
    a.query(&area, &mut qa);
    b.query(&area, &mut qb);
    assert_eq!(qa, qb);
    assert!(!qa.is_empty());
}

#[test]
fn out_of_bounds_insert_is_ignored() {
    let mut t = Quadtree::new(world(), 2);
    t.insert(1, Point::new(0, 0));
    t.insert(2, Point::new(401, 0));
    t.insert(3, Point::new(0, -401));
    let everywhere = Rect::new(-1000, -1000, 1000, 1000);
    assert_eq!(sorted_query(&t, &everywhere), vec![1]);
    assert!(!t.point_in_bounds(Point::new(401, 0)));
}

#[test]
fn out_of_bounds_entries_left_out_of_rebuild() {
    let snap = vec![(0, Point::new(0, 0)), (1, Point::new(-401, 5)), (2, Point::new(399, 399))];
    let t = rebuild(world(), 1, &snap);
    assert_eq!(sorted_query(&t, &Rect::new(-1000, -1000, 1000, 1000)), vec![0, 2]);
}

#[test]
fn full_leaf_splits_into_quadrants() {
    let mut t = Quadtree::new(Rect::new(0, 0, 10, 10), 2);
    t.insert(1, Point::new(1, 1));
    t.insert(2, Point::new(9, 9));
    let mut nodes = Vec::new();
    t.node_outlines(&mut nodes);
    assert_eq!(nodes, vec![(Rect::new(0, 0, 10, 10), false)]);
    t.insert(3, Point::new(1, 9));
    let mut nodes = Vec::new();
    t.node_outlines(&mut nodes);
    assert_eq!(
        nodes,
        vec![
            (Rect::new(0, 0, 10, 10), true),
            (Rect::new(6, 6, 10, 10), false),
            (Rect::new(0, 6, 5, 10), false),
            (Rect::new(0, 0, 5, 5), false),
            (Rect::new(6, 0, 10, 5), false),
        ]
    );
    assert_eq!(sorted_query(&t, &Rect::new(0, 0, 10, 10)), vec![1, 2, 3]);
}

#[test]
fn quadrants_count_from_upper_right() {
    let t = Quadtree::new(Rect::new(0, 0, 10, 10), 1);
    assert_eq!(t.get_quadrant_index_for_position(Point::new(6, 6)), 0);
    assert_eq!(t.get_quadrant_index_for_position(Point::new(5, 6)), 1);
    assert_eq!(t.get_quadrant_index_for_position(Point::new(5, 5)), 2);
    assert_eq!(t.get_quadrant_index_for_position(Point::new(6, 5)), 3);
}

#[test]
fn points_on_midlines_are_found() {
    let mut t = Quadtree::new(Rect::new(0, 0, 10, 10), 1);
    t.insert(1, Point::new(5, 5));
    t.insert(2, Point::new(5, 6));
    t.insert(3, Point::new(6, 5));
    assert_eq!(sorted_query(&t, &Rect::new(5, 5, 5, 5)), vec![1]);
    assert_eq!(sorted_query(&t, &Rect::new(5, 5, 6, 6)), vec![1, 2, 3]);
}

#[test]
fn many_identical_points_terminate() {
    let mut t = Quadtree::new(world(), 2);
    for id in 0..50u64 {
        t.insert(id, Point::new(17, -3));
    }
    let found = sorted_query(&t, &Rect::new(17, -3, 17, -3));
    assert_eq!(found, (0..50u64).collect::<Vec<u64>>());
    assert_eq!(sorted_query(&t, &Rect::new(18, -3, 400, 400)), Vec::<u64>::new());
}

#[test]
fn zero_capacity_still_holds_items() {
    let mut t = Quadtree::new(Rect::new(0, 0, 3, 3), 0);
    t.insert(1, Point::new(0, 0));
    t.insert(2, Point::new(3, 3));
    assert_eq!(t.capacity(), 0);
    assert_eq!(t.bounds(), Rect::new(0, 0, 3, 3));
    assert_eq!(sorted_query(&t, &Rect::new(0, 0, 3, 3)), vec![1, 2]);
}

#[test]
fn query_appends_to_existing_results() {
    let mut t = Quadtree::new(world(), 4);
    t.insert(4, Point::new(1, 1));
    let mut found = vec![99];
    t.query(&world(), &mut found);
    assert_eq!(found, vec![99, 4]);
}

#[test]
fn rect_predicates() {
    let r = Rect::new(0, 0, 10, 5);
    assert!(r.contains(Point::new(10, 5)));
    assert!(!r.contains(Point::new(11, 5)));
    assert!(r.intersects(&Rect::new(10, 5, 20, 20)));
    assert!(!r.intersects(&Rect::new(11, 0, 20, 20)));
    assert!(!r.intersects(&Rect::new(5, 5, 4, 4)));
    assert_eq!(Rect::around(Point::new(3, -4), 2), Rect::new(1, -6, 5, -2));
    assert_eq!(Rect::around(Point::new(i64::MAX, i64::MIN), 5), Rect::new(i64::MAX - 5, i64::MIN, i64::MAX, i64::MIN + 5));
}

#[test]
fn rebuild_twice_gives_same_tree() {
    let snap = grid_snapshot();
    let a = rebuild(world(), 3, &snap);
    let b = rebuild(world(), 3, &snap);
    let (mut na, mut nb) = (Vec::new(), Vec::new());
    a.node_outlines(&mut na);
    b.node_outlines(&mut nb);
    assert_eq!(na, nb);
    assert!(na.len() > 1);
}

#[test]
fn insert_with_room_does_not_split() {
    let mut t = Quadtree::new(Rect::new(0, 0, 10, 10), 3);
    t.insert(1, Point::new(1, 1));
    t.insert(2, Point::new(2, 2));
    t.insert(3, Point::new(3, 3));
    let mut nodes = Vec::new();
    t.node_outlines(&mut nodes);
    assert_eq!(nodes, vec![(Rect::new(0, 0, 10, 10), false)]);
}
