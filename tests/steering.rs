use quadtree_physics::geometry::Point;
use quadtree_physics::steering::{steer_heading, wrap_position};

#[test]
fn steers_toward_mean_of_others() {
    let headings = vec![100, 200, 400];
    assert_eq!(steer_heading(&headings, 0, &vec![0, 1, 2], 500, 2), 300);
}

#[test]
fn alone_keeps_heading() {
    let headings = vec![100, 200, 400];
    assert_eq!(steer_heading(&headings, 0, &vec![0], 1000, 5), 100);
    assert_eq!(steer_heading(&headings, 0, &vec![], 1000, 5), 100);
}

#[test]
fn unknown_handles_are_passed_over() {
    let headings = vec![100, 200, 400];
    assert_eq!(steer_heading(&headings, 0, &vec![1, 5], 1000, 1), 200);
    assert_eq!(steer_heading(&headings, 2, &vec![0, 1], 250, 1), 338);
}

#[test]
fn wrap_flips_sign_beyond_extent() {
    assert_eq!(wrap_position(Point::new(401, -5), 400, 400), Point::new(-401, -5));
    assert_eq!(wrap_position(Point::new(3, -450), 400, 400), Point::new(3, 450));
    assert_eq!(wrap_position(Point::new(400, -400), 400, 400), Point::new(400, -400));
}
