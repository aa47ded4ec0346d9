use motion_planning::utils::{CubeSpace, Goal, GridPoint, Rect};
use motion_planning::{Point, Region, Space};

fn gp(x: i32, y: i32) -> GridPoint {
    GridPoint { x, y }
}

#[test]
fn chebyshev_distance() {
    assert_eq!(gp(1, 1).distance(&gp(4, -1)), 3);
    assert_eq!(gp(4, -1).distance(&gp(1, 1)), 3);
    assert_eq!(gp(2, 2).distance(&gp(2, 2)), 0);
    assert_eq!(gp(i32::MIN, 0).distance(&gp(i32::MAX, 0)), u32::MAX as u64);
}

#[test]
fn get_new_moves_exactly_d() {
    let a = gp(0, 0);
    let b = gp(10, 4);
    let r = a.get_new(&b, 3);
    assert_eq!(r, gp(3, 3));
    assert_eq!(a.distance(&r), 3);
    assert_eq!(r.distance(&b), 7);
}

#[test]
fn get_new_saturates_at_target() {
    let a = gp(5, 5);
    let b = gp(7, 4);
    assert_eq!(a.get_new(&b, 10), b);
    assert_eq!(a.get_new(&b, 2), b);
    assert_eq!(a.get_new(&b, 1), gp(6, 4));
}

#[test]
fn get_new_distance_is_min_of_d_and_gap() {
    let points = [gp(0, 0), gp(3, -7), gp(-12, 5), gp(100, 100), gp(1, 0)];
    for a in points.iter() {
        for b in points.iter() {
            for d in [1u64, 2, 5, 13, 200] {
                let r = a.get_new(b, d);
                let gap = a.distance(b);
                assert_eq!(a.distance(&r), d.min(gap));
                assert_eq!(a.distance(&r) + r.distance(b), gap);
            }
        }
    }
}

#[test]
fn get_new_toward_itself_returns_itself() {
    let a = gp(4, -2);
    assert_eq!(a.get_new(&a, 5), a);
    assert_eq!(a.get_new(&a, 0), a);
}

#[test]
fn get_new_with_huge_step() {
    let a = gp(i32::MIN, i32::MAX);
    let b = gp(i32::MAX, i32::MIN);
    assert_eq!(a.get_new(&b, u64::MAX), b);
}

#[test]
fn goal_ball_membership() {
    let g = Goal { position: gp(9, 9), radius: 2 };
    assert!(g.is_in(&gp(9, 9)));
    assert!(g.is_in(&gp(11, 7)));
    assert!(!g.is_in(&gp(12, 9)));
}

#[test]
fn rect_contains_boundary() {
    let r = Rect::new(gp(2, 2), gp(5, 5));
    assert!(r.is_in(&gp(2, 2)));
    assert!(r.is_in(&gp(5, 3)));
    assert!(r.is_in(&gp(3, 4)));
    assert!(!r.is_in(&gp(6, 3)));
    assert!(!r.is_in(&gp(3, 1)));
}

#[test]
fn cross_product_value() {
    assert_eq!(Rect::cross_product_2d(&gp(0, 0), &gp(2, 0), &gp(0, 3)), 6);
    assert_eq!(Rect::cross_product_2d(&gp(0, 0), &gp(0, 3), &gp(2, 0)), -6);
    assert_eq!(Rect::cross_product_2d(&gp(1, 1), &gp(2, 2), &gp(5, 5)), 0);
}

#[test]
fn segments_cross_and_touch() {
    assert!(Rect::segments_intersect(&gp(0, 0), &gp(4, 4), &gp(0, 4), &gp(4, 0)));
    assert!(!Rect::segments_intersect(&gp(0, 0), &gp(1, 1), &gp(0, 4), &gp(4, 0)));
    // An endpoint lying on the other segment.
    assert!(Rect::segments_intersect(&gp(0, 0), &gp(2, 2), &gp(0, 4), &gp(4, 0)));
    // Collinear and overlapping.
    assert!(Rect::segments_intersect(&gp(0, 0), &gp(3, 0), &gp(2, 0), &gp(6, 0)));
    // Collinear and apart.
    assert!(!Rect::segments_intersect(&gp(0, 0), &gp(1, 0), &gp(2, 0), &gp(6, 0)));
    // Parallel.
    assert!(!Rect::segments_intersect(&gp(0, 0), &gp(4, 0), &gp(0, 1), &gp(4, 1)));
}

#[test]
fn on_segment_is_bounding_box_test() {
    assert!(Rect::on_segment(&gp(0, 0), &gp(1, 1), &gp(2, 2)));
    assert!(Rect::on_segment(&gp(2, 2), &gp(2, 0), &gp(0, 0)));
    assert!(!Rect::on_segment(&gp(0, 0), &gp(3, 1), &gp(2, 2)));
}

#[test]
fn rect_intersect_line_cases() {
    let r = Rect::new(gp(2, 2), gp(5, 5));
    // Passing through.
    assert!(r.intersect_line(&gp(0, 3), &gp(8, 3)));
    // Endpoint inside.
    assert!(r.intersect_line(&gp(3, 3), &gp(9, 9)));
    // Touching a corner.
    assert!(r.intersect_line(&gp(0, 4), &gp(4, 0)));
    assert!(r.intersect_line(&gp(0, 7), &gp(7, 0)));
    // Grazing along an edge.
    assert!(r.intersect_line(&gp(0, 5), &gp(9, 5)));
    // Missing.
    assert!(!r.intersect_line(&gp(0, 6), &gp(9, 6)));
    assert!(!r.intersect_line(&gp(0, 0), &gp(1, 9)));
    assert!(!r.intersect_line(&gp(6, 0), &gp(9, 3)));
}

#[test]
fn space_collision_test() {
    let space = CubeSpace {
        width: 10,
        height: 10,
        obstacles: vec![Rect::new(gp(2, 2), gp(5, 5)), Rect::new(gp(6, 6), gp(8, 7))],
    };
    assert!(space.is_collision_free(&gp(0, 0), &gp(9, 1)));
    assert!(!space.is_collision_free(&gp(0, 0), &gp(9, 9)));
    assert!(!space.is_collision_free(&gp(7, 9), &gp(7, 5)));
    assert!(space.is_collision_free(&gp(9, 0), &gp(9, 9)));
}

#[test]
fn space_samples_lie_inside() {
    let space = CubeSpace { width: 7, height: 3, obstacles: vec![] };
    let mut rng = rand::rng();
    for _ in 0..500 {
        let p = space.sample(&mut rng);
        assert!(0 <= p.x && p.x < 7);
        assert!(0 <= p.y && p.y < 3);
    }
    let flat = CubeSpace { width: 0, height: 4, obstacles: vec![] };
    for _ in 0..50 {
        let p = flat.sample(&mut rng);
        assert_eq!(p.x, 0);
        assert!(0 <= p.y && p.y < 4);
    }
}
