use motion_planning::rrt::{self, RRT};
use motion_planning::rrt_connect::{self, RRTConnect};
use motion_planning::tree::SimpleTree;
use motion_planning::utils::{CubeSpace, Goal, GridPoint, Rect};
use motion_planning::{Point, Region, Space, Tree};

type Planner = RRT<SimpleTree<GridPoint>, Goal<GridPoint>, CubeSpace>;
type Connect = RRTConnect<SimpleTree<GridPoint>, CubeSpace>;

fn gp(x: i32, y: i32) -> GridPoint {
    GridPoint { x, y }
}

fn small_space() -> CubeSpace {
    CubeSpace { width: 10, height: 10, obstacles: vec![Rect::new(gp(2, 2), gp(5, 5))] }
}

fn success(r: rrt::StepResult<GridPoint>) -> rrt::SuccessStep<GridPoint> {
    match r {
        rrt::StepResult::Success(s) => s,
        rrt::StepResult::Failure => panic!("expected a successful step"),
    }
}

fn connect_success(r: rrt_connect::StepResult<GridPoint>) -> rrt_connect::SuccessStep<GridPoint> {
    match r {
        rrt_connect::StepResult::Success(s) => s,
        rrt_connect::StepResult::Failure => panic!("expected a successful step"),
    }
}

#[test]
fn rrt_starts_with_one_node() {
    let p = Planner::new(gp(1, 1), Goal { position: gp(9, 9), radius: 0 }, small_space(), 2);
    assert_eq!(p.tree_size(), 1);
    assert_eq!(*p.tree.get(0), gp(1, 1));
    assert_eq!(p.d, 2);
}

#[test]
fn rrt_free_step_adds_one_node() {
    let mut p = Planner::new(gp(1, 1), Goal { position: gp(9, 9), radius: 0 }, small_space(), 2);
    let s = success(p.step_toward(gp(1, 6)));
    assert_eq!(s.new, gp(1, 3));
    assert_eq!(s.nearest, 0);
    assert!(!s.is_goal);
    assert_eq!(p.tree_size(), 2);
    assert_eq!(*p.tree.get(1), gp(1, 3));
}

#[test]
fn rrt_colliding_step_changes_nothing() {
    let mut p = Planner::new(gp(1, 1), Goal { position: gp(9, 9), radius: 0 }, small_space(), 2);
    success(p.step_toward(gp(1, 6)));
    // Both nodes are three away from (4, 4): the root wins the tie, and the
    // step from it ends at (3, 3), inside the obstacle.
    assert!(matches!(p.step_toward(gp(4, 4)), rrt::StepResult::Failure));
    assert_eq!(p.tree_size(), 2);
}

#[test]
fn rrt_goal_step_is_not_inserted() {
    let mut p = Planner::new(gp(1, 1), Goal { position: gp(1, 9), radius: 2 }, small_space(), 2);
    assert!(!success(p.step_toward(gp(1, 9))).is_goal);
    assert!(!success(p.step_toward(gp(1, 9))).is_goal);
    assert_eq!(p.tree_size(), 3);
    let s = success(p.step_toward(gp(1, 9)));
    assert!(s.is_goal);
    assert_eq!(s.new, gp(1, 7));
    assert_eq!(s.nearest, 2);
    assert_eq!(p.tree_size(), 3);
    assert_eq!(p.path(s), vec![gp(1, 1), gp(1, 3), gp(1, 5), gp(1, 7)]);
}

#[test]
fn rrt_sample_on_nearest_node_stays_put() {
    let mut p = Planner::new(gp(1, 1), Goal { position: gp(9, 9), radius: 0 }, small_space(), 2);
    let s = success(p.step_toward(gp(1, 1)));
    assert_eq!(s.new, gp(1, 1));
    assert_eq!(s.nearest, 0);
    assert_eq!(p.tree_size(), 2);
}

#[test]
fn rrt_random_steps_keep_sizes_consistent() {
    let mut p = Planner::new(gp(1, 1), Goal { position: gp(9, 9), radius: 0 }, small_space(), 2);
    for _ in 0..300 {
        let before = p.tree_size();
        match p.step() {
            rrt::StepResult::Failure => assert_eq!(p.tree_size(), before),
            rrt::StepResult::Success(s) if s.is_goal => assert_eq!(p.tree_size(), before),
            rrt::StepResult::Success(_) => assert_eq!(p.tree_size(), before + 1),
        }
    }
}

#[test]
fn rrt_reaches_goal_around_obstacle() {
    let space = CubeSpace { width: 1000, height: 1000, obstacles: vec![Rect::new(gp(200, 200), gp(500, 500))] };
    let check = CubeSpace { width: 1000, height: 1000, obstacles: vec![Rect::new(gp(200, 200), gp(500, 500))] };
    let goal = Goal { position: gp(900, 900), radius: 20 };
    let mut p = Planner::new(gp(100, 100), goal, space, 20);
    let mut path = vec![];
    while p.tree_size() < 10000 {
        if let rrt::StepResult::Success(s) = p.step() {
            if s.is_goal {
                path = p.path(s);
                break;
            }
        }
    }
    assert!(!path.is_empty());
    assert_eq!(path[0], gp(100, 100));
    assert!(p.goal.is_in(path.last().unwrap()));
    for w in path.windows(2) {
        assert!(w[0].distance(&w[1]) <= 20);
        assert!(check.is_collision_free(&w[0], &w[1]));
    }
}

#[test]
fn connect_starts_with_two_roots() {
    let c = Connect::new(gp(1, 1), gp(9, 9), small_space(), 2);
    assert_eq!(c.start_tree.size(), 1);
    assert_eq!(c.goal_tree.size(), 1);
    assert_eq!(*c.start_tree.get(0), gp(1, 1));
    assert_eq!(*c.goal_tree.get(0), gp(9, 9));
}

#[test]
fn connect_alternates_growing_tree() {
    let mut c = Connect::new(gp(1, 1), gp(9, 1), small_space(), 2);
    let s = connect_success(c.step_toward(gp(1, 9)));
    assert!(s.is_start && !s.is_goal);
    assert_eq!(s.new, gp(1, 3));
    assert_eq!((s.nearest_start, s.nearest_goal), (0, 0));
    assert_eq!((c.start_tree.size(), c.goal_tree.size()), (2, 1));
    let s = connect_success(c.step_toward(gp(9, 9)));
    assert!(!s.is_start && !s.is_goal);
    assert_eq!(s.new, gp(9, 3));
    assert_eq!((s.nearest_start, s.nearest_goal), (0, 0));
    assert_eq!((c.start_tree.size(), c.goal_tree.size()), (2, 2));
    assert_eq!(*c.goal_tree.get(1), gp(9, 3));
}

#[test]
fn connect_colliding_step_changes_nothing() {
    let mut c = Connect::new(gp(1, 1), gp(9, 9), small_space(), 2);
    assert!(matches!(c.step_toward(gp(4, 4)), rrt_connect::StepResult::Failure));
    assert_eq!((c.start_tree.size(), c.goal_tree.size()), (1, 1));
}

#[test]
fn connect_bridges_and_attributes_indices() {
    let mut c = Connect::new(gp(0, 8), gp(4, 8), small_space(), 2);
    // (2, 8) is exactly a step from the goal root: not strictly closer, so no bridge.
    let s = connect_success(c.step_toward(gp(4, 8)));
    assert!(s.is_start && !s.is_goal);
    assert_eq!((c.start_tree.size(), c.goal_tree.size()), (2, 1));
    let s = connect_success(c.step_toward(gp(0, 8)));
    assert!(s.is_goal && !s.is_start);
    assert_eq!(s.new, gp(2, 8));
    assert_eq!(s.nearest_start, 1);
    assert_eq!(s.nearest_goal, 0);
    assert_eq!((c.start_tree.size(), c.goal_tree.size()), (2, 1));
    assert_eq!(c.path(s), vec![gp(0, 8), gp(2, 8), gp(2, 8), gp(4, 8)]);
}

#[test]
fn connect_random_steps_grow_by_at_most_one() {
    let mut c = Connect::new(gp(1, 1), gp(9, 9), small_space(), 1);
    for _ in 0..300 {
        let before = c.start_tree.size() + c.goal_tree.size();
        let r = c.step();
        let after = c.start_tree.size() + c.goal_tree.size();
        assert!(before <= after && after <= before + 1);
        if let rrt_connect::StepResult::Success(s) = r {
            if s.is_goal {
                assert_eq!(after, before);
                break;
            }
        }
    }
}

#[test]
fn connect_joins_start_and_goal() {
    let space = CubeSpace { width: 1000, height: 1000, obstacles: vec![Rect::new(gp(200, 200), gp(500, 500))] };
    let check = CubeSpace { width: 1000, height: 1000, obstacles: vec![Rect::new(gp(200, 200), gp(500, 500))] };
    let mut c = Connect::new(gp(100, 100), gp(900, 900), space, 20);
    let mut found = None;
    for _ in 0..20000 {
        if let rrt_connect::StepResult::Success(s) = c.step() {
            if s.is_goal {
                found = Some(s);
                break;
            }
        }
    }
    let s = found.expect("the trees should join");
    let start_part = c.start_tree.path(s.nearest_start);
    let mut goal_part = c.goal_tree.path(s.nearest_goal);
    goal_part.reverse();
    let new = s.new;
    let path = c.path(s);
    assert_eq!(path.len(), start_part.len() + 1 + goal_part.len());
    assert_eq!(&path[..start_part.len()], &start_part[..]);
    assert_eq!(path[start_part.len()], new);
    assert_eq!(&path[start_part.len() + 1..], &goal_part[..]);
    assert_eq!(path[0], gp(100, 100));
    assert_eq!(*path.last().unwrap(), gp(900, 900));
    for w in path.windows(2) {
        assert!(w[0].distance(&w[1]) <= 20);
        assert!(check.is_collision_free(&w[0], &w[1]));
    }
}
