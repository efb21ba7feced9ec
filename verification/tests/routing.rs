use mover_nav::grid::{GridMap, Id, PhysicalSystem};
use mover_nav::heuristic::distance;
use mover_nav::mover::{Mover, Priority};
use mover_nav::navigation::{find_path, InputData, NavigationSystem};
use mover_nav::physical::Physical;

fn open_map() -> GridMap {
    let mut map = GridMap { width: 8, height: 8, storage: Vec::new() };
    PhysicalSystem::clear_map(&mut map);
    map
}

#[test]
fn heuristic_is_manhattan_when_small() {
    assert_eq!(distance(&(0, 0), &(3, 4)), 7);
    assert_eq!(distance(&(3, 4), &(0, 0)), 7);
    assert_eq!(distance(&(-5, 2), &(-5, 2)), 0);
    assert_eq!(distance(&(-100, 50), &(100, -50)), 300);
}

#[test]
fn heuristic_rounds_large_distances_to_single_precision() {
    assert_eq!(distance(&(0, 0), &(16_777_217, 0)), 16_777_216);
    assert_eq!(distance(&(0, 0), &(16_777_219, 0)), 16_777_220);
    assert_eq!(distance(&(i32::MAX, i32::MAX), &(0, 0)), u32::MAX);
}

#[test]
fn planner_distance_scales_by_single_precision_constant() {
    assert_eq!(NavigationSystem::distance(&(0, 0), &(3, 4)), 7);
    assert_eq!(NavigationSystem::distance(&(0, 0), &(100, 0)), 114);
    assert_eq!(NavigationSystem::distance(&(10, 10), &(10, 10)), 0);
    assert_eq!(NavigationSystem::distance(&(0, 0), &(1000, 0)), 1140);
}

#[test]
fn open_cell_has_all_nine_neighbours() {
    let map = open_map();
    let obj = Physical::new(Vec::new());
    let out = NavigationSystem::successors(&Id { value: 1 }, &(3, 3), &obj, &map);
    let expected: Vec<((i32, i32), u32)> = vec![
        ((2, 2), 1),
        ((3, 2), 1),
        ((4, 2), 1),
        ((2, 3), 1),
        ((3, 3), 1),
        ((4, 3), 1),
        ((2, 4), 1),
        ((3, 4), 1),
        ((4, 4), 1),
    ];
    assert_eq!(out, expected);
}

#[test]
fn neighbours_off_the_grid_are_offered_too() {
    let map = open_map();
    let obj = Physical::new(Vec::new());
    let out = NavigationSystem::successors(&Id { value: 1 }, &(0, 0), &obj, &map);
    assert_eq!(out.len(), 9);
    assert_eq!(out[0], ((-1, -1), 1));
}

#[test]
fn straight_run_keeps_its_end() {
    let path = vec![(0, 0), (1, 0), (2, 0), (3, 0)];
    assert_eq!(NavigationSystem::simplify_path(path), vec![(3, 0)]);
}

#[test]
fn vertical_run_from_the_start_keeps_nothing() {
    let path = vec![(0, 0), (0, 1), (0, 2)];
    assert_eq!(NavigationSystem::simplify_path(path), Vec::<(i32, i32)>::new());
}

#[test]
fn turns_are_kept() {
    let path = vec![(0, 0), (1, 0), (2, 0), (2, 1), (2, 2), (3, 3), (4, 4)];
    assert_eq!(NavigationSystem::simplify_path(path), vec![(2, 0), (2, 2), (4, 4)]);
}

#[test]
fn single_point_path_simplifies_to_nothing() {
    assert_eq!(NavigationSystem::simplify_path(vec![(5, 5)]), Vec::<(i32, i32)>::new());
}

#[test]
fn simplified_path_is_shorter_and_from_the_path() {
    let path = vec![(0, 0), (1, 1), (2, 1), (3, 3), (3, 4), (5, 4)];
    let out = NavigationSystem::simplify_path(path.clone());
    assert!(out.len() < path.len());
    assert!(out.iter().all(|p| path.contains(p)));
}

#[test]
fn plan_without_goal_clears_waypoints() {
    let mut m = Mover::new();
    m.set_move_vec(vec![(1, 1)]);
    NavigationSystem::plan(&mut m, Some(vec![(0, 0), (1, 0)]));
    assert!(m.is_move_vec_empty());
    assert_eq!(m.get_goal(), None);
}

#[test]
fn plan_adopts_a_found_path_and_drops_the_goal() {
    let mut m = Mover::new();
    m.add_goal((3, 0), Priority::Low);
    NavigationSystem::plan(&mut m, Some(vec![(0, 0), (1, 0), (2, 0), (3, 0)]));
    assert_eq!(m.get_move(), Some((3, 0)));
    assert_eq!(m.get_goal(), None);
}

#[test]
fn plan_drops_two_goals_when_search_fails() {
    let mut m = Mover::new();
    m.add_goal((1, 1), Priority::High);
    m.add_goal((2, 2), Priority::Medium);
    m.add_goal((3, 3), Priority::Low);
    NavigationSystem::plan(&mut m, None);
    assert_eq!(m.get_goal(), Some((3, 3)));
    assert!(m.is_move_vec_empty());
}

#[test]
fn plan_under_way_drops_goal_when_search_fails() {
    let mut m = Mover::new();
    m.add_goal((1, 1), Priority::High);
    m.add_goal((2, 2), Priority::Low);
    m.set_move_vec(vec![(5, 5)]);
    NavigationSystem::plan(&mut m, None);
    assert_eq!(m.get_goal(), Some((2, 2)));
    assert_eq!(m.get_move(), Some((5, 5)));
}

#[test]
fn plan_under_way_replaces_a_different_route() {
    let mut m = Mover::new();
    m.add_goal((4, 4), Priority::Low);
    m.set_move_vec(vec![(9, 9)]);
    NavigationSystem::plan(&mut m, Some(vec![(0, 0), (1, 0), (2, 0), (2, 1), (2, 2)]));
    assert_eq!(m.get_move(), Some((2, 2)));
    assert_eq!(m.get_goal(), Some((4, 4)));
}

#[test]
fn plan_under_way_keeps_a_route_with_nothing_new() {
    let mut m = Mover::new();
    m.add_goal((4, 4), Priority::Low);
    m.set_move_vec(vec![(2, 1), (2, 2), (7, 7)]);
    NavigationSystem::plan(&mut m, Some(vec![(0, 0), (1, 0), (2, 0), (2, 1), (2, 2)]));
    assert_eq!(m.get_move(), Some((2, 1)));
    m.pop_move();
    m.pop_move();
    assert_eq!(m.get_move(), Some((7, 7)));
}

#[test]
fn stand_alone_search_reports_no_path() {
    let d = InputData { id: Id { value: 2 }, obj: Physical::new(Vec::new()), map: open_map() };
    assert_eq!(find_path((2, 2), (5, 5), d), Vec::<(i32, i32)>::new());
}

#[test]
fn expansion_check_accepts_open_grid_positions() {
    let map = open_map();
    let obj = Physical::new(Vec::new());
    assert!(NavigationSystem::expansion_is_safe(&Id { value: 1 }, &(0, 0), &obj, &map));
    assert!(NavigationSystem::expansion_is_safe(&Id { value: 1 }, &(-40, 90), &obj, &map));
}

#[test]
fn expansion_check_rejects_overflowing_neighbours() {
    let map = open_map();
    let obj = Physical::new(Vec::new());
    assert!(!NavigationSystem::expansion_is_safe(&Id { value: 1 }, &(i32::MAX, 0), &obj, &map));
    assert!(!NavigationSystem::expansion_is_safe(&Id { value: 1 }, &(0, i32::MIN), &obj, &map));
}

#[test]
fn step_check_on_paths() {
    assert!(!NavigationSystem::path_steps_fit(&Vec::new()));
    assert!(NavigationSystem::path_steps_fit(&vec![(0, 0)]));
    assert!(NavigationSystem::path_steps_fit(&vec![(0, 0), (1, 1), (-5, 3)]));
    assert!(!NavigationSystem::path_steps_fit(&vec![(0, 0), (i32::MIN, 0), (i32::MAX, 0)]));
    assert!(!NavigationSystem::path_steps_fit(&vec![(0, i32::MAX), (0, -2)]));
}

#[test]
fn estimate_check_on_coordinates() {
    assert!(NavigationSystem::estimate_computable(&(0, 0), &(3, 4)));
    assert!(NavigationSystem::estimate_computable(&(1_000_000_000, 0), &(0, 1_000_000_000)));
    assert!(!NavigationSystem::estimate_computable(&(i32::MIN, 0), &(0, 0)));
    assert!(!NavigationSystem::estimate_computable(&(2_000_000_000, 0), &(0, 1_000_000_000)));
}

#[test]
fn simplifying_a_checked_search_path() {
    let map = open_map();
    let obj = Physical::new(Vec::new());
    let id = Id { value: 4 };
    let goal = (5, 2);
    let mut pos = (1, 1);
    let mut path = vec![pos];
    while pos != goal {
        let next = NavigationSystem::successors(&id, &pos, &obj, &map)
            .into_iter()
            .map(|(p, _)| p)
            .min_by_key(|p| NavigationSystem::distance(p, &goal))
            .unwrap();
        pos = next;
        path.push(pos);
    }
    assert!(NavigationSystem::path_steps_fit(&path));
    let simple = NavigationSystem::simplify_path(path.clone());
    assert!(simple.len() < path.len());
    assert_eq!(simple.last(), Some(&goal));
}

#[test]
fn simplified_path_ends_at_last_point_after_a_horizontal_step() {
    let path = vec![(0, 0), (0, 1), (1, 2), (1, 3), (2, 3), (4, 3)];
    let out = NavigationSystem::simplify_path(path.clone());
    assert_eq!(out.last(), Some(&(4, 3)));
}

#[test]
fn simplified_path_is_an_ordered_subsequence_after_the_start() {
    let path = vec![(0, 0), (1, 0), (2, 1), (2, 2), (3, 2), (5, 2), (5, 3)];
    let out = NavigationSystem::simplify_path(path.clone());
    let mut from = 1;
    for p in out.iter() {
        let k = path[from..].iter().position(|q| q == p).expect("point not found in order") + from;
        from = k + 1;
    }
}

#[test]
fn shifting_a_path_shifts_its_simplification() {
    let path = vec![(0, 0), (1, 0), (2, 1), (2, 2), (3, 2), (5, 2), (5, 3)];
    let moved: Vec<(i32, i32)> = path.iter().map(|p| (p.0 + 100, p.1 - 40)).collect();
    let expected: Vec<(i32, i32)> =
        NavigationSystem::simplify_path(path).iter().map(|p| (p.0 + 100, p.1 - 40)).collect();
    assert_eq!(NavigationSystem::simplify_path(moved), expected);
}

fn drain_moves(m: &mut Mover) -> Vec<(i32, i32)> {
    let mut out = Vec::new();
    while let Some(p) = m.get_move() {
        out.push(p);
        m.pop_move();
    }
    out
}

#[test]
fn navigate_adopts_a_route_to_its_goal() {
    let map = open_map();
    let obj = Physical::new(Vec::new());
    let mut m = Mover::new();
    m.add_goal((3, 0), Priority::Low);
    NavigationSystem::navigate(&mut m, (0, 0), Id { value: 1 }, &obj, &map);
    assert_eq!(m.get_goal(), None);
    let moves = drain_moves(&mut m);
    assert!(!moves.is_empty());
    assert_eq!(*moves.last().unwrap(), (3, 0));
}

#[test]
fn navigate_goes_around_nothing_on_an_empty_shape() {
    let mut map = open_map();
    let wall = vec![(2, 0), (2, 1), (2, 2), (2, 3)];
    PhysicalSystem::mark_cells(&mut map, &wall, Id { value: 7 });
    let obj = Physical::new(Vec::new());
    let mut m = Mover::new();
    m.add_goal((4, 1), Priority::High);
    NavigationSystem::navigate(&mut m, (0, 1), Id { value: 1 }, &obj, &map);
    assert_eq!(m.get_goal(), None);
    let moves = drain_moves(&mut m);
    assert_eq!(*moves.last().unwrap(), (4, 1));
    assert!(moves.len() <= 4);
}

#[test]
fn navigate_without_goal_clears_waypoints() {
    let map = open_map();
    let obj = Physical::new(Vec::new());
    let mut m = Mover::new();
    m.set_move_vec(vec![(6, 6), (7, 7)]);
    NavigationSystem::navigate(&mut m, (0, 0), Id { value: 1 }, &obj, &map);
    assert!(m.is_move_vec_empty());
    assert_eq!(m.get_goal(), None);
}

#[test]
fn navigate_under_way_keeps_goal_and_waypoints_on_a_straight_run() {
    let map = open_map();
    let obj = Physical::new(Vec::new());
    let mut m = Mover::new();
    m.add_goal((5, 0), Priority::Medium);
    m.set_move_vec(vec![(9, 9)]);
    NavigationSystem::navigate(&mut m, (0, 0), Id { value: 1 }, &obj, &map);
    assert_eq!(m.get_goal(), Some((5, 0)));
    assert_eq!(drain_moves(&mut m), vec![(9, 9)]);
}

#[test]
fn search_box_check() {
    let obj = Physical::new(Vec::new());
    assert!(NavigationSystem::search_is_safe((0, 0), (5, 5), &obj));
    assert!(NavigationSystem::search_is_safe((-16_777_216, 16_777_216), (16_777_216, -16_777_216), &obj));
    assert!(!NavigationSystem::search_is_safe((16_777_217, 0), (0, 0), &obj));
    assert!(!NavigationSystem::search_is_safe((0, 0), (0, -16_777_217), &obj));
    assert_eq!(obj.cell_count(), 0);
}

#[test]
fn reaching_the_goal() {
    assert!(NavigationSystem::reached(&(2, 3), &(2, 3)));
    assert!(!NavigationSystem::reached(&(2, 3), &(3, 2)));
}

#[test]
fn try_navigate_runs_inside_the_search_box() {
    let map = open_map();
    let obj = Physical::new(Vec::new());
    let mut m = Mover::new();
    m.add_goal((2, 5), Priority::Low);
    assert!(NavigationSystem::try_navigate(&mut m, (2, 0), Id { value: 3 }, &obj, &map));
    assert_eq!(m.get_goal(), None);
    assert!(m.is_move_vec_empty());
}

#[test]
fn try_navigate_without_goal_clears_waypoints() {
    let map = open_map();
    let obj = Physical::new(Vec::new());
    let mut m = Mover::new();
    m.set_move_vec(vec![(1, 2)]);
    assert!(NavigationSystem::try_navigate(&mut m, (i32::MAX, 0), Id { value: 3 }, &obj, &map));
    assert!(m.is_move_vec_empty());
}

#[test]
fn try_navigate_refuses_outside_the_search_box() {
    let map = open_map();
    let obj = Physical::new(Vec::new());
    let mut m = Mover::new();
    m.add_goal((0, 0), Priority::High);
    m.set_move_vec(vec![(1, 2)]);
    assert!(!NavigationSystem::try_navigate(&mut m, (20_000_000, 0), Id { value: 3 }, &obj, &map));
    assert_eq!(m.get_goal(), Some((0, 0)));
    assert_eq!(drain_moves(&mut m), vec![(1, 2)]);
}
