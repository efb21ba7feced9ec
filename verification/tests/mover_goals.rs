use mover_nav::mover::{Mover, Priority, RudderSystem, SimpleIdle, Steering};
use mover_nav::navigation::NavigationSystem;

#[test]
fn new_mover_is_idle() {
    let m = Mover::new();
    assert_eq!(m.get_goal(), None);
    assert_eq!(m.get_move(), None);
    assert!(m.is_move_vec_empty());
    assert_eq!(m.session, 0);
}

#[test]
fn highest_priority_goal_comes_first() {
    let mut m = Mover::new();
    m.add_goal((1, 2), Priority::Low);
    m.add_goal((3, 4), Priority::High);
    m.add_goal((5, 6), Priority::Medium);
    assert_eq!(m.get_goal(), Some((3, 4)));
    m.pop_goal();
    assert_eq!(m.get_goal(), Some((5, 6)));
    m.pop_goal();
    assert_eq!(m.get_goal(), Some((1, 2)));
    m.pop_goal();
    assert_eq!(m.get_goal(), None);
    m.pop_goal();
    assert_eq!(m.get_goal(), None);
}

#[test]
fn requeued_goal_takes_new_priority() {
    let mut m = Mover::new();
    m.add_goal((1, 1), Priority::Low);
    m.add_goal((2, 2), Priority::Medium);
    assert_eq!(m.get_goal(), Some((2, 2)));
    m.add_goal((1, 1), Priority::Critical);
    assert_eq!(m.get_goal(), Some((1, 1)));
    m.pop_goal();
    assert_eq!(m.get_goal(), Some((2, 2)));
    m.pop_goal();
    assert_eq!(m.get_goal(), None);
}

#[test]
fn single_goal_is_next_and_pops_to_none() {
    let mut m = Mover::new();
    m.add_goal((-7, 9), Priority::Medium);
    assert_eq!(m.get_goal(), Some((-7, 9)));
    m.pop_goal();
    assert_eq!(m.get_goal(), None);
}

#[test]
fn next_goal_ranks_at_least_added() {
    let mut m = Mover::new();
    m.add_goal((0, 0), Priority::Critical);
    m.add_goal((1, 0), Priority::Low);
    assert_eq!(m.get_goal(), Some((0, 0)));
}

#[test]
fn waypoints_are_followed_in_order() {
    let mut m = Mover::new();
    m.set_move_vec(vec![(1, 1), (2, 3), (4, 4)]);
    assert!(!m.is_move_vec_empty());
    assert_eq!(m.get_move(), Some((1, 1)));
    m.pop_move();
    assert_eq!(m.get_move(), Some((2, 3)));
    m.pop_move();
    m.pop_move();
    assert_eq!(m.get_move(), None);
    assert!(m.is_move_vec_empty());
}

#[test]
fn goals_and_waypoints_are_independent() {
    let mut m = Mover::new();
    m.add_goal((9, 9), Priority::High);
    m.set_move_vec(vec![(1, 0)]);
    m.pop_goal();
    assert_eq!(m.get_move(), Some((1, 0)));
    m.add_goal((8, 8), Priority::Low);
    m.pop_move();
    assert_eq!(m.get_goal(), Some((8, 8)));
}

#[test]
fn difference_keeps_new_points_in_order() {
    let mut m = Mover::new();
    m.set_move_vec(vec![(1, 1), (2, 2)]);
    let path = vec![(0, 0), (1, 1), (3, 3), (0, 0), (2, 2)];
    assert_eq!(m.diff_move_vec(&path), vec![(0, 0), (3, 3), (0, 0)]);
}

#[test]
fn own_route_has_no_difference() {
    let mut m = Mover::new();
    let route = vec![(4, 5), (6, 7), (4, 5)];
    m.set_move_vec(route.clone());
    assert_eq!(m.diff_move_vec(&route), Vec::<(i32, i32)>::new());
}

#[test]
fn difference_against_no_waypoints_is_the_path() {
    let m = Mover::new();
    let path = vec![(1, 2), (3, 4)];
    assert_eq!(m.diff_move_vec(&path), path);
    assert_eq!(m.diff_move_vec(&Vec::new()), Vec::<(i32, i32)>::new());
}

#[test]
fn priorities_rank_in_declaration_order() {
    assert!(Priority::Low < Priority::Medium);
    assert!(Priority::Medium < Priority::High);
    assert!(Priority::High < Priority::Critical);
    assert_eq!(Priority::Low.rank(), 0);
    assert_eq!(Priority::Medium.rank(), 1);
    assert_eq!(Priority::High.rank(), 2);
    assert_eq!(Priority::Critical.rank(), 3);
}

#[test]
fn idle_body_gets_the_picked_goal() {
    let mut m = Mover::new();
    SimpleIdle::assign_goal(&mut m, (12, 34));
    assert_eq!(m.get_goal(), Some((12, 34)));
    SimpleIdle::assign_goal(&mut m, (56, 78));
    assert_eq!(m.get_goal(), Some((12, 34)));
    m.pop_goal();
    assert_eq!(m.get_goal(), None);
}

#[test]
fn idle_assignment_keeps_an_existing_goal() {
    let mut m = Mover::new();
    m.add_goal((1, 1), Priority::Low);
    SimpleIdle::assign_goal(&mut m, (2, 2));
    m.pop_goal();
    assert_eq!(m.get_goal(), None);
}

#[test]
fn steering_without_waypoints_brakes() {
    let mut m = Mover::new();
    assert_eq!(RudderSystem::steer(&mut m, (5, 5)), Steering::Brake);
    assert!(RudderSystem::steering_computable(&m, (i32::MIN, i32::MAX)));
}

#[test]
fn steering_reaches_waypoints_within_ten() {
    let mut m = Mover::new();
    m.set_move_vec(vec![(10, 0), (20, 20), (40, 40)]);
    assert_eq!(RudderSystem::steer(&mut m, (0, 0)), Steering::Arrived);
    assert_eq!(m.get_move(), Some((20, 20)));
    assert_eq!(RudderSystem::steer(&mut m, (11, 13)), Steering::Toward { dx: 9, dy: 7 });
    assert_eq!(m.get_move(), Some((20, 20)));
    assert_eq!(RudderSystem::steer(&mut m, (14, 12)), Steering::Arrived);
    assert_eq!(m.get_move(), Some((40, 40)));
    assert_eq!(RudderSystem::steer(&mut m, (0, 0)), Steering::Toward { dx: 40, dy: 40 });
    m.add_goal((1, 1), Priority::Low);
    assert_eq!(RudderSystem::steer(&mut m, (40, 40)), Steering::Arrived);
    assert_eq!(m.get_goal(), Some((1, 1)));
}

#[test]
fn steering_threshold_matches_single_precision_distance() {
    for dx in -15..=15 {
        for dy in -15..=15 {
            let mut m = Mover::new();
            m.set_move_vec(vec![(dx, dy)]);
            let arrived = ((dx * dx + dy * dy) as f32).sqrt() <= 10.0;
            let r = RudderSystem::steer(&mut m, (0, 0));
            assert_eq!(r == Steering::Arrived, arrived, "dx = {}, dy = {}", dx, dy);
            assert_eq!(m.is_move_vec_empty(), arrived);
        }
    }
}

#[test]
fn steering_check_rejects_overflowing_offsets() {
    let mut m = Mover::new();
    m.set_move_vec(vec![(50_000, 0)]);
    assert!(!RudderSystem::steering_computable(&m, (0, 0)));
    assert!(RudderSystem::steering_computable(&m, (40_000, 0)));
    m.set_move_vec(vec![(i32::MAX, 0)]);
    assert!(!RudderSystem::steering_computable(&m, (-1, 0)));
}

#[test]
fn popped_goal_is_the_reported_goal_among_ties() {
    let mut m = Mover::new();
    m.add_goal((1, 1), Priority::Low);
    m.add_goal((2, 2), Priority::Low);
    m.add_goal((3, 3), Priority::Low);
    let mut seen = Vec::new();
    while let Some(g) = m.get_goal() {
        assert_eq!(m.get_goal(), Some(g));
        m.pop_goal();
        assert!(!seen.contains(&g));
        seen.push(g);
        if let Some(next) = m.get_goal() {
            assert!(!seen.contains(&next), "a reported goal {:?} came back", next);
        }
    }
    seen.sort();
    assert_eq!(seen, vec![(1, 1), (2, 2), (3, 3)]);
}

#[test]
fn plan_drops_the_searched_goal_among_ties() {
    let mut m = Mover::new();
    m.add_goal((4, 0), Priority::Low);
    m.add_goal((0, 4), Priority::Low);
    let searched = m.get_goal().unwrap();
    let other = if searched == (4, 0) { (0, 4) } else { (4, 0) };
    m.set_move_vec(vec![(9, 9)]);
    NavigationSystem::plan(&mut m, None);
    assert_eq!(m.get_goal(), Some(other));
    assert_eq!(m.get_move(), Some((9, 9)));
}
