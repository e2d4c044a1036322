use multi_warrior::anim::{Animation, AnimationMode, UnitState};
use multi_warrior::utils::Direction;

#[test]
fn directions_rotate_up_left_down_right() {
    assert_eq!(Direction::Up.next(), Direction::Left);
    assert_eq!(Direction::Left.next(), Direction::Down);
    assert_eq!(Direction::Down.next(), Direction::Right);
    assert_eq!(Direction::Right.next(), Direction::Up);
    for d in Direction::all() {
        assert_eq!(d.next().next().next().next(), d);
    }
}

#[test]
fn direction_offsets() {
    let offsets: Vec<(i32, i32)> = Direction::all().iter().map(|d| (d.x(), d.y())).collect();
    assert_eq!(offsets, vec![(0, 1), (-1, 0), (1, 0), (0, -1)]);
    assert_eq!(Direction::default(), Direction::Down);
    assert_eq!(Direction::at(2), Direction::Right);
}

#[test]
fn facing_between_points() {
    assert_eq!(Direction::from_points(0, 0, 0, 3), Direction::Up);
    assert_eq!(Direction::from_points(0, 3, 0, 0), Direction::Down);
    assert_eq!(Direction::from_points(0, 0, 3, 1), Direction::Right);
    assert_eq!(Direction::from_points(0, 0, 1, 3), Direction::Up);
    assert_eq!(Direction::from_points(3, 0, 0, 5), Direction::Up);
    assert_eq!(Direction::from_points(3, 0, 0, 1), Direction::Left);
    assert_eq!(Direction::from_points(1, 1, 2, 2), Direction::Up);
    assert_eq!(Direction::from_points(1, 1, 1, 1), Direction::Down);
    assert_eq!(
        Direction::from_points(i32::MIN, 0, i32::MAX, 0),
        Direction::Right
    );
}

#[test]
fn state_animations() {
    assert!(UnitState::Still(Direction::Up).is_still());
    assert!(!UnitState::Moving(Direction::Up).is_still());
    assert_eq!(UnitState::default(), UnitState::Still(Direction::Down));
    let still = UnitState::Still(Direction::Left).get_animation();
    assert_eq!(still.frame_count(), 1);
    assert_eq!(still.current_frame(), 4);
    let mut walk = UnitState::Moving(Direction::Right).get_animation();
    let mut seen = vec![];
    for _ in 0..5 {
        seen.push(walk.current_frame());
        walk.change_frame();
    }
    assert_eq!(seen, vec![7, 8, 7, 6, 7]);
}

#[test]
fn stop_animation_stops_on_its_last_frame() {
    let mut anim = Animation::new(AnimationMode::Stop, vec![3, 4, 5]);
    assert!(!anim.is_stopped());
    anim.change_frame();
    anim.change_frame();
    assert!(anim.is_stopped());
    anim.change_frame();
    assert_eq!(anim.current_frame(), 5);
}

#[test]
fn zip_animation_goes_back_and_forth() {
    let mut anim = Animation::new(AnimationMode::Zip(true), vec![0, 1, 2]);
    let mut seen = vec![];
    for _ in 0..7 {
        seen.push(anim.current_frame());
        anim.change_frame();
    }
    assert_eq!(seen, vec![0, 1, 2, 1, 0, 1, 2]);
    let mut single = Animation::new(AnimationMode::Zip(true), vec![9]);
    single.change_frame();
    single.change_frame();
    assert_eq!(single.current_frame(), 9);
}
