use multi_warrior::grid::{Grid, GridStatus};
use multi_warrior::unit::{
    find_enemy_in_range, find_potential_pos, grid_info_move_to, scale_delay, update_pos,
    UnitForce, UnitInfo, UnitStats, UnitTime,
};
use multi_warrior::utils::Direction;

#[test]
fn find_enemy_in_corner() {
    let mut grid = Grid::new(4, 4);
    grid.add_friend(0, 0);
    grid.add_enemy(3, 3);

    assert_eq!(find_enemy_in_range(&grid, 0, 0, true, 10), vec![(3, 3)]);
    assert_eq!(find_enemy_in_range(&grid, 3, 3, false, 10), vec![(0, 0)]);
}

#[test]
fn enemy_in_range() {
    let mut grid = Grid::new(2, 2);

    grid.add_enemy(1, 1);

    assert_eq!(find_enemy_in_range(&grid, 1, 1, true, 1), vec![]);
    assert_eq!(find_enemy_in_range(&grid, 1, 1, false, 1), vec![]);
    assert_eq!(find_enemy_in_range(&grid, 0, 0, false, 1), vec![]);

    assert_eq!(find_enemy_in_range(&grid, 1, 0, true, 1), vec![(1, 1)]);
    assert_eq!(find_enemy_in_range(&grid, 0, 1, true, 1), vec![(1, 1)]);
    grid = Grid::new(5, 5);
    grid.add_friend(3, 3);
    for i in 0..6 {
        assert_eq!(find_enemy_in_range(&grid, 0, 0, false, i), vec![]);
    }

    for i in 6..25 {
        assert_eq!(find_enemy_in_range(&grid, 0, 0, false, i), vec![(3, 3)]);
    }

    grid.add_friend(3, 4);
    grid.add_friend(4, 3);

    let mut final_test = find_enemy_in_range(&grid, 0, 0, false, 8);
    final_test.sort();
    assert_eq!(final_test, vec![(3, 3), (3, 4), (4, 3)]);
}

fn sorted(mut v: Vec<(i32, i32)>) -> Vec<(i32, i32)> {
    v.sort();
    v
}

#[test]
fn range_search_is_symmetric_between_forces() {
    let mut grid = Grid::new(4, 4);
    let mut mirrored = Grid::new(4, 4);
    let friends = [(0, 0), (2, 1)];
    let enemies = [(3, 3), (1, 2), (0, 3)];
    for (x, y) in friends {
        grid.add_friend(x, y);
        mirrored.add_enemy(x, y);
    }
    for (x, y) in enemies {
        grid.add_enemy(x, y);
        mirrored.add_friend(x, y);
    }
    for r in 0..8 {
        for (x, y) in [(0, 0), (1, 1), (3, 0)] {
            let a = sorted(find_enemy_in_range(&grid, x, y, true, r));
            let b = sorted(find_enemy_in_range(&mirrored, x, y, false, r));
            assert_eq!(a, b);
            let c = sorted(find_enemy_in_range(&grid, x, y, false, r));
            let d = sorted(find_enemy_in_range(&mirrored, x, y, true, r));
            assert_eq!(c, d);
        }
    }
    assert_eq!(
        sorted(find_enemy_in_range(&grid, 0, 0, true, 10)),
        vec![(0, 3), (1, 2), (3, 3)]
    );
    assert_eq!(sorted(find_enemy_in_range(&grid, 1, 1, true, 2)), vec![(1, 2)]);
}

#[test]
fn range_search_finds_each_cell_once_and_skips_the_centre() {
    let mut grid = Grid::new(3, 3);
    for x in 0..3 {
        for y in 0..3 {
            grid.add_enemy(x, y);
        }
    }
    let found = find_enemy_in_range(&grid, 1, 1, true, 4);
    assert_eq!(found.len(), 8);
    let s = sorted(found);
    assert!(!s.contains(&(1, 1)));
    let mut dedup = s.clone();
    dedup.dedup();
    assert_eq!(dedup, s);
    assert_eq!(find_enemy_in_range(&grid, 1, 1, true, 1).len(), 4);
    assert_eq!(find_enemy_in_range(&grid, 1, 1, true, -3), vec![]);
}

#[test]
fn potential_pos_takes_the_closest_valid_neighbour() {
    let grid = Grid::new(5, 5);
    let step = find_potential_pos(&grid, 2, 2, 4, 2, GridStatus::Friend, [false; 4]);
    assert_eq!(step, Some((Direction::Right, 3, 2)));
    let step = find_potential_pos(&grid, 2, 2, 2, 0, GridStatus::Enemy, [false; 4]);
    assert_eq!(step, Some((Direction::Down, 2, 1)));
}

#[test]
fn potential_pos_never_enters_an_opposing_cell() {
    let mut grid = Grid::new(3, 1);
    grid.add_enemy(1, 0);
    assert_eq!(
        find_potential_pos(&grid, 0, 0, 2, 0, GridStatus::Friend, [true; 4]),
        None
    );
    let mut grid = Grid::new(3, 3);
    grid.add_enemy(2, 1);
    grid.add_friend(1, 2);
    // Right is held by enemies; Up is held by allies, so an ally may stack.
    let step = find_potential_pos(&grid, 1, 1, 2, 2, GridStatus::Friend, [false; 4]);
    assert_eq!(step, Some((Direction::Up, 1, 2)));
    // An enemy may not enter Up, but may stack on Right.
    let step = find_potential_pos(&grid, 1, 1, 2, 2, GridStatus::Enemy, [false; 4]);
    assert_eq!(step, Some((Direction::Right, 2, 1)));
}

#[test]
fn potential_pos_ties_follow_the_coins() {
    let grid = Grid::new(3, 3);
    // From (1,1) towards (2,2): Up (1,2) and Right (2,1) are both at distance 1.
    let first = find_potential_pos(&grid, 1, 1, 2, 2, GridStatus::Friend, [false; 4]);
    assert_eq!(first, Some((Direction::Up, 1, 2)));
    let later = find_potential_pos(&grid, 1, 1, 2, 2, GridStatus::Friend, [false, false, true, false]);
    assert_eq!(later, Some((Direction::Right, 2, 1)));
    let flipped_first = find_potential_pos(&grid, 1, 1, 2, 2, GridStatus::Friend, [true, true, false, true]);
    assert_eq!(flipped_first, Some((Direction::Up, 1, 2)));
}

#[test]
fn potential_pos_is_none_when_boxed_in() {
    let mut grid = Grid::new(1, 1);
    assert_eq!(
        find_potential_pos(&grid, 0, 0, 0, 0, GridStatus::Friend, [false; 4]),
        None
    );
    grid.add_friend(0, 0);
    assert_eq!(
        find_potential_pos(&grid, i32::MAX, i32::MIN, 0, 0, GridStatus::Friend, [false; 4]),
        None
    );
}

#[test]
fn move_changes_exactly_two_cells_and_keeps_the_total() {
    let mut grid = Grid::new(3, 3);
    grid.add_enemy(0, 0);
    grid.add_enemy(2, 2);
    let mut info = UnitInfo {
        last_x: 0,
        last_y: 0,
        action_delay: 1000,
        target_x: 0,
        target_y: 0,
        start_time: 0,
        end_time: 0,
    };
    grid_info_move_to(&mut grid, &mut info, 0, 1, false);
    assert_eq!((info.target_x, info.target_y), (0, 1));
    assert_eq!((info.last_x, info.last_y), (0, 0));
    assert_eq!(grid.get_count(0, 0), Some(0));
    assert_eq!(grid.get_count(0, 1), Some(-1));
    assert_eq!(grid.get_count(2, 2), Some(-1));
    let mut total = 0;
    for x in 0..3 {
        for y in 0..3 {
            total += grid.get_count(x, y).unwrap();
        }
    }
    assert_eq!(total, -2);
}

#[test]
fn force_sign_and_status() {
    assert_eq!(UnitForce { ally: true }.as_int(), 1);
    assert_eq!(UnitForce { ally: false }.as_int(), -1);
    assert_eq!(UnitForce { ally: true }.as_grid_status(), GridStatus::Friend);
    assert_eq!(UnitForce { ally: false }.as_grid_status(), GridStatus::Enemy);
}

#[test]
fn delays_scale_with_speed() {
    assert_eq!(scale_delay(1000, 1000), 1000);
    assert_eq!(scale_delay(1000, 2000), 500);
    assert_eq!(scale_delay(1500, 500), 3000);
    assert_eq!(scale_delay(1000, 0), u64::MAX);
    assert_eq!(scale_delay(u64::MAX, 1000), u64::MAX / 1000);
    let stats = UnitStats::default();
    assert_eq!((stats.life, stats.move_speed, stats.damage, stats.attack_speed), (1, 1000, 1, 1000));
}

#[test]
fn interpolated_position_runs_from_last_to_target() {
    let info = UnitInfo {
        last_x: 2,
        last_y: 5,
        action_delay: 1000,
        target_x: 3,
        target_y: 4,
        start_time: 1000,
        end_time: 2000,
    };
    assert_eq!(update_pos(&UnitTime { time: 500 }, &info), (2000, 5000));
    assert_eq!(update_pos(&UnitTime { time: 1000 }, &info), (2000, 5000));
    assert_eq!(update_pos(&UnitTime { time: 1250 }, &info), (2250, 4750));
    assert_eq!(update_pos(&UnitTime { time: 2000 }, &info), (3000, 4000));
    assert_eq!(update_pos(&UnitTime { time: 9000 }, &info), (3000, 4000));
    let empty = UnitInfo { start_time: 10, end_time: 10, ..info };
    assert_eq!(update_pos(&UnitTime { time: 20 }, &empty), (2000, 5000));
}
