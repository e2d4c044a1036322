use multi_warrior::grid::{Grid, GridStatus};

#[test]
fn cannot_add_enemy_after_ally() {
    let x = 3;
    let y = 4;
    let mut grid = Grid::new(x, y);

    for i in 0..x {
        for j in 0..y {
            assert!(grid.add_friend(i, j), "Friend ({}, {})", i, j);
            assert!(!grid.add_enemy(i, j), "Enemy ({}, {})", i, j);
        }
    }
}

#[test]
fn cannot_add_ally_after_enemy() {
    let x = 3;
    let y = 4;
    let mut grid = Grid::new(x, y);

    for i in 0..x {
        for j in 0..y {
            assert!(grid.add_enemy(i, j), "Enemy ({}, {})", i, j);
            assert!(!grid.add_friend(i, j), "Friend ({}, {})", i, j);
        }
    }
}

#[test]
fn grid_get_count_return_get_by_count() {
    let mut grid = Grid::new(1, 1);
    let mut expected = 0;

    for i in 1..3 {
        grid.change_by_count(0, 0, i);
        expected += i;
        assert_eq!(grid.get_count(0, 0).unwrap(), expected);
        assert!(grid.get_status(0, 0).unwrap() == GridStatus::Friend);
    }

    for i in (-10..-7).rev() {
        grid.change_by_count(0, 0, i);
        expected += i;
        assert_eq!(grid.get_count(0, 0).unwrap(), expected);
        assert!(grid.get_status(0, 0).unwrap() == GridStatus::Enemy);
    }
}

#[test]
fn grid_to_pos_is_none_on_empty_grid() {
    let grid = Grid::new(0, 0);
    for x in -2..2 {
        for y in -2..2 {
            assert!(grid.to_pos(x, y).is_none());
        }
    }
}

#[test]
fn grid_to_pos_is_some_only_on_valid_indices() {
    let x = 5;
    let y = 8;
    let grid = Grid::new(x, y);
    for i in -2..(x + 3) {
        for j in -2..(y + 3) {
            let inside_grid = i >= 0 && i < x && j >= 0 && j < y;
            assert_eq!(
                grid.to_pos(i, j).is_some(),
                inside_grid,
                "Error on position x:{} y:{}",
                i,
                j
            );
        }
    }
}

#[test]
fn to_pos_is_column_major() {
    let grid = Grid::new(5, 8);
    assert_eq!(grid.to_pos(0, 0), Some(0));
    assert_eq!(grid.to_pos(0, 7), Some(7));
    assert_eq!(grid.to_pos(1, 0), Some(8));
    assert_eq!(grid.to_pos(4, 7), Some(39));
}

#[test]
fn new_grid_is_neutral() {
    let grid = Grid::new(3, 2);
    assert_eq!(grid.width(), 3);
    assert_eq!(grid.height(), 2);
    for x in 0..3 {
        for y in 0..2 {
            assert_eq!(grid.get_count(x, y), Some(0));
            assert_eq!(grid.get_status(x, y), Some(GridStatus::Neutral));
        }
    }
}

#[test]
fn friend_claims_stack_and_block_enemies_until_released() {
    let mut grid = Grid::new(2, 2);
    assert!(grid.add_friend(1, 1));
    assert!(grid.add_friend(1, 1));
    assert_eq!(grid.get_count(1, 1), Some(2));
    assert!(!grid.add_enemy(1, 1));
    assert_eq!(grid.get_count(1, 1), Some(2));
    grid.change_by_count(1, 1, -2);
    assert_eq!(grid.get_status(1, 1), Some(GridStatus::Neutral));
    assert!(grid.add_enemy(1, 1));
    assert!(!grid.add_friend(1, 1));
    assert_eq!(grid.get_count(1, 1), Some(-1));
}

#[test]
fn out_of_bounds_queries_are_none_and_changes_are_ignored() {
    let mut grid = Grid::new(3, 3);
    for (x, y) in [(-1, 0), (0, -1), (3, 0), (0, 3), (i32::MIN, i32::MAX)] {
        assert_eq!(grid.get_status(x, y), None);
        assert_eq!(grid.get_count(x, y), None);
        assert_eq!(grid.to_pos(x, y), None);
        assert!(!grid.add_friend(x, y));
        assert!(!grid.add_enemy(x, y));
        grid.change_by_count(x, y, 5);
    }
    for x in 0..3 {
        for y in 0..3 {
            assert_eq!(grid.get_count(x, y), Some(0));
        }
    }
}
