//! Facing directions and their grid offsets.

use vstd::prelude::*;

verus! {

/// A facing on the grid. `Up` raises `y`, `Right` raises `x`.
#[derive(Debug, Clone, Copy, PartialEq, Eq, Structural)]
pub enum Direction {
    Up,
    Left,
    Right,
    Down,
}

/// The offset along `x` of one step in direction `d`.
pub open spec fn dx(d: Direction) -> int {
    match d {
        Direction::Up => 0,
        Direction::Left => -1,
        Direction::Down => 0,
        Direction::Right => 1,
    }
}

/// The offset along `y` of one step in direction `d`.
pub open spec fn dy(d: Direction) -> int {
    match d {
        Direction::Up => 1,
        Direction::Left => 0,
        Direction::Down => -1,
        Direction::Right => 0,
    }
}

/// The rotation order: Up, Left, Down, Right, then Up again.
pub open spec fn next_dir(d: Direction) -> Direction {
    match d {
        Direction::Up => Direction::Left,
        Direction::Left => Direction::Down,
        Direction::Down => Direction::Right,
        Direction::Right => Direction::Up,
    }
}

/// The directions in the order in which neighbours are examined:
/// Up, Left, Right, Down.
pub open spec fn dir_at(i: int) -> Direction {
    if i == 0 {
        Direction::Up
    } else if i == 1 {
        Direction::Left
    } else if i == 2 {
        Direction::Right
    } else {
        Direction::Down
    }
}

/// The position of `d` in the examination order.
pub open spec fn dir_index(d: Direction) -> int {
    match d {
        Direction::Up => 0,
        Direction::Left => 1,
        Direction::Right => 2,
        Direction::Down => 3,
    }
}

/// Facing from `(x1, y1)` towards `(x2, y2)`: along the axis of the larger
/// gap, vertical when the gaps are equal.
pub open spec fn facing(x1: int, y1: int, x2: int, y2: int) -> Direction {
    let x_diff = if x1 >= x2 { x1 - x2 } else { x2 - x1 };
    let y_diff = if y1 >= y2 { y1 - y2 } else { y2 - y1 };
    if x_diff > y_diff {
        if x1 < x2 { Direction::Right } else { Direction::Left }
    } else {
        if y1 < y2 { Direction::Up } else { Direction::Down }
    }
}

impl Direction {
    /// The next direction in the rotation.
    pub fn next(&self) -> (r: Self)
        ensures
            r == next_dir(*self),
    {
        match self {
            Direction::Up => Direction::Left,
            Direction::Left => Direction::Down,
            Direction::Down => Direction::Right,
            Direction::Right => Direction::Up,
        }
    }

    pub fn x(&self) -> (r: i32)
        ensures
            r == dx(*self),
    {
        match self {
            Direction::Up => 0,
            Direction::Left => -1,
            Direction::Down => 0,
            Direction::Right => 1,
        }
    }

    pub fn y(&self) -> (r: i32)
        ensures
            r == dy(*self),
    {
        match self {
            Direction::Up => 1,
            Direction::Left => 0,
            Direction::Down => -1,
            Direction::Right => 0,
        }
    }

    /// The direction at position `i` of the examination order.
    pub fn at(i: usize) -> (r: Self)
        requires
            i < 4,
        ensures
            r == dir_at(i as int),
            dir_index(r) == i,
    {
        if i == 0 {
            Direction::Up
        } else if i == 1 {
            Direction::Left
        } else if i == 2 {
            Direction::Right
        } else {
            Direction::Down
        }
    }

    /// All four directions, in the examination order.
    pub fn all() -> (r: Vec<Self>)
        ensures
            r@ == seq![Direction::Up, Direction::Left, Direction::Right, Direction::Down],
    {
        vec![Direction::Up, Direction::Left, Direction::Right, Direction::Down]
    }

    /// The facing a unit at `(x1, y1)` takes to look at `(x2, y2)`.
    pub fn from_points(x1: i32, y1: i32, x2: i32, y2: i32) -> (r: Self)
        ensures
            r == facing(x1 as int, y1 as int, x2 as int, y2 as int),
    {
        let x_diff: i64 = if x1 >= x2 { x1 as i64 - x2 as i64 } else { x2 as i64 - x1 as i64 };
        let x_dir = if x1 < x2 { Direction::Right } else { Direction::Left };
        let y_diff: i64 = if y1 >= y2 { y1 as i64 - y2 as i64 } else { y2 as i64 - y1 as i64 };
        let y_dir = if y1 < y2 { Direction::Up } else { Direction::Down };
        if x_diff > y_diff {
            x_dir
        } else {
            y_dir
        }
    }
}

impl Default for Direction {
    fn default() -> (r: Self)
        ensures
            r == Direction::Down,
    {
        Direction::Down
    }
}

} // verus!
