//! Spawners: when and where new units enter play.

use vstd::prelude::*;

use crate::anim::UnitState;
use crate::grid::{Grid, GridStatus};
use crate::unit::{
    Ai, AttackingAI, AttackingAIState, MoveOnForceAI, Unit, UnitForce, UnitInfo, UnitStats,
    UnitTime, force_sign,
};
use crate::utils::Direction;

verus! {

/// The action delay of a freshly spawned unit, in milliseconds.
pub const SPAWN_ACTION_DELAY: u64 = 1000;

/// A spawn point for one force. Times are in milliseconds of the world
/// clock; `last_spawn` is `None` before the first spawn.
#[derive(Debug, Clone, Copy, PartialEq, Eq, Structural)]
pub struct SpawnInfo {
    pub target_unit_count: Option<u32>,
    pub spawn_delay: Option<u64>,
    pub last_spawn: Option<u64>,
    pub ally: bool,
    pub x: i32,
    pub y: i32,
}

/// The decision of [`SpawnInfo::want_spawn`]: the spawn cell is neutral,
/// the force has fewer units than the target (no limit when there is none)
/// and the delay since the last spawn has passed by `now`.
pub open spec fn spawn_wanted(info: SpawnInfo, grid: &Grid, now: int, count_of_force: int) -> bool {
    &&& grid.status(info.x as int, info.y as int) == Some(GridStatus::Neutral)
    &&& match info.target_unit_count {
        Some(t) => count_of_force < t,
        None => true,
    }
    &&& match info.last_spawn {
        None => true,
        Some(last) => last + match info.spawn_delay {
            Some(d) => d as int,
            None => 0,
        } <= now,
    }
}

/// The unit that [`spawn_unit`] makes at `(x, y)`.
pub open spec fn fresh_unit(x: i32, y: i32, ally: bool, ai: Ai, stats: UnitStats) -> Unit {
    Unit {
        info: UnitInfo {
            last_x: x,
            last_y: y,
            action_delay: SPAWN_ACTION_DELAY,
            target_x: x,
            target_y: y,
            start_time: 0,
            end_time: 0,
        },
        state: UnitState::Moving(Direction::Right),
        stats,
        force: UnitForce { ally },
        time: UnitTime { time: 0 },
        ai,
    }
}

/// The behaviour that a spawner of behaviour `ai` gives its offspring: the
/// same kind, in its starting state.
pub open spec fn offspring_ai(ai: Ai) -> Ai {
    match ai {
        Ai::Idle => Ai::Idle,
        Ai::Turning(t) => Ai::Turning(t),
        Ai::MoveOnForce(_) => Ai::MoveOnForce(
            MoveOnForceAI { target_x: 0, target_y: 0, stick_to_target: false },
        ),
        Ai::Attacking(a, _) => Ai::Attacking(a, AttackingAIState::MoveToNearestEnemy),
    }
}

/// See [`offspring_ai`].
pub fn offspring(ai: &Ai) -> (r: Ai)
    ensures
        r == offspring_ai(*ai),
{
    match ai {
        Ai::Idle => Ai::Idle,
        Ai::Turning(t) => Ai::Turning(*t),
        Ai::MoveOnForce(_) => Ai::MoveOnForce(MoveOnForceAI::default()),
        Ai::Attacking(_, _) => Ai::Attacking(AttackingAI, AttackingAIState::MoveToNearestEnemy),
    }
}

/// Creates a unit of force `ally` on `(x, y)` and claims that cell for it.
/// The cell must be inside the grid.
pub fn spawn_unit(grid: &mut Grid, x: i32, y: i32, ally: bool, ai: Ai, stats: UnitStats) -> (r: Unit)
    requires
        old(grid).wf(),
        old(grid).in_bounds(x as int, y as int),
        i32::MIN <= old(grid).count(x as int, y as int) + force_sign(ally) <= i32::MAX,
    ensures
        r == fresh_unit(x, y, ally, ai, stats),
        old(grid).shifted(final(grid), x as int, y as int, force_sign(ally)),
{
    grid.change_by_count(x, y, if ally { 1 } else { -1 });
    Unit {
        info: UnitInfo {
            last_x: x,
            last_y: y,
            action_delay: SPAWN_ACTION_DELAY,
            target_x: x,
            target_y: y,
            start_time: 0,
            end_time: 0,
        },
        state: UnitState::Moving(Direction::Right),
        stats,
        force: UnitForce { ally },
        time: UnitTime { time: 0 },
        ai,
    }
}

impl SpawnInfo {
    /// Whether this spawner spawns at world time `now` when its force has
    /// `count_of_force` units.
    pub fn want_spawn(&self, grid: &Grid, now: u64, count_of_force: u32) -> (r: bool)
        requires
            grid.wf(),
        ensures
            r == spawn_wanted(*self, grid, now as int, count_of_force as int),
    {
        let status = match grid.get_status(self.x, self.y) {
            Some(gs) => gs == GridStatus::Neutral,
            None => false,
        };
        let count = match self.target_unit_count {
            Some(t) => count_of_force < t,
            None => true,
        };
        let time = match self.last_spawn {
            None => true,
            Some(last) => {
                let delay = match self.spawn_delay {
                    Some(d) => d,
                    None => 0,
                };
                match last.checked_add(delay) {
                    Some(t) => t <= now,
                    None => false,
                }
            },
        };
        status && count && time
    }

    /// Creates a unit of this spawner's force on its cell, with behaviour
    /// `ai` and the default stats.
    pub fn spawn(&self, grid: &mut Grid, ai: Ai) -> (r: Unit)
        requires
            old(grid).wf(),
            old(grid).in_bounds(self.x as int, self.y as int),
            i32::MIN <= old(grid).count(self.x as int, self.y as int) + force_sign(self.ally)
                <= i32::MAX,
        ensures
            r == fresh_unit(
                self.x,
                self.y,
                self.ally,
                ai,
                UnitStats { move_speed: 1000, attack_speed: 1000, life: 1, damage: 1 },
            ),
            old(grid).shifted(final(grid), self.x as int, self.y as int, force_sign(self.ally)),
    {
        spawn_unit(grid, self.x, self.y, self.ally, ai, UnitStats::default())
    }
}

/// A spawner: where and how it spawns, and the behaviour that its
/// offspring inherit.
#[derive(Debug, Clone, Copy, PartialEq, Eq, Structural)]
pub struct Spawner {
    pub info: SpawnInfo,
    pub ai: Ai,
}

} // verus!
