//! The simulation world: the grid, the units and the spawners, advanced
//! one tick at a time by a fixed pipeline of passes.

use vstd::prelude::*;

use crate::anim::UnitState;
use crate::grid::{
    Grid, GridStatus, grid_total, lemma_rect_sum_add, lemma_rect_sum_single, rect_sum, status_of,
};
use crate::unit::{
    Ai, AttackingAIState, DamageEvent, FxKind, FxSpawnEvent, MoveOnForceAI, Unit, UnitInfo, abs,
    enemy_in_range, find_enemy_in_range, find_potential_pos, force_sign, force_status,
    grid_info_move_to, is_chosen_step, moved, sat_add, scale_delay, scaled_delay, step_ok,
};
use crate::spawn::{SpawnInfo, Spawner, fresh_unit, offspring, offspring_ai, spawn_wanted};
use crate::utils::{Direction, dir_at, dx, dy, facing, next_dir};

verus! {

/// The most units a world holds, so that every cell count fits an `i32`.
pub const MAX_UNITS: usize = 2_000_000_000;

/// Where a turning unit stands relative to the corner of its square that
/// it reaches after a step to the right.
pub open spec fn corner(d: Direction) -> (int, int) {
    match d {
        Direction::Up => (0, 1),
        Direction::Left => (-1, 1),
        Direction::Down => (-1, 0),
        Direction::Right => (0, 0),
    }
}

/// The cell that a unit claims. A unit claims its target, except a
/// turning unit, which turns around a fixed square and keeps claiming the
/// cell where its square starts (where it was spawned).
pub open spec fn claim_cell(u: Unit) -> (int, int) {
    match u.ai {
        Ai::Turning(_) => match u.state {
            UnitState::Still(d) => (u.info.last_x - corner(d).0, u.info.last_y - corner(d).1),
            UnitState::Moving(d) => (u.info.target_x - corner(d).0, u.info.target_y - corner(d).1),
        },
        _ => (u.info.target_x as int, u.info.target_y as int),
    }
}

/// What unit `u` adds to the count of cell `(a, b)`.
pub open spec fn contribution(u: Unit, a: int, b: int) -> int {
    if claim_cell(u) == (a, b) {
        force_sign(u.force.ally)
    } else {
        0
    }
}

/// The sum of the contributions of `units` to cell `(a, b)`.
pub open spec fn claim_total(units: Seq<Unit>, a: int, b: int) -> int
    decreases units.len(),
{
    if units.len() == 0 {
        0
    } else {
        contribution(units[0], a, b) + claim_total(units.skip(1), a, b)
    }
}

/// The sum of the signs of the forces of `units`: allies less enemies.
pub open spec fn net_force(units: Seq<Unit>) -> int
    decreases units.len(),
{
    if units.len() == 0 {
        0
    } else {
        force_sign(units[0].force.ally) + net_force(units.skip(1))
    }
}

/// Every cell count is the sum of the claims of the units on that cell.
pub open spec fn conserved(grid: &Grid, units: Seq<Unit>) -> bool {
    forall|a: int, b: int| grid.in_bounds(a, b) ==> #[trigger] grid.count(a, b) == claim_total(units, a, b)
}

/// The conditions under which a unit can act without breaking the ledger.
pub open spec fn unit_wf(u: Unit, grid: &Grid) -> bool {
    &&& grid.in_bounds(claim_cell(u).0, claim_cell(u).1)
    &&& match u.ai {
        Ai::MoveOnForce(_) => u.state is Still ==> (u.info.last_x == u.info.target_x
            && u.info.last_y == u.info.target_y),
        Ai::Attacking(_, st) => st != AttackingAIState::MoveToNearestEnemy ==> (u.info.last_x
            == u.info.target_x && u.info.last_y == u.info.target_y),
        _ => true,
    }
}

/// Every count of `grid` lies within `±MAX_UNITS`.
pub open spec fn counts_bounded(grid: &Grid) -> bool {
    forall|a: int, b: int| grid.in_bounds(a, b) ==> -(MAX_UNITS as int) <= #[trigger] grid.count(a, b) <= MAX_UNITS as int
}

proof fn lemma_claim_total_push(units: Seq<Unit>, u: Unit, a: int, b: int)
    ensures
        claim_total(units.push(u), a, b) == claim_total(units, a, b) + contribution(u, a, b),
    decreases units.len(),
{
    if units.len() > 0 {
        assert(units.push(u).skip(1) =~= units.skip(1).push(u));
        assert(units.push(u)[0] == units[0]);
        lemma_claim_total_push(units.skip(1), u, a, b);
    } else {
        assert(units.push(u).skip(1) =~= Seq::<Unit>::empty());
        assert(claim_total(units.push(u).skip(1), a, b) == 0);
        assert(units.push(u)[0] == u);
    }
}

proof fn lemma_claim_total_update(units: Seq<Unit>, i: int, u: Unit, a: int, b: int)
    requires
        0 <= i < units.len(),
    ensures
        claim_total(units.update(i, u), a, b) == claim_total(units, a, b) - contribution(
            units[i],
            a,
            b,
        ) + contribution(u, a, b),
    decreases units.len(),
{
    if i > 0 {
        assert(units.update(i, u).skip(1) =~= units.skip(1).update(i - 1, u));
        lemma_claim_total_update(units.skip(1), i - 1, u, a, b);
    } else {
        assert(units.update(i, u).skip(1) =~= units.skip(1));
    }
}

proof fn lemma_claim_total_bounded(units: Seq<Unit>, a: int, b: int)
    ensures
        -units.len() <= claim_total(units, a, b) <= units.len(),
    decreases units.len(),
{
    if units.len() > 0 {
        lemma_claim_total_bounded(units.skip(1), a, b);
    }
}

proof fn lemma_conserved_bounded(grid: &Grid, units: Seq<Unit>)
    requires
        conserved(grid, units),
        units.len() <= MAX_UNITS,
    ensures
        counts_bounded(grid),
{
    assert forall|a: int, b: int| grid.in_bounds(a, b) implies -(MAX_UNITS as int) <= #[trigger] grid.count(a, b) <= MAX_UNITS as int by {
        lemma_claim_total_bounded(units, a, b);
    }
}

/// One decision of a turning unit: once its clock has passed the end of
/// its action, a still unit turns to the next direction and heads one
/// step that way, a moving unit arrives; the new action lasts the action
/// delay. The grid is not consulted.
pub open spec fn turning_next(u: Unit) -> Unit {
    let now = u.time.time;
    if now > u.info.end_time {
        let info = UnitInfo {
            start_time: now,
            end_time: sat_add(now as int, u.info.action_delay as int) as u64,
            ..u.info
        };
        match u.state {
            UnitState::Still(d) => {
                let n = next_dir(d);
                Unit {
                    info: UnitInfo {
                        target_x: (u.info.last_x + dx(n)) as i32,
                        target_y: (u.info.last_y + dy(n)) as i32,
                        ..info
                    },
                    state: UnitState::Moving(n),
                    ..u
                }
            },
            UnitState::Moving(d) => Unit {
                info: UnitInfo { last_x: u.info.target_x, last_y: u.info.target_y, ..info },
                state: UnitState::Still(d),
                ..u
            },
        }
    } else {
        u
    }
}

/// See [`turning_next`]. The unit keeps claiming the same cell.
pub fn turning_step(u: &mut Unit)
    requires
        old(u).ai is Turning,
        0 <= claim_cell(*old(u)).0 < i32::MAX,
        0 <= claim_cell(*old(u)).1 < i32::MAX,
    ensures
        *final(u) == turning_next(*old(u)),
        claim_cell(*final(u)) == claim_cell(*old(u)),
{
    let now = u.time.time;
    if now > u.info.end_time {
        u.info.start_time = now;
        u.info.end_time = now.saturating_add(u.info.action_delay);
        match u.state {
            UnitState::Still(dir) => {
                let new_dir = dir.next();
                u.info.target_x = u.info.last_x + new_dir.x();
                u.info.target_y = u.info.last_y + new_dir.y();
                u.state = UnitState::Moving(new_dir);
            },
            UnitState::Moving(dir) => {
                u.info.last_x = u.info.target_x;
                u.info.last_y = u.info.target_y;
                u.state = UnitState::Still(dir);
            },
        }
    }
}

/// The target that a wandering unit picks from two random draws: a cell
/// of `grid`.
pub open spec fn random_target(grid: &Grid, roll_x: int, roll_y: int) -> (int, int) {
    (abs(roll_x) % grid.cols(), abs(roll_y) % grid.rows())
}

/// One decision of a wandering unit (`u0` becomes `u1`), with `flips` for
/// the ties of the step search and `roll_x`, `roll_y` for a new target;
/// `step` is the step taken, if any.
///
/// A still unit on its AI target holds if it sticks to it, else picks a
/// new target. Once its clock has passed the end of its action, a still
/// unit takes the greedy step towards the AI target over cells that are
/// neutral or of its own force, its action then lasting the action delay
/// scaled by its move speed; when no step is valid it only turns. A moving
/// unit arrives.
pub open spec fn move_on_force_transition(
    g: &Grid,
    u0: Unit,
    u1: Unit,
    flips: Seq<bool>,
    roll_x: int,
    roll_y: int,
    step: Option<(Direction, i32, i32)>,
) -> bool {
    let ai0 = u0.ai->MoveOnForce_0;
    let now = u0.time.time;
    let reached = u0.state is Still && u0.info.last_x == ai0.target_x && u0.info.last_y
        == ai0.target_y;
    let ai1 = if reached {
        MoveOnForceAI {
            target_x: random_target(g, roll_x, roll_y).0 as i32,
            target_y: random_target(g, roll_x, roll_y).1 as i32,
            ..ai0
        }
    } else {
        ai0
    };
    let timed = UnitInfo {
        start_time: now,
        end_time: sat_add(now as int, u0.info.action_delay as int) as u64,
        ..u0.info
    };
    if reached && ai0.stick_to_target {
        u1 == u0 && step is None
    } else if now > u0.info.end_time {
        match u0.state {
            UnitState::Still(d) => match step {
                None => {
                    &&& forall|i: int|
                        0 <= i < 4 ==> !#[trigger] step_ok(
                            g,
                            u0.info.last_x as int,
                            u0.info.last_y as int,
                            dir_at(i),
                            force_status(u0.force.ally),
                        )
                    &&& u1 == Unit {
                        info: timed,
                        state: UnitState::Still(next_dir(d)),
                        ai: Ai::MoveOnForce(ai1),
                        ..u0
                    }
                },
                Some(s) => {
                    &&& is_chosen_step(
                        g,
                        u0.info.last_x as int,
                        u0.info.last_y as int,
                        ai1.target_x as int,
                        ai1.target_y as int,
                        force_status(u0.force.ally),
                        flips,
                        s,
                    )
                    &&& u1 == Unit {
                        info: UnitInfo {
                            target_x: s.1,
                            target_y: s.2,
                            end_time: sat_add(
                                now as int,
                                scaled_delay(
                                    u0.info.action_delay as int,
                                    u0.stats.move_speed as int,
                                ),
                            ) as u64,
                            ..timed
                        },
                        state: UnitState::Moving(s.0),
                        ai: Ai::MoveOnForce(ai1),
                        ..u0
                    }
                },
            },
            UnitState::Moving(d) => {
                &&& step is None
                &&& u1 == Unit {
                    info: UnitInfo {
                        last_x: u0.info.target_x,
                        last_y: u0.info.target_y,
                        ..timed
                    },
                    state: UnitState::Still(d),
                    ai: Ai::MoveOnForce(ai1),
                    ..u0
                }
            },
        }
    } else {
        u1 == Unit { ai: Ai::MoveOnForce(ai1), ..u0 } && step is None
    }
}

/// See [`move_on_force_transition`]. The grid follows the unit's claim.
pub fn move_on_force_step(
    grid: &mut Grid,
    u: &mut Unit,
    flips: [bool; 4],
    roll_x: i32,
    roll_y: i32,
) -> (r: Option<(Direction, i32, i32)>)
    requires
        old(grid).wf(),
        counts_bounded(old(grid)),
        unit_wf(*old(u), old(grid)),
        old(u).ai is MoveOnForce,
    ensures
        move_on_force_transition(old(grid), *old(u), *final(u), flips@, roll_x as int, roll_y as int, r),
        unit_wf(*final(u), final(grid)),
        moved(
            old(grid),
            final(grid),
            claim_cell(*old(u)).0,
            claim_cell(*old(u)).1,
            claim_cell(*final(u)).0,
            claim_cell(*final(u)).1,
            force_sign(old(u).force.ally),
        ),
{
    let ghost g0 = *grid;
    let mut ai = match u.ai {
        Ai::MoveOnForce(a) => a,
        _ => MoveOnForceAI::default(),
    };
    let reached = u.state.is_still() && u.info.last_x == ai.target_x && u.info.last_y
        == ai.target_y;
    if reached {
        if ai.stick_to_target {
            proof {
                lemma_moved_nothing(&g0, claim_cell(*u).0, claim_cell(*u).1, force_sign(u.force.ally));
            }
            return None;
        }
        let w = grid.width() as i64;
        let h = grid.height() as i64;
        let ax: i64 = if roll_x < 0 { -(roll_x as i64) } else { roll_x as i64 };
        let ay: i64 = if roll_y < 0 { -(roll_y as i64) } else { roll_y as i64 };
        ai.target_x = (ax % w) as i32;
        ai.target_y = (ay % h) as i32;
    }
    u.ai = Ai::MoveOnForce(ai);
    let now = u.time.time;
    let mut step: Option<(Direction, i32, i32)> = None;
    if now > u.info.end_time {
        u.info.start_time = now;
        u.info.end_time = now.saturating_add(u.info.action_delay);
        match u.state {
            UnitState::Still(dir) => {
                let status_wanted = u.force.as_grid_status();
                step = find_potential_pos(
                    grid,
                    u.info.last_x,
                    u.info.last_y,
                    ai.target_x,
                    ai.target_y,
                    status_wanted,
                    flips,
                );
                match step {
                    Some((d, x, y)) => {
                        let ally = u.force.ally;
                        grid_info_move_to(grid, &mut u.info, x, y, ally);
                        u.info.end_time = now.saturating_add(
                            scale_delay(u.info.action_delay, u.stats.move_speed),
                        );
                        u.state = UnitState::Moving(d);
                    },
                    None => {
                        u.state = UnitState::Still(dir.next());
                    },
                }
            },
            UnitState::Moving(dir) => {
                u.info.last_x = u.info.target_x;
                u.info.last_y = u.info.target_y;
                u.state = UnitState::Still(dir);
            },
        }
    }
    proof {
        if step is None {
            lemma_moved_nothing(&g0, claim_cell(*u).0, claim_cell(*u).1, force_sign(u.force.ally));
        }
    }
    step
}

proof fn lemma_moved_nothing(g: &Grid, x: int, y: int, delta: int)
    requires
        g.wf(),
    ensures
        moved(g, g, x, y, x, y, delta),
{
}

/// How far an attacking unit looks for an enemy to walk to.
pub const SEEK_RANGE: i32 = 1000;

/// The fixed length of a recovery or of an idle wait, in milliseconds.
pub const REST_DELAY: u64 = 1000;

/// What one decision of an attacking unit produced: the enemy found next
/// to it (`close`), the hit it dealt, the fire effect it asked for, the
/// enemy it walks towards and the step it took.
#[derive(Debug, Clone, Copy)]
pub struct AttackOutcome {
    pub close: Option<(i32, i32)>,
    pub damage: Option<DamageEvent>,
    pub fire: Option<FxSpawnEvent>,
    pub pursued: Option<(i32, i32)>,
    pub step: Option<(Direction, i32, i32)>,
}

/// `found` is a cell of the search for enemies of `ally` within `range`
/// of `(x, y)`, and is `None` only when that search finds nothing.
pub open spec fn found_enemy(g: &Grid, x: int, y: int, ally: bool, range: int, found: Option<(i32, i32)>) -> bool {
    match found {
        None => forall|a: i32, b: i32| !#[trigger] enemy_in_range(g, x, y, ally, range, a as int, b as int),
        Some(p) => enemy_in_range(g, x, y, ally, range, p.0 as int, p.1 as int),
    }
}

/// The first coordinate of a found cell.
pub open spec fn first_of(p: Option<(i32, i32)>) -> int {
    match p {
        Some((a, _)) => a as int,
        None => 0,
    }
}

/// The second coordinate of a found cell.
pub open spec fn second_of(p: Option<(i32, i32)>) -> int {
    match p {
        Some((_, b)) => b as int,
        None => 0,
    }
}

/// The phase that follows `st` when an enemy is (`close`) or is not next
/// to the unit.
pub open spec fn next_attack_state(st: AttackingAIState, close: bool) -> AttackingAIState {
    match st {
        AttackingAIState::PrepareAttack => if close {
            AttackingAIState::AfterAttack
        } else {
            AttackingAIState::MoveToNearestEnemy
        },
        AttackingAIState::AfterAttack => if close {
            AttackingAIState::PrepareAttack
        } else {
            AttackingAIState::MoveToNearestEnemy
        },
        AttackingAIState::MoveToNearestEnemy => if close {
            AttackingAIState::PrepareAttack
        } else {
            AttackingAIState::MoveToNearestEnemy
        },
    }
}

/// One decision of an attacking unit (`u0` becomes `u1`), with `flips` for
/// the ties of the step search.
///
/// Before the end of its action nothing happens. Then a unit that was
/// walking arrives on its target, and the unit looks for an enemy next to
/// the cell it stands on; the phase follows [`next_attack_state`], a prepared attack
/// on a close enemy hitting it. In the new phase:
/// - preparing an attack, the unit faces the close enemy, asks for a fire
///   effect on its cell and waits the attack delay (1000 ms scaled by its
///   attack speed);
/// - after an attack, it faces down and rests `REST_DELAY`;
/// - walking, it looks for an enemy within `SEEK_RANGE` and takes the
///   greedy step towards it over neutral or own cells, for the move delay
///   (1000 ms scaled by its move speed); with no enemy or no valid step it
///   faces down and rests `REST_DELAY`.
pub open spec fn attacking_transition(g: &Grid, u0: Unit, u1: Unit, flips: Seq<bool>, out: AttackOutcome) -> bool {
    let a = u0.ai->Attacking_0;
    let st0 = u0.ai->Attacking_1;
    let now = u0.time.time;
    let ally = u0.force.ally;
    if u0.info.end_time > now {
        u1 == u0 && out == AttackOutcome {
            close: None,
            damage: None,
            fire: None,
            pursued: None,
            step: None,
        }
    } else {
        let st1 = next_attack_state(st0, out.close is Some);
        let last_x = if st0 == AttackingAIState::MoveToNearestEnemy {
            u0.info.target_x
        } else {
            u0.info.last_x
        };
        let last_y = if st0 == AttackingAIState::MoveToNearestEnemy {
            u0.info.target_y
        } else {
            u0.info.last_y
        };
        let attack_delay = scaled_delay(1000, u0.stats.attack_speed as int);
        let move_delay = scaled_delay(1000, u0.stats.move_speed as int);
        let (delay, anim, target_x, target_y) = match st1 {
            AttackingAIState::PrepareAttack => (
                attack_delay,
                UnitState::Still(
                    facing(
                        last_x as int,
                        last_y as int,
                        first_of(out.close),
                        second_of(out.close),
                    ),
                ),
                u0.info.target_x,
                u0.info.target_y,
            ),
            AttackingAIState::AfterAttack => (
                REST_DELAY as int,
                UnitState::Still(Direction::Down),
                u0.info.target_x,
                u0.info.target_y,
            ),
            AttackingAIState::MoveToNearestEnemy => match out.step {
                Some(s) => (move_delay, UnitState::Moving(s.0), s.1, s.2),
                None => (
                    REST_DELAY as int,
                    UnitState::Still(Direction::Down),
                    u0.info.target_x,
                    u0.info.target_y,
                ),
            },
        };
        &&& found_enemy(g, last_x as int, last_y as int, ally, 1, out.close)
        &&& out.damage == (if st0 == AttackingAIState::PrepareAttack && out.close is Some {
            Some(DamageEvent { x: first_of(out.close) as i32, y: second_of(out.close) as i32, from: ally })
        } else {
            None
        })
        &&& out.fire == (if st1 == AttackingAIState::PrepareAttack {
            Some(
                FxSpawnEvent {
                    kind: FxKind::Fire,
                    x: last_x,
                    y: last_y,
                    duration: Some(attack_delay as u64),
                },
            )
        } else {
            None
        })
        &&& (st1 == AttackingAIState::MoveToNearestEnemy ==> found_enemy(
            g,
            last_x as int,
            last_y as int,
            ally,
            SEEK_RANGE as int,
            out.pursued,
        ))
        &&& (st1 != AttackingAIState::MoveToNearestEnemy ==> out.pursued is None)
        &&& (out.step is Some ==> st1 == AttackingAIState::MoveToNearestEnemy && out.pursued is Some
            && is_chosen_step(
            g,
            last_x as int,
            last_y as int,
            first_of(out.pursued),
            second_of(out.pursued),
            force_status(ally),
            flips,
            out.step->0,
        ))
        &&& (st1 == AttackingAIState::MoveToNearestEnemy && out.pursued is Some && out.step is None
            ==> forall|i: int|
            0 <= i < 4 ==> !#[trigger] step_ok(
                g,
                last_x as int,
                last_y as int,
                dir_at(i),
                force_status(ally),
            ))
        &&& u1 == Unit {
            info: UnitInfo {
                last_x,
                last_y,
                target_x,
                target_y,
                start_time: now,
                end_time: sat_add(now as int, delay) as u64,
                ..u0.info
            },
            state: anim,
            ai: Ai::Attacking(a, st1),
            ..u0
        }
    }
}

fn first_enemy(grid: &Grid, x: i32, y: i32, ally: bool, range: i32) -> (r: Option<(i32, i32)>)
    requires
        grid.wf(),
    ensures
        found_enemy(grid, x as int, y as int, ally, range as int, r),
{
    let found = find_enemy_in_range(grid, x, y, ally, range);
    if found.len() > 0 {
        let p = found[0];
        proof {
            assert(found@.contains(p));
        }
        Some(p)
    } else {
        proof {
            assert forall|a: i32, b: i32| !#[trigger] enemy_in_range(grid, x as int, y as int, ally, range as int, a as int, b as int) by {
                if enemy_in_range(grid, x as int, y as int, ally, range as int, a as int, b as int) {
                    assert(found@.contains((a, b)));
                }
            }
        }
        None
    }
}

/// See [`attacking_transition`]. The grid follows the unit's claim.
pub fn attacking_step(grid: &mut Grid, u: &mut Unit, flips: [bool; 4]) -> (out: AttackOutcome)
    requires
        old(grid).wf(),
        counts_bounded(old(grid)),
        unit_wf(*old(u), old(grid)),
        old(u).ai is Attacking,
    ensures
        attacking_transition(old(grid), *old(u), *final(u), flips@, out),
        unit_wf(*final(u), final(grid)),
        moved(
            old(grid),
            final(grid),
            claim_cell(*old(u)).0,
            claim_cell(*old(u)).1,
            claim_cell(*final(u)).0,
            claim_cell(*final(u)).1,
            force_sign(old(u).force.ally),
        ),
{
    let ghost g0 = *grid;
    let ghost u0 = *u;
    let (marker, state) = match u.ai {
        Ai::Attacking(m, s) => (m, s),
        _ => (crate::unit::AttackingAI, AttackingAIState::MoveToNearestEnemy),
    };
    let now = u.time.time;
    let ally = u.force.ally;
    let mut out = AttackOutcome { close: None, damage: None, fire: None, pursued: None, step: None };
    if u.info.end_time > now {
        proof {
            lemma_moved_nothing(&g0, claim_cell(*u).0, claim_cell(*u).1, force_sign(ally));
        }
        return out;
    }
    if state == AttackingAIState::MoveToNearestEnemy {
        u.info.last_x = u.info.target_x;
        u.info.last_y = u.info.target_y;
    }
    let enemy_close = first_enemy(grid, u.info.last_x, u.info.last_y, ally, 1);
    out.close = enemy_close;
    let new_state = match state {
        AttackingAIState::PrepareAttack => {
            if let Some((enemy_x, enemy_y)) = enemy_close {
                out.damage = Some(DamageEvent { x: enemy_x, y: enemy_y, from: ally });
                AttackingAIState::AfterAttack
            } else {
                AttackingAIState::MoveToNearestEnemy
            }
        },
        AttackingAIState::AfterAttack => {
            if enemy_close.is_some() {
                AttackingAIState::PrepareAttack
            } else {
                AttackingAIState::MoveToNearestEnemy
            }
        },
        AttackingAIState::MoveToNearestEnemy => {
            if enemy_close.is_some() {
                AttackingAIState::PrepareAttack
            } else {
                AttackingAIState::MoveToNearestEnemy
            }
        },
    };
    let (delay, new_anim_state) = match new_state {
        AttackingAIState::PrepareAttack => {
            let (enemy_x, enemy_y) = match enemy_close {
                Some(p) => p,
                None => (u.info.last_x, u.info.last_y),
            };
            let duration = scale_delay(1000, u.stats.attack_speed);
            out.fire = Some(
                FxSpawnEvent {
                    kind: FxKind::Fire,
                    x: u.info.last_x,
                    y: u.info.last_y,
                    duration: Some(duration),
                },
            );
            (
                duration,
                UnitState::Still(
                    Direction::from_points(u.info.last_x, u.info.last_y, enemy_x, enemy_y),
                ),
            )
        },
        AttackingAIState::AfterAttack => (REST_DELAY, UnitState::Still(Direction::Down)),
        AttackingAIState::MoveToNearestEnemy => {
            let nearest = first_enemy(grid, u.info.last_x, u.info.last_y, ally, SEEK_RANGE);
            out.pursued = nearest;
            if let Some((enemy_x, enemy_y)) = nearest {
                let step = find_potential_pos(
                    grid,
                    u.info.last_x,
                    u.info.last_y,
                    enemy_x,
                    enemy_y,
                    u.force.as_grid_status(),
                    flips,
                );
                out.step = step;
                if let Some((d, x, y)) = step {
                    grid_info_move_to(grid, &mut u.info, x, y, ally);
                    (scale_delay(1000, u.stats.move_speed), UnitState::Moving(d))
                } else {
                    (REST_DELAY, UnitState::Still(Direction::Down))
                }
            } else {
                (REST_DELAY, UnitState::Still(Direction::Down))
            }
        },
    };
    u.info.start_time = now;
    u.info.end_time = now.saturating_add(delay);
    u.state = new_anim_state;
    u.ai = Ai::Attacking(marker, new_state);
    proof {
        if out.step is None {
            lemma_moved_nothing(&g0, claim_cell(*u).0, claim_cell(*u).1, force_sign(ally));
        }
    }
    out
}

/// After unit `i` of `units` becomes `u` and the grid follows its claim,
/// the ledger still matches the units.
proof fn lemma_step_conserves(g0: &Grid, g1: &Grid, units: Seq<Unit>, i: int, u: Unit)
    requires
        0 <= i < units.len(),
        conserved(g0, units),
        u.force == units[i].force,
        moved(
            g0,
            g1,
            claim_cell(units[i]).0,
            claim_cell(units[i]).1,
            claim_cell(u).0,
            claim_cell(u).1,
            force_sign(u.force.ally),
        ),
    ensures
        conserved(g1, units.update(i, u)),
{
    assert forall|a: int, b: int| g1.in_bounds(a, b) implies #[trigger] g1.count(a, b)
        == claim_total(units.update(i, u), a, b) by {
        lemma_claim_total_update(units, i, u, a, b);
        assert(g0.in_bounds(a, b));
    }
}

/// The whole simulation: the ledger, the units, the spawners, the world
/// clock (milliseconds since the start) and the events of the current
/// tick.
pub struct World {
    pub grid: Grid,
    pub units: Vec<Unit>,
    pub spawners: Vec<Spawner>,
    pub time: u64,
    pub damage_events: Vec<DamageEvent>,
    pub fx_events: Vec<FxSpawnEvent>,
}

impl World {
    /// The grid is well formed, every unit can act, there are at most
    /// `MAX_UNITS` units, and every cell count is the sum of the claims on
    /// it.
    pub open spec fn wf(&self) -> bool {
        &&& self.grid.wf()
        &&& self.units@.len() <= MAX_UNITS
        &&& conserved(&self.grid, self.units@)
        &&& forall|i: int| 0 <= i < self.units@.len() ==> unit_wf(#[trigger] self.units@[i], &self.grid)
    }

    /// An empty world on a grid of `width` columns and `height` rows.
    pub fn new(width: i32, height: i32) -> (r: World)
        requires
            width >= 0,
            height >= 0,
            width * height <= i32::MAX,
        ensures
            r.wf(),
            r.grid.cols() == width,
            r.grid.rows() == height,
            r.units@.len() == 0,
            r.spawners@.len() == 0,
            r.time == 0,
            r.damage_events@.len() == 0,
            r.fx_events@.len() == 0,
    {
        let grid = Grid::new(width, height);
        World {
            grid,
            units: Vec::new(),
            spawners: Vec::new(),
            time: 0,
            damage_events: Vec::new(),
            fx_events: Vec::new(),
        }
    }

    /// Spawns a unit of force `ally` with behaviour `ai` and `stats` on
    /// `(x, y)`, which it claims. The cell must be inside the grid.
    pub fn spawn_unit(&mut self, x: i32, y: i32, ally: bool, ai: Ai, stats: crate::unit::UnitStats)
        requires
            old(self).wf(),
            old(self).grid.in_bounds(x as int, y as int),
            old(self).units@.len() < MAX_UNITS,
        ensures
            final(self).wf(),
            final(self).units@ == old(self).units@.push(
                crate::spawn::fresh_unit(x, y, ally, ai, stats),
            ),
            old(self).grid.shifted(&final(self).grid, x as int, y as int, force_sign(ally)),
            final(self).spawners@ == old(self).spawners@,
            final(self).time == old(self).time,
            final(self).damage_events@ == old(self).damage_events@,
            final(self).fx_events@ == old(self).fx_events@,
    {
        proof {
            lemma_conserved_bounded(&self.grid, self.units@);
        }
        let ghost g0 = self.grid;
        let ghost units0 = self.units@;
        let u = crate::spawn::spawn_unit(&mut self.grid, x, y, ally, ai, stats);
        self.units.push(u);
        proof {
            assert forall|a: int, b: int| self.grid.in_bounds(a, b) implies #[trigger] self.grid.count(a, b)
                == claim_total(self.units@, a, b) by {
                lemma_claim_total_push(units0, u, a, b);
                assert(g0.in_bounds(a, b));
            }
            assert forall|i: int| 0 <= i < self.units@.len() implies unit_wf(#[trigger] self.units@[i], &self.grid) by {
                if i < units0.len() {
                    assert(unit_wf(units0[i], &g0));
                }
            }
        }
    }

    /// Adds a spawner.
    pub fn add_spawner(&mut self, spawner: Spawner)
        requires
            old(self).wf(),
        ensures
            final(self).wf(),
            final(self).spawners@ == old(self).spawners@.push(spawner),
            final(self).grid == old(self).grid,
            final(self).units@ == old(self).units@,
            final(self).time == old(self).time,
            final(self).damage_events@ == old(self).damage_events@,
            final(self).fx_events@ == old(self).fx_events@,
    {
        self.spawners.push(spawner);
    }

    /// Advances every unit clock by `delta` milliseconds (saturating).
    pub fn add_time_on_unit_info(&mut self, delta: u64)
        requires
            old(self).wf(),
        ensures
            final(self).wf(),
            time_pass(*old(self), *final(self), delta),

    {
        let ghost units0 = self.units@;
        let n = self.units.len();
        let mut i: usize = 0;
        while i < n
            invariant
                self.wf(),
                n == self.units@.len(),
                units0.len() == n,
                self.grid == old(self).grid,
                self.spawners@ == old(self).spawners@,
                self.time == old(self).time,
                self.damage_events@ == old(self).damage_events@,
                self.fx_events@ == old(self).fx_events@,
                0 <= i <= n,
                forall|k: int|
                    0 <= k < i ==> #[trigger] self.units@[k] == (Unit {
                        time: crate::unit::UnitTime {
                            time: sat_add(units0[k].time.time as int, delta as int) as u64,
                        },
                        ..units0[k]
                    }),
                forall|k: int| i <= k < n ==> #[trigger] self.units@[k] == units0[k],
            decreases n - i,
        {
            let mut u = self.units[i];
            u.time.time = u.time.time.saturating_add(delta);
            proof {
                lemma_moved_nothing(&self.grid, claim_cell(u).0, claim_cell(u).1, force_sign(u.force.ally));
                lemma_step_conserves(&self.grid, &self.grid, self.units@, i as int, u);
                assert(unit_wf(self.units@[i as int], &self.grid));
            }
            let ghost before = self.units@;
            self.units.set(i, u);
            proof {
                assert forall|k: int| 0 <= k < self.units@.len() implies unit_wf(#[trigger] self.units@[k], &self.grid) by {
                    if k != i {
                        assert(self.units@[k] == before[k]);
                    }
                }
            }
            i = i + 1;
        }
    }

    /// Every turning unit makes its decision (see [`turning_next`]); the
    /// other units and the grid are left as they are.
    pub fn turning_ai_update(&mut self)
        requires
            old(self).wf(),
        ensures
            final(self).wf(),
            turning_pass(*old(self), *final(self)),

    {
        let ghost units0 = self.units@;
        let n = self.units.len();
        let mut i: usize = 0;
        while i < n
            invariant
                self.wf(),
                n == self.units@.len(),
                units0.len() == n,
                self.grid == old(self).grid,
                self.spawners@ == old(self).spawners@,
                self.time == old(self).time,
                self.damage_events@ == old(self).damage_events@,
                self.fx_events@ == old(self).fx_events@,
                0 <= i <= n,
                forall|k: int|
                    0 <= k < i ==> #[trigger] self.units@[k] == if units0[k].ai is Turning {
                        turning_next(units0[k])
                    } else {
                        units0[k]
                    },
                forall|k: int| i <= k < n ==> #[trigger] self.units@[k] == units0[k],
            decreases n - i,
        {
            let mut u = self.units[i];
            if let Ai::Turning(_) = u.ai {
                proof {
                    assert(unit_wf(self.units@[i as int], &self.grid));
                }
                turning_step(&mut u);
                proof {
                    lemma_moved_nothing(&self.grid, claim_cell(u).0, claim_cell(u).1, force_sign(u.force.ally));
                    lemma_step_conserves(&self.grid, &self.grid, self.units@, i as int, u);
                }
                let ghost before = self.units@;
                self.units.set(i, u);
                proof {
                    assert forall|k: int| 0 <= k < self.units@.len() implies unit_wf(#[trigger] self.units@[k], &self.grid) by {
                        if k != i {
                            assert(self.units@[k] == before[k]);
                        }
                    }
                }
            }
            i = i + 1;
        }
    }

    /// Every wandering unit makes one decision (see
    /// [`move_on_force_transition`]) on the grid as the units before it
    /// left it, with fresh random draws; the other units are left as they
    /// are.
    pub fn move_on_ai_force_update(&mut self)
        requires
            old(self).wf(),
        ensures
            final(self).wf(),
            move_pass(*old(self), *final(self)),
    {
        let ghost units0 = self.units@;
        let ghost mut gs: Seq<Grid> = seq![self.grid];
        let ghost mut fl: Seq<Seq<bool>> = seq![];
        let ghost mut rl: Seq<(int, int)> = seq![];
        let ghost mut st: Seq<Option<(Direction, i32, i32)>> = seq![];
        let n = self.units.len();
        let mut i: usize = 0;
        while i < n
            invariant
                self.wf(),
                n == self.units@.len(),
                units0 == old(self).units@,
                units0.len() == n,
                self.spawners@ == old(self).spawners@,
                self.time == old(self).time,
                self.damage_events@ == old(self).damage_events@,
                self.fx_events@ == old(self).fx_events@,
                0 <= i <= n,
                gs.len() == i + 1,
                gs[0] == old(self).grid,
                gs[i as int] == self.grid,
                fl.len() == i,
                rl.len() == i,
                st.len() == i,
                forall|k: int|
                    0 <= k < i ==> wander_at(
                        gs[k],
                        gs[k + 1],
                        units0[k],
                        #[trigger] self.units@[k],
                        fl[k],
                        rl[k],
                        st[k],
                    ),
                forall|k: int| i <= k < n ==> #[trigger] self.units@[k] == units0[k],
            decreases n - i,
        {
            let mut u = self.units[i];
            let ghost g0 = self.grid;
            let ghost before = self.units@;
            if let Ai::MoveOnForce(_) = u.ai {
                let flips = coin_flips();
                let roll_x: i32 = rand::random::<i32>();
                let roll_y: i32 = rand::random::<i32>();
                proof {
                    assert(unit_wf(self.units@[i as int], &self.grid));
                    lemma_conserved_bounded(&self.grid, self.units@);
                }
                let ghost u0 = u;
                let step = move_on_force_step(&mut self.grid, &mut u, flips, roll_x, roll_y);
                proof {
                    lemma_step_conserves(&g0, &self.grid, self.units@, i as int, u);
                }
                self.units.set(i, u);
                proof {
                    assert forall|k: int| 0 <= k < self.units@.len() implies unit_wf(#[trigger] self.units@[k], &self.grid) by {
                        if k != i {
                            assert(self.units@[k] == before[k]);
                            assert(unit_wf(before[k], &g0));
                        }
                    }
                    assert(wander_at(g0, self.grid, u0, u, flips@, (roll_x as int, roll_y as int), step));
                    fl = fl.push(flips@);
                    rl = rl.push((roll_x as int, roll_y as int));
                    st = st.push(step);
                }
            } else {
                proof {
                    assert(wander_at(g0, self.grid, u, u, seq![], (0, 0), None));
                    fl = fl.push(seq![]);
                    rl = rl.push((0, 0));
                    st = st.push(None);
                }
            }
            proof {
                let gs0 = gs;
                gs = gs.push(self.grid);
                assert forall|k: int| 0 <= k < i + 1 implies wander_at(
                    gs[k],
                    gs[k + 1],
                    units0[k],
                    #[trigger] self.units@[k],
                    fl[k],
                    rl[k],
                    st[k],
                ) by {
                    if k < i {
                        assert(gs[k] == gs0[k] && gs[k + 1] == gs0[k + 1]);
                        assert(self.units@[k] == before[k]);
                    }
                }
            }
            i = i + 1;
        }
        proof {
            assert(wander_trace(*old(self), *self, gs, fl, rl, st));
        }
    }

    /// Every attacking unit makes one decision (see
    /// [`attacking_transition`]) on the grid as the units before it left
    /// it, with fresh random coins; the hits it deals and the fire effects
    /// it asks for are appended to the events. The other units are left as
    /// they are.
    pub fn update_attacking_ai(&mut self)
        requires
            old(self).wf(),
        ensures
            final(self).wf(),
            attack_pass(*old(self), *final(self)),
    {
        let ghost units0 = self.units@;
        let ghost mut gs: Seq<Grid> = seq![self.grid];
        let ghost mut fl: Seq<Seq<bool>> = seq![];
        let ghost mut outs: Seq<AttackOutcome> = seq![];
        let n = self.units.len();
        let mut i: usize = 0;
        while i < n
            invariant
                self.wf(),
                n == self.units@.len(),
                units0 == old(self).units@,
                units0.len() == n,
                self.spawners@ == old(self).spawners@,
                self.time == old(self).time,
                0 <= i <= n,
                gs.len() == i + 1,
                gs[0] == old(self).grid,
                gs[i as int] == self.grid,
                fl.len() == i,
                outs.len() == i,
                self.damage_events@ == old(self).damage_events@ + damages(outs),
                self.fx_events@ == old(self).fx_events@ + fires(outs),
                forall|k: int|
                    0 <= k < i ==> engage_at(
                        gs[k],
                        gs[k + 1],
                        units0[k],
                        #[trigger] self.units@[k],
                        fl[k],
                        outs[k],
                    ),
                forall|k: int| i <= k < n ==> #[trigger] self.units@[k] == units0[k],
            decreases n - i,
        {
            let mut u = self.units[i];
            let ghost g0 = self.grid;
            let ghost before = self.units@;
            let ghost d0 = self.damage_events@;
            let ghost f0 = self.fx_events@;
            let ghost mut out_i = AttackOutcome { close: None, damage: None, fire: None, pursued: None, step: None };
            let ghost mut flips_i: Seq<bool> = seq![];
            if let Ai::Attacking(_, _) = u.ai {
                let flips = coin_flips();
                proof {
                    assert(unit_wf(self.units@[i as int], &self.grid));
                    lemma_conserved_bounded(&self.grid, self.units@);
                }
                let ghost u0 = u;
                let out = attacking_step(&mut self.grid, &mut u, flips);
                proof {
                    lemma_step_conserves(&g0, &self.grid, self.units@, i as int, u);
                }
                self.units.set(i, u);
                proof {
                    assert forall|k: int| 0 <= k < self.units@.len() implies unit_wf(#[trigger] self.units@[k], &self.grid) by {
                        if k != i {
                            assert(self.units@[k] == before[k]);
                            assert(unit_wf(before[k], &g0));
                        }
                    }
                    assert(engage_at(g0, self.grid, u0, u, flips@, out));
                    out_i = out;
                    flips_i = flips@;
                }
                if let Some(e) = out.damage {
                    self.damage_events.push(e);
                }
                if let Some(f) = out.fire {
                    self.fx_events.push(f);
                }
            } else {
                proof {
                    assert(engage_at(g0, self.grid, u, u, flips_i, out_i));
                }
            }
            proof {
                let gs0 = gs;
                let outs0 = outs;
                gs = gs.push(self.grid);
                fl = fl.push(flips_i);
                outs = outs.push(out_i);
                assert(outs.drop_last() =~= outs0);
                assert(self.damage_events@ =~= old(self).damage_events@ + damages(outs)) by {
                    if out_i.damage is Some {
                        assert(d0 + damages(outs0).push(out_i.damage->0) =~= (d0 + damages(outs0)).push(out_i.damage->0));
                    }
                }
                assert(self.fx_events@ =~= old(self).fx_events@ + fires(outs)) by {
                    if out_i.fire is Some {
                        assert(f0 + fires(outs0).push(out_i.fire->0) =~= (f0 + fires(outs0)).push(out_i.fire->0));
                    }
                }
                assert forall|k: int| 0 <= k < i + 1 implies engage_at(
                    gs[k],
                    gs[k + 1],
                    units0[k],
                    #[trigger] self.units@[k],
                    fl[k],
                    outs[k],
                ) by {
                    if k < i {
                        assert(gs[k] == gs0[k] && gs[k + 1] == gs0[k + 1]);
                        assert(self.units@[k] == before[k]);
                        assert(outs[k] == outs0[k]);
                    }
                }
            }
            i = i + 1;
        }
        proof {
            assert(engage_trace(*old(self), *self, gs, fl, outs));
        }
    }

    /// Resolves the hits of this tick in order (see [`apply_damage`]) and
    /// drains them.
    pub fn damage_event_reader(&mut self)
        requires
            old(self).wf(),
        ensures
            final(self).wf(),
            damage_pass(*old(self), *final(self)),

    {
        let n = self.damage_events.len();
        let mut i: usize = 0;
        while i < n
            invariant
                self.wf(),
                n == self.damage_events@.len(),
                self.damage_events@ == old(self).damage_events@,
                self.grid == old(self).grid,
                self.spawners@ == old(self).spawners@,
                self.time == old(self).time,
                self.fx_events@ == old(self).fx_events@,
                0 <= i <= n,
                self.units@ == apply_damage(old(self).units@, old(self).damage_events@.take(i as int)),
            decreases n - i,
        {
            let e = self.damage_events[i];
            proof {
                assert(old(self).damage_events@.take(i as int + 1).drop_last() =~= old(self).damage_events@.take(i as int));
            }
            self.hit_first(e.x, e.y);
            i = i + 1;
        }
        proof {
            assert(old(self).damage_events@.take(n as int) =~= old(self).damage_events@);
        }
        self.damage_events.clear();
    }

    /// The first unit standing on `(x, y)` loses one life.
    fn hit_first(&mut self, x: i32, y: i32)
        requires
            old(self).wf(),
        ensures
            final(self).wf(),
            final(self).units@ == hit_first(old(self).units@, x as int, y as int),
            final(self).grid == old(self).grid,
            final(self).spawners@ == old(self).spawners@,
            final(self).time == old(self).time,
            final(self).damage_events@ == old(self).damage_events@,
            final(self).fx_events@ == old(self).fx_events@,
    {
        let n = self.units.len();
        let mut k: usize = 0;
        let mut found = false;
        while k < n && !found
            invariant
                n == self.units@.len(),
                0 <= k <= n,
                found ==> k < n && stands_on(self.units@[k as int], x as int, y as int),
                forall|j: int| 0 <= j < k ==> !stands_on(#[trigger] self.units@[j], x as int, y as int),
            decreases 2 * (n - k) + (if found { 0int } else { 1int }),
        {
            if self.units[k].info.last_x == x && self.units[k].info.last_y == y {
                found = true;
            } else {
                k = k + 1;
            }
        }
        if found {
            let mut u = self.units[k];
            proof {
                assert(stands_on(self.units@[k as int], x as int, y as int));
                let kk = choose|kk: int| 0 <= kk < self.units@.len() && stands_on(self.units@[kk], x as int, y as int) && (forall|j: int| 0 <= j < kk ==> !stands_on(#[trigger] self.units@[j], x as int, y as int));
                assert(kk == k) by {
                    if kk < k {
                        assert(!stands_on(self.units@[kk], x as int, y as int));
                    } else if kk > k {
                        assert(!stands_on(self.units@[k as int], x as int, y as int));
                    }
                }
            }
            if u.stats.life > i32::MIN {
                u.stats.life = u.stats.life - 1;
            }
            proof {
                lemma_moved_nothing(&self.grid, claim_cell(u).0, claim_cell(u).1, force_sign(u.force.ally));
                lemma_step_conserves(&self.grid, &self.grid, self.units@, k as int, u);
                assert(unit_wf(self.units@[k as int], &self.grid));
            }
            let ghost before = self.units@;
            self.units.set(k, u);
            proof {
                assert forall|j: int| 0 <= j < self.units@.len() implies unit_wf(#[trigger] self.units@[j], &self.grid) by {
                    if j != k {
                        assert(self.units@[j] == before[j]);
                    }
                }
            }
        }
    }

    /// Removes every unit whose life is zero or less, releases its claim
    /// on the grid and asks for a death effect on the cell it stood on
    /// (see [`survivors`] and [`death_effects`]).
    pub fn remove_dead_unit(&mut self)
        requires
            old(self).wf(),
        ensures
            final(self).wf(),
            death_pass(*old(self), *final(self)),

    {
        let ghost units0 = self.units@;
        let n = self.units.len();
        let mut kept: Vec<Unit> = Vec::new();
        let mut i: usize = 0;
        proof {
            assert(units0.skip(0) =~= units0);
            assert(units0.take(0) =~= Seq::<Unit>::empty());
            assert(death_effects(units0.take(0)) =~= Seq::<FxSpawnEvent>::empty());
            assert(self.fx_events@ + death_effects(units0.take(0)) =~= self.fx_events@);
            assert forall|a: int, b: int| self.grid.in_bounds(a, b) implies #[trigger] self.grid.count(a, b)
                == claim_total(kept@, a, b) + claim_total(units0.skip(0), a, b) by {
                assert(claim_total(kept@, a, b) == 0);
            }
        }
        while i < n
            invariant
                self.grid.wf(),
                self.units@ == units0,
                n == units0.len(),
                units0.len() <= MAX_UNITS,
                0 <= i <= n,
                forall|j: int| 0 <= j < n ==> unit_wf(#[trigger] units0[j], &self.grid),
                forall|j: int| 0 <= j < kept@.len() ==> unit_wf(#[trigger] kept@[j], &self.grid),
                kept@ == survivors(units0.take(i as int)),
                kept@.len() <= i,
                forall|a: int, b: int|
                    self.grid.in_bounds(a, b) ==> #[trigger] self.grid.count(a, b) == claim_total(kept@, a, b)
                        + claim_total(units0.skip(i as int), a, b),
                self.grid.cols() == old(self).grid.cols(),
                self.grid.rows() == old(self).grid.rows(),
                self.spawners@ == old(self).spawners@,
                self.time == old(self).time,
                self.damage_events@ == old(self).damage_events@,
                self.fx_events@ == old(self).fx_events@ + death_effects(units0.take(i as int)),
            decreases n - i,
        {
            let u = self.units[i];
            proof {
                assert(units0.take(i as int + 1).drop_last() =~= units0.take(i as int));
                assert(units0.take(i as int + 1).last() == u);
                assert(units0.skip(i as int).skip(1) =~= units0.skip(i as int + 1));
                assert(units0.skip(i as int)[0] == u);
                assert(unit_wf(u, &self.grid));
            }
            if u.stats.life > 0 {
                proof {
                    assert forall|a: int, b: int| self.grid.in_bounds(a, b) implies #[trigger] self.grid.count(a, b)
                        == claim_total(kept@.push(u), a, b) + claim_total(units0.skip(i as int + 1), a, b) by {
                        lemma_claim_total_push(kept@, u, a, b);
                    }
                }
                kept.push(u);
            } else {
                let (cx, cy) = claim_of(&u);
                let ghost g0 = self.grid;
                proof {
                    lemma_claim_total_bounded(kept@, cx as int, cy as int);
                    lemma_claim_total_bounded(units0.skip(i as int), cx as int, cy as int);
                }
                self.grid.change_by_count(cx, cy, -u.force.as_int());
                proof {
                    assert forall|a: int, b: int| self.grid.in_bounds(a, b) implies #[trigger] self.grid.count(a, b)
                        == claim_total(kept@, a, b) + claim_total(units0.skip(i as int + 1), a, b) by {
                        assert(g0.in_bounds(a, b));
                    }
                }
                self.fx_events.push(FxSpawnEvent {
                    kind: FxKind::Death,
                    x: u.info.last_x,
                    y: u.info.last_y,
                    duration: None,
                });
            }
            i = i + 1;
        }
        proof {
            assert(units0.take(n as int) =~= units0);
            assert(units0.skip(n as int) =~= Seq::<Unit>::empty());
            assert forall|a: int, b: int| self.grid.in_bounds(a, b) implies #[trigger] self.grid.count(a, b)
                == claim_total(kept@, a, b) by {
                assert(claim_total(units0.skip(n as int), a, b) == 0);
            }
        }
        self.units = kept;
    }

    /// Lets every spawner, in order, spawn one unit when it wants to (see
    /// [`spawn_wanted`]) at the world time, on the grid as the spawners
    /// before it left it, with the force counts taken before the pass. A
    /// spawned unit inherits its spawner's behaviour ([`offspring_ai`]) and
    /// the spawner records the time.
    pub fn spawn_info_system(&mut self)
        requires
            old(self).wf(),
            old(self).units@.len() + old(self).spawners@.len() <= MAX_UNITS,
        ensures
            final(self).wf(),
            spawn_pass(*old(self), *final(self)),
    {
        let ghost units0 = self.units@;
        let ghost spawners0 = self.spawners@;
        let mut good: u64 = 0;
        let mut bad: u64 = 0;
        let n = self.units.len();
        let mut i: usize = 0;
        while i < n
            invariant
                n == self.units@.len(),
                n <= MAX_UNITS,
                0 <= i <= n,
                good == force_count(self.units@.take(i as int), true),
                bad == force_count(self.units@.take(i as int), false),
                good + bad == i,
            decreases n - i,
        {
            proof {
                assert(self.units@.take(i as int + 1).drop_last() =~= self.units@.take(i as int));
            }
            if self.units[i].force.ally {
                good = good + 1;
            } else {
                bad = bad + 1;
            }
            i = i + 1;
        }
        proof {
            assert(self.units@.take(n as int) =~= self.units@);
        }
        let ghost mut gs: Seq<Grid> = seq![self.grid];
        let ghost mut fired: Seq<bool> = seq![];
        let m = self.spawners.len();
        let mut j: usize = 0;
        proof {
            assert(units0 + offspring_upto(spawners0, fired, 0) =~= units0);
        }
        while j < m
            invariant
                self.wf(),
                m == self.spawners@.len(),
                spawners0 == old(self).spawners@,
                units0 == old(self).units@,
                spawners0.len() == m,
                0 <= j <= m,
                units0.len() + m <= MAX_UNITS,
                good == force_count(units0, true),
                bad == force_count(units0, false),
                good + bad == units0.len(),
                gs.len() == j + 1,
                fired.len() == j,
                gs[0] == old(self).grid,
                gs[j as int] == self.grid,
                self.units@ == units0 + offspring_upto(spawners0, fired, j as int),
                offspring_upto(spawners0, fired, j as int).len() <= j,
                forall|k: int|
                    0 <= k < j ==> spawn_at(
                        gs[k],
                        gs[k + 1],
                        spawners0[k],
                        #[trigger] self.spawners@[k],
                        fired[k],
                        old(self).time as int,
                        force_count(units0, spawners0[k].info.ally),
                    ),
                forall|k: int| j <= k < m ==> #[trigger] self.spawners@[k] == spawners0[k],
                self.time == old(self).time,
                self.damage_events@ == old(self).damage_events@,
                self.fx_events@ == old(self).fx_events@,
            decreases m - j,
        {
            let mut sp = self.spawners[j];
            let count: u64 = if sp.info.ally { good } else { bad };
            let ghost g0 = self.grid;
            let ghost spawners_before = self.spawners@;
            let ghost units_before = self.units@;
            let wanted = sp.info.want_spawn(&self.grid, self.time, count as u32);
            if wanted {
                sp.info.last_spawn = Some(self.time);
                proof {
                    lemma_conserved_bounded(&self.grid, self.units@);
                }
                let u = sp.info.spawn(&mut self.grid, offspring(&sp.ai));
                proof {
                    assert forall|a: int, b: int| self.grid.in_bounds(a, b) implies #[trigger] self.grid.count(a, b)
                        == claim_total(units_before.push(u), a, b) by {
                        lemma_claim_total_push(units_before, u, a, b);
                        assert(g0.in_bounds(a, b));
                    }
                }
                self.units.push(u);
                proof {
                    assert forall|k: int| 0 <= k < self.units@.len() implies unit_wf(#[trigger] self.units@[k], &self.grid) by {
                        if k < units_before.len() {
                            assert(unit_wf(units_before[k], &g0));
                        }
                    }
                }
                self.spawners.set(j, sp);
            }
            proof {
                let gs0 = gs;
                let fired0 = fired;
                gs = gs.push(self.grid);
                fired = fired.push(wanted);
                assert forall|k: int| 0 <= k < j ==> fired[k] == fired0[k] by {}
                lemma_offspring_upto_prefix(spawners0, fired0, fired, j as int);
                if wanted {
                    assert(self.units@ =~= units0 + offspring_upto(spawners0, fired, j as int + 1));
                } else {
                    assert(self.units@ =~= units0 + offspring_upto(spawners0, fired, j as int + 1));
                }
                assert forall|k: int| 0 <= k < j + 1 implies spawn_at(
                    gs[k],
                    gs[k + 1],
                    spawners0[k],
                    #[trigger] self.spawners@[k],
                    fired[k],
                    old(self).time as int,
                    force_count(units0, spawners0[k].info.ally),
                ) by {
                    if k < j {
                        assert(gs[k] == gs0[k] && gs[k + 1] == gs0[k + 1]);
                        assert(self.spawners@[k] == spawners_before[k]);
                    }
                }
            }
            j = j + 1;
        }
        proof {
            assert(spawn_trace(*old(self), *self, gs, fired));
        }
    }
}

impl World {
    /// One tick of `delta` milliseconds: the world clock and every unit
    /// clock advance, the spawners spawn, the turning, wandering and
    /// attacking units decide in turn, the hits of the tick are resolved
    /// and the fallen units are removed. The effects asked for during the
    /// tick are left in `fx_events` (those of the previous tick are
    /// dropped).
    pub fn tick(&mut self, delta: u64)
        requires
            old(self).wf(),
            old(self).units@.len() + old(self).spawners@.len() <= MAX_UNITS,
        ensures
            final(self).wf(),
            exists|ws: Seq<World>| #[trigger] tick_steps(*old(self), ws, *final(self), delta),
            final(self).time == sat_add(old(self).time as int, delta as int),
            forall|i: int| 0 <= i < final(self).units@.len() ==> (#[trigger] final(self).units@[i]).stats.life > 0,
            final(self).spawners@.len() == old(self).spawners@.len(),
            final(self).damage_events@.len() == 0,
    {
        self.fx_events.clear();
        self.time = self.time.saturating_add(delta);
        let ghost w0 = *self;
        self.add_time_on_unit_info(delta);
        let ghost w1 = *self;
        self.spawn_info_system();
        let ghost w2 = *self;
        self.turning_ai_update();
        let ghost w3 = *self;
        self.move_on_ai_force_update();
        let ghost w4 = *self;
        self.update_attacking_ai();
        let ghost w5 = *self;
        self.damage_event_reader();
        let ghost w6 = *self;
        self.remove_dead_unit();
        proof {
            lemma_survivors_alive(w6.units@);
            let ws = seq![w0, w1, w2, w3, w4, w5, w6];
            assert(tick_steps(*old(self), ws, *self, delta));
        }
    }
}

/// A tick of `delta` from `w0` to `w1` runs through the worlds `ws`: the
/// effects of the previous tick are dropped and the world clock advances,
/// then the passes follow each other: unit clocks, spawns, turning,
/// wandering and attacking units, hits, and the removal of fallen units.
pub open spec fn tick_steps(w0: World, ws: Seq<World>, w1: World, delta: u64) -> bool {
    &&& ws.len() == 7
    &&& ws[0].fx_events@.len() == 0
    &&& ws[0].time == sat_add(w0.time as int, delta as int)
    &&& ws[0].grid == w0.grid
    &&& ws[0].units@ == w0.units@
    &&& ws[0].spawners@ == w0.spawners@
    &&& ws[0].damage_events@ == w0.damage_events@
    &&& time_pass(ws[0], ws[1], delta)
    &&& spawn_pass(ws[1], ws[2])
    &&& turning_pass(ws[2], ws[3])
    &&& move_pass(ws[3], ws[4])
    &&& attack_pass(ws[4], ws[5])
    &&& damage_pass(ws[5], ws[6])
    &&& death_pass(ws[6], w1)
}

proof fn lemma_survivors_alive(units: Seq<Unit>)
    ensures
        forall|i: int| 0 <= i < survivors(units).len() ==> (#[trigger] survivors(units)[i]).stats.life > 0,
    decreases units.len(),
{
    if units.len() > 0 {
        lemma_survivors_alive(units.drop_last());
    }
}

/// The ledger balances: in a well-formed world the counts of all the cells
/// add up to the number of allied units less the number of enemy units.
pub proof fn lemma_ledger_balances(w: &World)
    requires
        w.wf(),
    ensures
        grid_total(&w.grid) == net_force(w.units@),
{
    let g = &w.grid;
    assert forall|i: int| 0 <= i < w.units@.len() implies g.in_bounds(
        claim_cell(#[trigger] w.units@[i]).0,
        claim_cell(w.units@[i]).1,
    ) by {
        assert(unit_wf(w.units@[i], g));
    }
    lemma_claims_sum(g, w.units@);
    let c = |a: int, b: int| g.count(a, b);
    let t = |a: int, b: int| claim_total(w.units@, a, b);
    let z = |a: int, b: int| 0int;
    lemma_rect_sum_single(z, g.cols(), g.rows(), -1, -1, 0);
    lemma_rect_sum_add(t, z, c, g.cols(), g.rows());
    assert(grid_total(g) == rect_sum(c, g.cols(), g.rows()));
}

/// The claims of `units`, all inside `grid`, add up to their net force.
proof fn lemma_claims_sum(g: &Grid, units: Seq<Unit>)
    requires
        forall|i: int| 0 <= i < units.len() ==> g.in_bounds(claim_cell(#[trigger] units[i]).0, claim_cell(units[i]).1),
    ensures
        rect_sum(|a: int, b: int| claim_total(units, a, b), g.cols(), g.rows()) == net_force(units),
    decreases units.len(),
{
    let m = g.cols();
    let n = g.rows();
    let t = |a: int, b: int| claim_total(units, a, b);
    if units.len() == 0 {
        lemma_rect_sum_single(t, m, n, -1, -1, 0);
    } else {
        let rest = units.skip(1);
        assert forall|i: int| 0 <= i < rest.len() implies g.in_bounds(claim_cell(#[trigger] rest[i]).0, claim_cell(rest[i]).1) by {
            assert(rest[i] == units[i + 1]);
        }
        lemma_claims_sum(g, rest);
        let first = |a: int, b: int| contribution(units[0], a, b);
        let others = |a: int, b: int| claim_total(rest, a, b);
        assert(g.in_bounds(claim_cell(units[0]).0, claim_cell(units[0]).1));
        lemma_rect_sum_single(first, m, n, claim_cell(units[0]).0, claim_cell(units[0]).1, force_sign(units[0].force.ally));
        lemma_rect_sum_add(first, others, t, m, n);
    }
}

/// A well-formed world without units has every cell neutral: a unit that
/// leaves the world leaves nothing behind on the grid.
pub proof fn lemma_empty_world_is_neutral(w: &World)
    requires
        w.wf(),
        w.units@.len() == 0,
    ensures
        forall|a: int, b: int| w.grid.in_bounds(a, b) ==> #[trigger] w.grid.status(a, b) == Some(GridStatus::Neutral),
{
    assert forall|a: int, b: int| w.grid.in_bounds(a, b) implies #[trigger] w.grid.status(a, b) == Some(GridStatus::Neutral) by {
        assert(w.grid.count(a, b) == claim_total(w.units@, a, b));
    }
}

/// The number of units of force `ally` in `units`.
pub open spec fn force_count(units: Seq<Unit>, ally: bool) -> int
    decreases units.len(),
{
    if units.len() == 0 {
        0
    } else {
        force_count(units.drop_last(), ally) + if units.last().force.ally == ally {
            1int
        } else {
            0int
        }
    }
}

/// Unit `u` stands on `(x, y)`: it is the cell it leaves or holds still on.
pub open spec fn stands_on(u: Unit, x: int, y: int) -> bool {
    u.info.last_x == x && u.info.last_y == y
}

/// `u` with one life less (no less than `i32::MIN`).
pub open spec fn wounded(u: Unit) -> Unit {
    Unit {
        stats: crate::unit::UnitStats {
            life: if u.stats.life > i32::MIN {
                (u.stats.life - 1) as i32
            } else {
                u.stats.life
            },
            ..u.stats
        },
        ..u
    }
}

/// `units` after a hit on `(x, y)`: the first unit standing there is
/// wounded; with none there, the hit is lost. Every hit takes exactly one
/// life: the attacker's `UnitStats::damage` is not consumed.
pub open spec fn hit_first(units: Seq<Unit>, x: int, y: int) -> Seq<Unit> {
    if exists|k: int|
        0 <= k < units.len() && stands_on(units[k], x, y) && (forall|j: int|
            0 <= j < k ==> !stands_on(#[trigger] units[j], x, y)) {
        let k = choose|k: int|
            0 <= k < units.len() && stands_on(units[k], x, y) && (forall|j: int|
                0 <= j < k ==> !stands_on(#[trigger] units[j], x, y));
        units.update(k, wounded(units[k]))
    } else {
        units
    }
}

/// `units` after the hits of `events`, in order.
pub open spec fn apply_damage(units: Seq<Unit>, events: Seq<DamageEvent>) -> Seq<Unit>
    decreases events.len(),
{
    if events.len() == 0 {
        units
    } else {
        hit_first(
            apply_damage(units, events.drop_last()),
            events.last().x as int,
            events.last().y as int,
        )
    }
}

/// The units of `units` whose life is above zero, in order.
pub open spec fn survivors(units: Seq<Unit>) -> Seq<Unit>
    decreases units.len(),
{
    if units.len() == 0 {
        units
    } else if units.last().stats.life > 0 {
        survivors(units.drop_last()).push(units.last())
    } else {
        survivors(units.drop_last())
    }
}

/// A death effect on the cell of each unit of `units` whose life is zero
/// or less, in order.
pub open spec fn death_effects(units: Seq<Unit>) -> Seq<FxSpawnEvent>
    decreases units.len(),
{
    if units.len() == 0 {
        Seq::empty()
    } else if units.last().stats.life > 0 {
        death_effects(units.drop_last())
    } else {
        death_effects(units.drop_last()).push(
            FxSpawnEvent {
                kind: FxKind::Death,
                x: units.last().info.last_x,
                y: units.last().info.last_y,
                duration: None,
            },
        )
    }
}

/// The cell that `u` claims (see [`claim_cell`]), for a unit that can act.
fn claim_of(u: &Unit) -> (r: (i32, i32))
    requires
        0 <= claim_cell(*u).0 <= i32::MAX,
        0 <= claim_cell(*u).1 <= i32::MAX,
    ensures
        r.0 == claim_cell(*u).0,
        r.1 == claim_cell(*u).1,
{
    match u.ai {
        Ai::Turning(_) => {
            let (x, y, d) = match u.state {
                UnitState::Still(d) => (u.info.last_x as i64, u.info.last_y as i64, d),
                UnitState::Moving(d) => (u.info.target_x as i64, u.info.target_y as i64, d),
            };
            let (cx, cy): (i64, i64) = match d {
                Direction::Up => (0, 1),
                Direction::Left => (-1, 1),
                Direction::Down => (-1, 0),
                Direction::Right => (0, 0),
            };
            ((x - cx) as i32, (y - cy) as i32)
        },
        _ => (u.info.target_x, u.info.target_y),
    }
}

/// Four independent random coins, one per direction of the step search.
fn coin_flips() -> (r: [bool; 4]) {
    [rand::random::<bool>(), rand::random::<bool>(), rand::random::<bool>(), rand::random::<bool>()]
}

/// One unit's turn in the wandering pass: a wandering unit makes one
/// decision (see [`move_on_force_transition`]) on grid `g0`, which then
/// follows its claim to `g1`; any other unit and the grid stay as they are.
pub open spec fn wander_at(
    g0: Grid,
    g1: Grid,
    u0: Unit,
    u1: Unit,
    flips: Seq<bool>,
    roll: (int, int),
    step: Option<(Direction, i32, i32)>,
) -> bool {
    if u0.ai is MoveOnForce {
        &&& move_on_force_transition(&g0, u0, u1, flips, roll.0, roll.1, step)
        &&& moved(
            &g0,
            &g1,
            claim_cell(u0).0,
            claim_cell(u0).1,
            claim_cell(u1).0,
            claim_cell(u1).1,
            force_sign(u0.force.ally),
        )
    } else {
        u1 == u0 && g1 == g0
    }
}

/// The wandering pass from `w0` to `w1`, told unit by unit: `gs[i]` is the
/// grid that unit `i` finds, `flips[i]` and `rolls[i]` its random draws
/// and `steps[i]` the step it takes.
pub open spec fn wander_trace(
    w0: World,
    w1: World,
    gs: Seq<Grid>,
    flips: Seq<Seq<bool>>,
    rolls: Seq<(int, int)>,
    steps: Seq<Option<(Direction, i32, i32)>>,
) -> bool {
    let n = w0.units@.len();
    &&& w1.units@.len() == n
    &&& gs.len() == n + 1
    &&& flips.len() == n
    &&& rolls.len() == n
    &&& steps.len() == n
    &&& gs[0] == w0.grid
    &&& gs[n as int] == w1.grid
    &&& forall|i: int|
        0 <= i < n ==> wander_at(gs[i], gs[i + 1], w0.units@[i], #[trigger] w1.units@[i], flips[i], rolls[i], steps[i])
    &&& w1.spawners@ == w0.spawners@
    &&& w1.time == w0.time
    &&& w1.damage_events@ == w0.damage_events@
    &&& w1.fx_events@ == w0.fx_events@
}

/// The wandering pass takes `w0` to `w1`: every wandering unit, in order,
/// decides on the grid as the units before it left it, with some random
/// draws.
pub open spec fn move_pass(w0: World, w1: World) -> bool {
    exists|
        gs: Seq<Grid>,
        flips: Seq<Seq<bool>>,
        rolls: Seq<(int, int)>,
        steps: Seq<Option<(Direction, i32, i32)>>,
    | #[trigger] wander_trace(w0, w1, gs, flips, rolls, steps)
}

/// One unit's turn in the attacking pass: an attacking unit makes one
/// decision (see [`attacking_transition`]) on grid `g0`, which then
/// follows its claim to `g1`; any other unit and the grid stay as they are,
/// with nothing found and no event.
pub open spec fn engage_at(g0: Grid, g1: Grid, u0: Unit, u1: Unit, flips: Seq<bool>, out: AttackOutcome) -> bool {
    if u0.ai is Attacking {
        &&& attacking_transition(&g0, u0, u1, flips, out)
        &&& moved(
            &g0,
            &g1,
            claim_cell(u0).0,
            claim_cell(u0).1,
            claim_cell(u1).0,
            claim_cell(u1).1,
            force_sign(u0.force.ally),
        )
    } else {
        &&& u1 == u0
        &&& g1 == g0
        &&& out == AttackOutcome { close: None, damage: None, fire: None, pursued: None, step: None }
    }
}

/// The hits of `outs`, in order.
pub open spec fn damages(outs: Seq<AttackOutcome>) -> Seq<DamageEvent>
    decreases outs.len(),
{
    if outs.len() == 0 {
        Seq::empty()
    } else {
        match outs.last().damage {
            Some(e) => damages(outs.drop_last()).push(e),
            None => damages(outs.drop_last()),
        }
    }
}

/// The fire effects of `outs`, in order.
pub open spec fn fires(outs: Seq<AttackOutcome>) -> Seq<FxSpawnEvent>
    decreases outs.len(),
{
    if outs.len() == 0 {
        Seq::empty()
    } else {
        match outs.last().fire {
            Some(f) => fires(outs.drop_last()).push(f),
            None => fires(outs.drop_last()),
        }
    }
}

/// The attacking pass from `w0` to `w1`, told unit by unit: `gs[i]` is the
/// grid that unit `i` finds, `flips[i]` its coins and `outs[i]` what its
/// decision produced. The hits and fire effects are appended in unit
/// order.
pub open spec fn engage_trace(
    w0: World,
    w1: World,
    gs: Seq<Grid>,
    flips: Seq<Seq<bool>>,
    outs: Seq<AttackOutcome>,
) -> bool {
    let n = w0.units@.len();
    &&& w1.units@.len() == n
    &&& gs.len() == n + 1
    &&& flips.len() == n
    &&& outs.len() == n
    &&& gs[0] == w0.grid
    &&& gs[n as int] == w1.grid
    &&& forall|i: int|
        0 <= i < n ==> engage_at(gs[i], gs[i + 1], w0.units@[i], #[trigger] w1.units@[i], flips[i], outs[i])
    &&& w1.damage_events@ == w0.damage_events@ + damages(outs)
    &&& w1.fx_events@ == w0.fx_events@ + fires(outs)
    &&& w1.spawners@ == w0.spawners@
    &&& w1.time == w0.time
}

/// The attacking pass takes `w0` to `w1`: every attacking unit, in order,
/// decides on the grid as the units before it left it, with some coins.
pub open spec fn attack_pass(w0: World, w1: World) -> bool {
    exists|gs: Seq<Grid>, flips: Seq<Seq<bool>>, outs: Seq<AttackOutcome>|
        #[trigger] engage_trace(w0, w1, gs, flips, outs)
}

/// The unit that spawner `s` spawns.
pub open spec fn fresh_of(s: Spawner) -> Unit {
    fresh_unit(
        s.info.x,
        s.info.y,
        s.info.ally,
        offspring_ai(s.ai),
        crate::unit::UnitStats { move_speed: 1000, attack_speed: 1000, life: 1, damage: 1 },
    )
}

/// The units spawned by the first `k` spawners, in order: one for each
/// spawner that fired.
pub open spec fn offspring_upto(spawners: Seq<Spawner>, fired: Seq<bool>, k: int) -> Seq<Unit>
    decreases k,
{
    if k <= 0 {
        Seq::empty()
    } else if fired[k - 1] {
        offspring_upto(spawners, fired, k - 1).push(fresh_of(spawners[k - 1]))
    } else {
        offspring_upto(spawners, fired, k - 1)
    }
}

proof fn lemma_offspring_upto_prefix(spawners: Seq<Spawner>, f1: Seq<bool>, f2: Seq<bool>, k: int)
    requires
        0 <= k <= f1.len(),
        k <= f2.len(),
        forall|i: int| 0 <= i < k ==> f1[i] == f2[i],
    ensures
        offspring_upto(spawners, f1, k) == offspring_upto(spawners, f2, k),
        offspring_upto(spawners, f1, k).len() <= k,
    decreases k,
{
    if k > 0 {
        lemma_offspring_upto_prefix(spawners, f1, f2, k - 1);
    }
}

/// One spawner's turn in the spawn pass at world time `now`, its force
/// counting `count` units: it fires iff it wants to spawn on grid `g0`
/// (see [`spawn_wanted`]); then it records the time and its offspring
/// claims its cell, giving `g1`. Otherwise nothing changes.
pub open spec fn spawn_at(g0: Grid, g1: Grid, s0: Spawner, s1: Spawner, fired: bool, now: int, count: int) -> bool {
    &&& fired == spawn_wanted(s0.info, &g0, now, count)
    &&& if fired {
        &&& s1 == Spawner { info: SpawnInfo { last_spawn: Some(now as u64), ..s0.info }, ..s0 }
        &&& g0.shifted(&g1, s0.info.x as int, s0.info.y as int, force_sign(s0.info.ally))
    } else {
        s1 == s0 && g1 == g0
    }
}

/// The spawn pass from `w0` to `w1`, told spawner by spawner: `gs[j]` is
/// the grid that spawner `j` finds and `fired[j]` whether it spawned. The
/// force counts are taken before the pass, and the new units are appended
/// in spawner order.
pub open spec fn spawn_trace(w0: World, w1: World, gs: Seq<Grid>, fired: Seq<bool>) -> bool {
    let m = w0.spawners@.len();
    &&& w1.spawners@.len() == m
    &&& gs.len() == m + 1
    &&& fired.len() == m
    &&& gs[0] == w0.grid
    &&& gs[m as int] == w1.grid
    &&& forall|j: int|
        0 <= j < m ==> spawn_at(
            gs[j],
            gs[j + 1],
            w0.spawners@[j],
            #[trigger] w1.spawners@[j],
            fired[j],
            w0.time as int,
            force_count(w0.units@, w0.spawners@[j].info.ally),
        )
    &&& w1.units@ == w0.units@ + offspring_upto(w0.spawners@, fired, m as int)
    &&& w1.time == w0.time
    &&& w1.damage_events@ == w0.damage_events@
    &&& w1.fx_events@ == w0.fx_events@
}

/// The spawn pass takes `w0` to `w1`.
pub open spec fn spawn_pass(w0: World, w1: World) -> bool {
    exists|gs: Seq<Grid>, fired: Seq<bool>| #[trigger] spawn_trace(w0, w1, gs, fired)
}

/// `w1` is `w0` with every unit clock advanced by `delta` (saturating).
pub open spec fn time_pass(w0: World, w1: World, delta: u64) -> bool {
    &&& w1.grid == w0.grid
    &&& w1.units@.len() == w0.units@.len()
    &&& forall|i: int|
        0 <= i < w0.units@.len() ==> #[trigger] w1.units@[i] == (Unit {
            time: crate::unit::UnitTime {
                time: sat_add(w0.units@[i].time.time as int, delta as int) as u64,
            },
            ..w0.units@[i]
        })
    &&& w1.spawners@ == w0.spawners@
    &&& w1.time == w0.time
    &&& w1.damage_events@ == w0.damage_events@
    &&& w1.fx_events@ == w0.fx_events@
}

/// `w1` is `w0` after every turning unit made its decision.
pub open spec fn turning_pass(w0: World, w1: World) -> bool {
    &&& w1.grid == w0.grid
    &&& w1.units@.len() == w0.units@.len()
    &&& forall|i: int|
        0 <= i < w0.units@.len() ==> #[trigger] w1.units@[i] == if w0.units@[i].ai is Turning {
            turning_next(w0.units@[i])
        } else {
            w0.units@[i]
        }
    &&& w1.spawners@ == w0.spawners@
    &&& w1.time == w0.time
    &&& w1.damage_events@ == w0.damage_events@
    &&& w1.fx_events@ == w0.fx_events@
}

/// `w1` is `w0` with the hits of the tick resolved in order and drained.
pub open spec fn damage_pass(w0: World, w1: World) -> bool {
    &&& w1.units@ == apply_damage(w0.units@, w0.damage_events@)
    &&& w1.damage_events@.len() == 0
    &&& w1.grid == w0.grid
    &&& w1.spawners@ == w0.spawners@
    &&& w1.time == w0.time
    &&& w1.fx_events@ == w0.fx_events@
}

/// `w1` is `w0` without its fallen units, their claims released and a
/// death effect asked for each.
pub open spec fn death_pass(w0: World, w1: World) -> bool {
    &&& w1.units@ == survivors(w0.units@)
    &&& w1.fx_events@ == w0.fx_events@ + death_effects(w0.units@)
    &&& w1.grid.cols() == w0.grid.cols()
    &&& w1.grid.rows() == w0.grid.rows()
    &&& w1.spawners@ == w0.spawners@
    &&& w1.time == w0.time
    &&& w1.damage_events@ == w0.damage_events@
}

/// The units of `units` whose life is zero or less, in order.
pub open spec fn fallen(units: Seq<Unit>) -> Seq<Unit>
    decreases units.len(),
{
    if units.len() == 0 {
        units
    } else if units.last().stats.life > 0 {
        fallen(units.drop_last())
    } else {
        fallen(units.drop_last()).push(units.last())
    }
}

proof fn lemma_claim_total_split(units: Seq<Unit>, a: int, b: int)
    ensures
        claim_total(units, a, b) == claim_total(survivors(units), a, b) + claim_total(
            fallen(units),
            a,
            b,
        ),
    decreases units.len(),
{
    if units.len() > 0 {
        let dl = units.drop_last();
        let u = units.last();
        lemma_claim_total_split(dl, a, b);
        assert(dl.push(u) =~= units);
        lemma_claim_total_push(dl, u, a, b);
        if u.stats.life > 0 {
            lemma_claim_total_push(survivors(dl), u, a, b);
        } else {
            lemma_claim_total_push(fallen(dl), u, a, b);
        }
    } else {
        assert(claim_total(survivors(units), a, b) == 0);
        assert(claim_total(fallen(units), a, b) == 0);
    }
}

/// The death sweep cleans up after the fallen: no unit with life zero or
/// less is left, each cell loses exactly the claims of the fallen units on
/// it, and once no unit is left every cell is neutral.
pub proof fn lemma_death_cleanup(w0: World, w1: World)
    requires
        w0.wf(),
        w1.wf(),
        death_pass(w0, w1),
    ensures
        forall|i: int| 0 <= i < w1.units@.len() ==> (#[trigger] w1.units@[i]).stats.life > 0,
        forall|a: int, b: int|
            w0.grid.in_bounds(a, b) ==> #[trigger] w1.grid.count(a, b) == w0.grid.count(a, b)
                - claim_total(fallen(w0.units@), a, b),
        w1.units@.len() == 0 ==> forall|a: int, b: int|
            w1.grid.in_bounds(a, b) ==> #[trigger] w1.grid.status(a, b) == Some(
                GridStatus::Neutral,
            ),
{
    lemma_survivors_alive(w0.units@);
    assert forall|a: int, b: int| w0.grid.in_bounds(a, b) implies #[trigger] w1.grid.count(a, b)
        == w0.grid.count(a, b) - claim_total(fallen(w0.units@), a, b) by {
        lemma_claim_total_split(w0.units@, a, b);
        assert(w1.grid.in_bounds(a, b));
    }
    if w1.units@.len() == 0 {
        lemma_empty_world_is_neutral(&w1);
    }
}

/// A lone spawner never fills its force beyond its target: when the force
/// holds at most `t` units before the spawn pass, it holds at most `t`
/// after it; when it already holds `t`, the pass spawns nothing and leaves
/// the grid and the spawner as they were.
pub proof fn lemma_spawn_respects_target(w0: World, w1: World, t: u32)
    requires
        spawn_pass(w0, w1),
        w0.spawners@.len() == 1,
        w0.spawners@[0].info.target_unit_count == Some(t),
        force_count(w0.units@, w0.spawners@[0].info.ally) <= t,
    ensures
        force_count(w1.units@, w0.spawners@[0].info.ally) <= t,
        force_count(w0.units@, w0.spawners@[0].info.ally) == t ==> {
            &&& w1.units@ == w0.units@
            &&& w1.grid == w0.grid
            &&& w1.spawners@ == w0.spawners@
        },
{
    let (gs, fired) = choose|gs: Seq<Grid>, fired: Seq<bool>| #[trigger] spawn_trace(w0, w1, gs, fired);
    let sp = w0.spawners@[0];
    let ally = sp.info.ally;
    assert(spawn_at(
        gs[0],
        gs[1],
        sp,
        w1.spawners@[0],
        fired[0],
        w0.time as int,
        force_count(w0.units@, ally),
    ));
    assert(offspring_upto(w0.spawners@, fired, 0) =~= Seq::<Unit>::empty());
    if fired[0] {
        let u = fresh_of(sp);
        assert(w1.units@ =~= w0.units@.push(u));
        assert(w0.units@.push(u).drop_last() =~= w0.units@);
    } else {
        assert(w1.units@ =~= w0.units@);
        assert(w1.spawners@ =~= w0.spawners@);
    }
}

} // verus!
