//! Units: their components, the greedy movement step, and the search for
//! enemy cells.

use vstd::prelude::*;

use crate::anim::UnitState;
use crate::grid::{
    Grid, GridStatus, grid_total, lemma_rect_sum_add, lemma_rect_sum_single, rect_sum, status_of,
};
use crate::utils::{Direction, dir_at, dir_index, dx, dy};

verus! {

/// A hit aimed at the unit standing on `(x, y)`; `from` is the force of the
/// attacker (`true` for allies).
#[derive(Debug, Clone, Copy, PartialEq, Eq, Structural)]
pub struct DamageEvent {
    pub x: i32,
    pub y: i32,
    pub from: bool,
}

/// The kind of a visual effect.
#[derive(Debug, Clone, Copy, PartialEq, Eq, Structural)]
pub enum FxKind {
    Death,
    Fire,
}

/// A request for a visual effect on cell `(x, y)`, lasting `duration`
/// milliseconds when given.
#[derive(Debug, Clone, Copy, PartialEq, Eq, Structural)]
pub struct FxSpawnEvent {
    pub kind: FxKind,
    pub x: i32,
    pub y: i32,
    pub duration: Option<u64>,
}

/// Where a unit stands and when its current action runs. The unit claims
/// `(target_x, target_y)` on the grid; `(last_x, last_y)` is the cell it
/// leaves. Times are in milliseconds of the unit's own clock.
#[derive(Debug, Clone, Copy, PartialEq, Eq, Structural)]
pub struct UnitInfo {
    pub last_x: i32,
    pub last_y: i32,
    pub action_delay: u64,
    pub target_x: i32,
    pub target_y: i32,
    pub start_time: u64,
    pub end_time: u64,
}

/// The clock of one unit, in milliseconds.
#[derive(Debug, Clone, Copy, PartialEq, Eq, Structural)]
pub struct UnitTime {
    pub time: u64,
}

/// Life and speeds of a unit. Speeds are in thousandths: 1000 is the
/// normal speed, 2000 halves the delays, 0 stops the unit for good.
/// `damage` is carried but not consumed: every hit takes exactly one life
/// (see `world::hit_first`).
#[derive(Debug, Clone, Copy, PartialEq, Eq, Structural)]
pub struct UnitStats {
    pub life: i32,
    pub move_speed: u32,
    pub damage: i32,
    pub attack_speed: u32,
}

impl Default for UnitStats {
    fn default() -> (r: Self)
        ensures
            r == (UnitStats { move_speed: 1000, attack_speed: 1000, life: 1, damage: 1 }),
    {
        Self { move_speed: 1000, attack_speed: 1000, life: 1, damage: 1 }
    }
}

/// The force of a unit: allies (`true`) or enemies.
#[derive(Debug, Clone, Copy, PartialEq, Eq, Structural)]
pub struct UnitForce {
    pub ally: bool,
}

/// The contribution of one unit of a force to a cell count.
pub open spec fn force_sign(ally: bool) -> int {
    if ally {
        1
    } else {
        -1
    }
}

/// The status that cells held by a force show.
pub open spec fn force_status(ally: bool) -> GridStatus {
    if ally {
        GridStatus::Friend
    } else {
        GridStatus::Enemy
    }
}

impl UnitForce {
    pub fn as_int(&self) -> (r: i32)
        ensures
            r == force_sign(self.ally),
    {
        if self.ally {
            1
        } else {
            -1
        }
    }

    pub fn as_grid_status(&self) -> (r: GridStatus)
        ensures
            r == force_status(self.ally),
    {
        if self.ally {
            GridStatus::Friend
        } else {
            GridStatus::Enemy
        }
    }
}

/// Marks a unit that turns in place through the rotation, ignoring the
/// grid.
#[derive(Debug, Clone, Copy, PartialEq, Eq, Structural)]
pub struct TurningAI;

/// Marks a unit that walks towards `(target_x, target_y)`; once there, it
/// stays if `stick_to_target` is set, else it picks a new random target.
#[derive(Debug, Clone, Copy, PartialEq, Eq, Structural)]
pub struct MoveOnForceAI {
    pub target_x: i32,
    pub target_y: i32,
    pub stick_to_target: bool,
}

impl Default for MoveOnForceAI {
    fn default() -> (r: Self)
        ensures
            r == (MoveOnForceAI { target_x: 0, target_y: 0, stick_to_target: false }),
    {
        MoveOnForceAI { target_x: 0, target_y: 0, stick_to_target: false }
    }
}

/// Marks a unit that seeks and attacks enemies.
#[derive(Debug, Clone, Copy, PartialEq, Eq, Structural)]
pub struct AttackingAI;

/// The phase of an attacking unit.
#[derive(Debug, Clone, Copy, PartialEq, Eq, Structural)]
pub enum AttackingAIState {
    PrepareAttack,
    AfterAttack,
    MoveToNearestEnemy,
}

/// The behaviour that drives a unit.
#[derive(Debug, Clone, Copy, PartialEq, Eq, Structural)]
pub enum Ai {
    /// No behaviour: the unit stays where it is.
    Idle,
    Turning(TurningAI),
    MoveOnForce(MoveOnForceAI),
    Attacking(AttackingAI, AttackingAIState),
}

/// One unit of the simulation.
#[derive(Debug, Clone, Copy, PartialEq, Eq, Structural)]
pub struct Unit {
    pub info: UnitInfo,
    pub state: UnitState,
    pub stats: UnitStats,
    pub force: UnitForce,
    pub time: UnitTime,
    pub ai: Ai,
}

/// `|v|`.
pub open spec fn abs(v: int) -> int {
    if v < 0 {
        -v
    } else {
        v
    }
}

/// Manhattan distance between `(x1, y1)` and `(x2, y2)`.
pub open spec fn manhattan(x1: int, y1: int, x2: int, y2: int) -> int {
    abs(x1 - x2) + abs(y1 - y2)
}

/// One step from `(cx, cy)` in direction `d` lands inside `grid` on a cell
/// that is neutral or shows `wanted`.
pub open spec fn step_ok(grid: &Grid, cx: int, cy: int, d: Direction, wanted: GridStatus) -> bool {
    let x = cx + dx(d);
    let y = cy + dy(d);
    grid.in_bounds(x, y) && (status_of(grid.count(x, y)) == wanted || status_of(grid.count(x, y))
        == GridStatus::Neutral)
}

/// Distance to `(tx, ty)` after one step from `(cx, cy)` in direction `d`.
pub open spec fn step_dist(cx: int, cy: int, d: Direction, tx: int, ty: int) -> int {
    manhattan(cx + dx(d), cy + dy(d), tx, ty)
}

/// The step chosen by [`find_potential_pos`]: `r` is `(d, x, y)`, one
/// valid step from `(cx, cy)` that comes closest to `(tx, ty)`. Among
/// equally close steps, examined in the order Up, Left, Right, Down, the
/// first one is taken and each later one replaces it when its coin in
/// `flips` shows `true`.
pub open spec fn is_chosen_step(
    grid: &Grid,
    cx: int,
    cy: int,
    tx: int,
    ty: int,
    wanted: GridStatus,
    flips: Seq<bool>,
    r: (Direction, i32, i32),
) -> bool {
    let d = r.0;
    let m = step_dist(cx, cy, d, tx, ty);
    &&& r.1 == cx + dx(d)
    &&& r.2 == cy + dy(d)
    &&& step_ok(grid, cx, cy, d, wanted)
    &&& forall|i: int|
        0 <= i < 4 && step_ok(grid, cx, cy, dir_at(i), wanted) ==> m <= #[trigger] step_dist(
            cx,
            cy,
            dir_at(i),
            tx,
            ty,
        )
    &&& (flips[dir_index(d)] || forall|i: int|
        0 <= i < dir_index(d) && step_ok(grid, cx, cy, dir_at(i), wanted) ==> #[trigger] step_dist(
            cx,
            cy,
            dir_at(i),
            tx,
            ty,
        ) != m)
    &&& forall|i: int|
        dir_index(d) < i < 4 && step_ok(grid, cx, cy, dir_at(i), wanted) && #[trigger] step_dist(
            cx,
            cy,
            dir_at(i),
            tx,
            ty,
        ) == m ==> !flips[i]
}

/// The greedy single step: among the four neighbours of `(cur_x, cur_y)`
/// that are inside the grid and neutral or of status `status_wanted`, the
/// one closest to `(target_x, target_y)`, with ties settled by the coins
/// of `flips` (see [`is_chosen_step`]). `None` when no neighbour is valid.
pub fn find_potential_pos(
    grid: &Grid,
    cur_x: i32,
    cur_y: i32,
    target_x: i32,
    target_y: i32,
    status_wanted: GridStatus,
    flips: [bool; 4],
) -> (r: Option<(Direction, i32, i32)>)
    requires
        grid.wf(),
    ensures
        r is None <==> forall|i: int|
            0 <= i < 4 ==> !#[trigger] step_ok(
                grid,
                cur_x as int,
                cur_y as int,
                dir_at(i),
                status_wanted,
            ),
        r is Some ==> is_chosen_step(
            grid,
            cur_x as int,
            cur_y as int,
            target_x as int,
            target_y as int,
            status_wanted,
            flips@,
            r->0,
        ),
{
    let ghost cx = cur_x as int;
    let ghost cy = cur_y as int;
    let ghost tx = target_x as int;
    let ghost ty = target_y as int;
    let mut potential_pos: Option<(Direction, i32, i32)> = None;
    let mut pos_distance: i64 = i64::MAX;
    let mut i: usize = 0;
    while i < 4
        invariant
            grid.wf(),
            0 <= i <= 4,
            cx == cur_x,
            cy == cur_y,
            tx == target_x,
            ty == target_y,
            potential_pos is None ==> pos_distance == i64::MAX,
            potential_pos is None <==> forall|j: int|
                0 <= j < i ==> !#[trigger] step_ok(grid, cx, cy, dir_at(j), status_wanted),
            potential_pos is Some ==> ({
                let (d, px, py) = potential_pos->0;
                let m = step_dist(cx, cy, d, tx, ty);
                &&& dir_index(d) < i
                &&& pos_distance == m
                &&& px == cx + dx(d)
                &&& py == cy + dy(d)
                &&& step_ok(grid, cx, cy, d, status_wanted)
                &&& forall|j: int|
                    0 <= j < i && step_ok(grid, cx, cy, dir_at(j), status_wanted) ==> m
                        <= #[trigger] step_dist(cx, cy, dir_at(j), tx, ty)
                &&& (flips@[dir_index(d)] || forall|j: int|
                    0 <= j < dir_index(d) && step_ok(grid, cx, cy, dir_at(j), status_wanted)
                        ==> #[trigger] step_dist(cx, cy, dir_at(j), tx, ty) != m)
                &&& forall|j: int|
                    dir_index(d) < j < i && step_ok(grid, cx, cy, dir_at(j), status_wanted)
                        && #[trigger] step_dist(cx, cy, dir_at(j), tx, ty) == m ==> !flips@[j]
            }),
        decreases 4 - i,
    {
        let d = Direction::at(i);
        let step = valid_step(grid, cur_x, cur_y, d, status_wanted);
        if let Some((x, y)) = step {
            let ax: i64 = if target_x as i64 >= x as i64 { target_x as i64 - x as i64 } else { x as i64 - target_x as i64 };
            let ay: i64 = if target_y as i64 >= y as i64 { target_y as i64 - y as i64 } else { y as i64 - target_y as i64 };
            let distance: i64 = ax + ay;
            assert(distance == step_dist(cx, cy, dir_at(i as int), tx, ty));
            if distance < pos_distance {
                potential_pos = Some((d, x, y));
                pos_distance = distance;
            } else if distance == pos_distance && flips[i] {
                potential_pos = Some((d, x, y));
            }
        }
        i = i + 1;
    }
    potential_pos
}

/// The cell one step from `(cur_x, cur_y)` in direction `d`, when the step
/// is valid for a mover of status `wanted`.
fn valid_step(grid: &Grid, cur_x: i32, cur_y: i32, d: Direction, wanted: GridStatus) -> (r: Option<(i32, i32)>)
    requires
        grid.wf(),
    ensures
        r is Some <==> step_ok(grid, cur_x as int, cur_y as int, d, wanted),
        r is Some ==> r == Some(((cur_x + dx(d)) as i32, (cur_y + dy(d)) as i32)),
{
    let x: i64 = cur_x as i64 + d.x() as i64;
    let y: i64 = cur_y as i64 + d.y() as i64;
    if x < 0 || x > i32::MAX as i64 || y < 0 || y > i32::MAX as i64 {
        return None;
    }
    let xi: i32 = x as i32;
    let yi: i32 = y as i32;
    match grid.get_status(xi, yi) {
        Some(status) => {
            if status == wanted || status == GridStatus::Neutral {
                Some((xi, yi))
            } else {
                None
            }
        },
        None => None,
    }
}

/// `a + b`, saturated at `u64::MAX`.
pub open spec fn sat_add(a: int, b: int) -> int {
    if a + b > u64::MAX {
        u64::MAX as int
    } else {
        a + b
    }
}

/// A delay of `delay` milliseconds at `speed` thousandths of the normal
/// speed. At speed zero the action never ends.
pub open spec fn scaled_delay(delay: int, speed: int) -> int {
    if speed == 0 {
        u64::MAX as int
    } else {
        (if delay * 1000 > u64::MAX {
            u64::MAX as int
        } else {
            delay * 1000
        }) / speed
    }
}

/// See [`scaled_delay`].
pub fn scale_delay(delay: u64, speed: u32) -> (r: u64)
    ensures
        r == scaled_delay(delay as int, speed as int),
{
    if speed == 0 {
        u64::MAX
    } else {
        let scaled: u64 = if delay > u64::MAX / 1000 {
            u64::MAX
        } else {
            delay * 1000
        };
        scaled / speed as u64
    }
}

/// `grid2` is `grid1` with one unit of contribution `delta` moved from
/// `(fx, fy)` to `(tx, ty)`.
pub open spec fn moved(grid1: &Grid, grid2: &Grid, fx: int, fy: int, tx: int, ty: int, delta: int) -> bool {
    &&& grid2.wf()
    &&& grid2.cols() == grid1.cols()
    &&& grid2.rows() == grid1.rows()
    &&& forall|a: int, b: int|
        #![trigger grid2.count(a, b)]
        grid1.in_bounds(a, b) ==> grid2.count(a, b) == grid1.count(a, b) - (if a == fx && b
            == fy {
            delta
        } else {
            0
        }) + (if a == tx && b == ty {
            delta
        } else {
            0
        })
}

/// Moves the claim of a unit of force `ally` from `(last_x, last_y)` to
/// `(x, y)` and makes `(x, y)` its target. Exactly those two cells change.
pub fn grid_info_move_to(grid: &mut Grid, info: &mut UnitInfo, x: i32, y: i32, ally: bool)
    requires
        old(grid).wf(),
        old(grid).in_bounds(old(info).last_x as int, old(info).last_y as int),
        old(grid).in_bounds(x as int, y as int),
        i32::MIN <= old(grid).count(old(info).last_x as int, old(info).last_y as int) - force_sign(
            ally,
        ) <= i32::MAX,
        i32::MIN <= old(grid).count(x as int, y as int) - (if x == old(info).last_x && y == old(
            info,
        ).last_y {
            force_sign(ally)
        } else {
            0
        }) + force_sign(ally) <= i32::MAX,
    ensures
        moved(
            old(grid),
            final(grid),
            old(info).last_x as int,
            old(info).last_y as int,
            x as int,
            y as int,
            force_sign(ally),
        ),
        *final(info) == (UnitInfo { target_x: x, target_y: y, ..*old(info) }),
{
    let count_change: i32 = if ally { 1 } else { -1 };
    let ghost g0 = *grid;
    grid.change_by_count(info.last_x, info.last_y, -count_change);
    let ghost g1 = *grid;
    grid.change_by_count(x, y, count_change);
    proof {
        assert forall|a: int, b: int| #![trigger grid.count(a, b)] g0.in_bounds(a, b) implies grid.count(a, b)
            == g0.count(a, b) - (if a == info.last_x && b == info.last_y {
            force_sign(ally)
        } else {
            0
        }) + (if a == x && b == y {
            force_sign(ally)
        } else {
            0
        }) by {
            assert(g1.count(a, b) == g0.count(a, b) - (if a == info.last_x && b == info.last_y {
                force_sign(ally)
            } else {
                0
            }));
        }
    }
    info.target_x = x;
    info.target_y = y;
}

/// A move changes two cells by opposite amounts, so the total of all the
/// counts of the grid stays the same.
pub proof fn lemma_move_keeps_total(g1: &Grid, g2: &Grid, fx: int, fy: int, tx: int, ty: int, delta: int)
    requires
        g1.wf(),
        moved(g1, g2, fx, fy, tx, ty, delta),
        g1.in_bounds(fx, fy),
        g1.in_bounds(tx, ty),
    ensures
        grid_total(g2) == grid_total(g1),
{
    let c1 = |a: int, b: int| g1.count(a, b);
    let c2 = |a: int, b: int| g2.count(a, b);
    let out = |a: int, b: int| if a == fx && b == fy { -delta } else { 0 };
    let inn = |a: int, b: int| if a == tx && b == ty { delta } else { 0 };
    let mid = |a: int, b: int| g1.count(a, b) + (if a == fx && b == fy { -delta } else { 0 });
    let m = g1.cols();
    let n = g1.rows();
    lemma_rect_sum_add(c1, out, mid, m, n);
    lemma_rect_sum_add(mid, inn, c2, m, n);
    lemma_rect_sum_single(out, m, n, fx, fy, -delta);
    lemma_rect_sum_single(inn, m, n, tx, ty, delta);
    assert(grid_total(g1) == rect_sum(c1, m, n));
    assert(grid_total(g2) == rect_sum(c2, m, n));
}

/// Cell `(a, b)` is inside `grid` and held by the force opposing `ally`.
pub open spec fn enemy_cell(grid: &Grid, ally: bool, a: int, b: int) -> bool {
    grid.status(a, b) == Some(if ally { GridStatus::Enemy } else { GridStatus::Friend })
}

/// Cell `(a, b)` is an enemy cell for `ally` at a distance from `(x, y)`
/// between 1 and `range`.
pub open spec fn enemy_in_range(grid: &Grid, x: int, y: int, ally: bool, range: int, a: int, b: int) -> bool {
    enemy_cell(grid, ally, a, b) && 1 <= manhattan(a, b, x, y) <= range
}

/// Appends `(px, py)` to `result` when it is an enemy cell for `ally`.
fn push_if_enemy(grid: &Grid, result: &mut Vec<(i32, i32)>, px: i64, py: i64, ally: bool)
    requires
        grid.wf(),
    ensures
        enemy_cell(grid, ally, px as int, py as int) ==> final(result)@ == old(result)@.push(
            (px as i32, py as i32),
        ),
        enemy_cell(grid, ally, px as int, py as int) ==> px as i32 == px && py as i32 == py,
        !enemy_cell(grid, ally, px as int, py as int) ==> final(result)@ == old(result)@,
{
    if 0 <= px && px <= i32::MAX as i64 && 0 <= py && py <= i32::MAX as i64 {
        let is_enemy = match grid.get_status(px as i32, py as i32) {
            Some(GridStatus::Enemy) => ally,
            Some(GridStatus::Friend) => !ally,
            _ => false,
        };
        if is_enemy {
            result.push((px as i32, py as i32));
        }
    }
}

proof fn lemma_push_contains<T>(s: Seq<T>, v: T, p: T)
    ensures
        s.push(v).contains(p) <==> (s.contains(p) || p == v),
{
    if s.contains(p) {
        let i = choose|i: int| 0 <= i < s.len() && s[i] == p;
        assert(s.push(v)[i] == p);
    }
    if p == v {
        assert(s.push(v)[s.len() as int] == p);
    }
    if s.push(v).contains(p) {
        let i = choose|i: int| 0 <= i < s.push(v).len() && s.push(v)[i] == p;
        if i < s.len() {
            assert(s[i] == p);
        }
    }
}

proof fn lemma_push_no_duplicates<T>(s: Seq<T>, v: T)
    requires
        s.no_duplicates(),
        !s.contains(v),
    ensures
        s.push(v).no_duplicates(),
{
    let t = s.push(v);
    assert forall|i: int, j: int| 0 <= i < t.len() && 0 <= j < t.len() && i != j implies t[i]
        != t[j] by {
        if i < s.len() && j < s.len() {
            assert(t[i] == s[i] && t[j] == s[j]);
        } else if i < s.len() {
            assert(t[i] == s[i]);
        } else if j < s.len() {
            assert(t[j] == s[j]);
        }
    }
}

/// Every enemy cell for `ally` whose distance from `(x, y)` is between 1
/// and `range`, each once. The grid is swept ring by ring; the order of
/// the cells is not part of the contract.
pub fn find_enemy_in_range(grid: &Grid, x: i32, y: i32, ally: bool, range: i32) -> (r: Vec<(i32, i32)>)
    requires
        grid.wf(),
    ensures
        r@.no_duplicates(),
        forall|a: i32, b: i32|
            #[trigger] r@.contains((a, b)) <==> enemy_in_range(
                grid,
                x as int,
                y as int,
                ally,
                range as int,
                a as int,
                b as int,
            ),
{
    let mut result: Vec<(i32, i32)> = Vec::new();
    let w: i64 = grid.width() as i64;
    let xx: i64 = x as i64;
    let yy: i64 = y as i64;
    let mut cur: i64 = 1;
    while cur <= range as i64
        invariant
            grid.wf(),
            w == grid.cols(),
            xx == x,
            yy == y,
            1 <= cur,
            cur <= range + 1 || cur == 1,
            result@.no_duplicates(),
            forall|a: i32, b: i32|
                #[trigger] result@.contains((a, b)) <==> enemy_in_range(
                    grid,
                    x as int,
                    y as int,
                    ally,
                    cur - 1,
                    a as int,
                    b as int,
                ),
        decreases range - cur + 1,
    {
        let lo: i64 = if xx - cur + 1 > 0 {
            xx - cur + 1
        } else {
            0
        };
        let hi: i64 = if xx + cur - 1 < w - 1 {
            xx + cur - 1
        } else {
            w - 1
        };
        let mut rx: i64 = lo;
        while rx <= hi
            invariant
                grid.wf(),
                w == grid.cols(),
                xx == x,
                yy == y,
                1 <= cur <= range,
                lo == (if x - cur + 1 > 0 { x - cur + 1 } else { 0 }),
                hi == (if x + cur - 1 < w - 1 { x + cur - 1 } else { w - 1 }),
                lo <= rx,
                rx <= hi + 1 || rx == lo,
                result@.no_duplicates(),
                forall|a: i32, b: i32|
                    #[trigger] result@.contains((a, b)) <==> (enemy_cell(grid, ally, a as int, b as int) && (
                    1 <= manhattan(a as int, b as int, x as int, y as int) < cur || (manhattan(
                        a as int,
                        b as int,
                        x as int,
                        y as int,
                    ) == cur && abs(a - x) < cur && a < rx))),
            decreases hi - rx + 1,
        {
            let r_y: i64 = cur - (if xx >= rx {
                xx - rx
            } else {
                rx - xx
            });
            let ghost before = result@;
            push_if_enemy(grid, &mut result, rx, yy + r_y, ally);
            let ghost middle = result@;
            push_if_enemy(grid, &mut result, rx, yy - r_y, ally);
            proof {
                let above = ((rx as i32), ((yy + r_y) as i32));
                let below = ((rx as i32), ((yy - r_y) as i32));
                if enemy_cell(grid, ally, rx as int, (yy + r_y) as int) {
                    assert(!before.contains(above));
                    lemma_push_no_duplicates(before, above);
                    assert forall|a: i32, b: i32| #[trigger] middle.contains((a, b)) <==> (before.contains((a, b)) || (a, b) == above) by {
                        lemma_push_contains(before, above, (a, b));
                    }
                }
                if enemy_cell(grid, ally, rx as int, (yy - r_y) as int) {
                    assert(!middle.contains(below));
                    lemma_push_no_duplicates(middle, below);
                    assert forall|a: i32, b: i32| #[trigger] result@.contains((a, b)) <==> (middle.contains((a, b)) || (a, b) == below) by {
                        lemma_push_contains(middle, below, (a, b));
                    }
                }
            }
            rx = rx + 1;
        }
        let ghost before = result@;
        push_if_enemy(grid, &mut result, xx - cur, yy, ally);
        let ghost middle = result@;
        push_if_enemy(grid, &mut result, xx + cur, yy, ally);
        proof {
            let west = (((xx - cur) as i32), (yy as i32));
            let east = (((xx + cur) as i32), (yy as i32));
            if enemy_cell(grid, ally, (xx - cur) as int, yy as int) {
                assert(!before.contains(west));
                lemma_push_no_duplicates(before, west);
                assert forall|a: i32, b: i32| #[trigger] middle.contains((a, b)) <==> (before.contains((a, b)) || (a, b) == west) by {
                    lemma_push_contains(before, west, (a, b));
                }
            }
            if enemy_cell(grid, ally, (xx + cur) as int, yy as int) {
                assert(!middle.contains(east));
                lemma_push_no_duplicates(middle, east);
                assert forall|a: i32, b: i32| #[trigger] result@.contains((a, b)) <==> (middle.contains((a, b)) || (a, b) == east) by {
                    lemma_push_contains(middle, east, (a, b));
                }
            }
        }
        cur = cur + 1;
    }
    result
}

/// A search does not depend on which force makes it: on a grid whose
/// counts are those of `g1` negated, the opposite force finds exactly the
/// cells that `ally` finds on `g1`.
pub proof fn lemma_range_search_symmetry(g1: &Grid, g2: &Grid, x: int, y: int, ally: bool, range: int)
    requires
        g1.wf(),
        g2.wf(),
        g1.cols() == g2.cols(),
        g1.rows() == g2.rows(),
        forall|a: int, b: int| g1.in_bounds(a, b) ==> #[trigger] g2.count(a, b) == -g1.count(a, b),
    ensures
        forall|a: int, b: int|
            #[trigger] enemy_in_range(g1, x, y, ally, range, a, b) == enemy_in_range(
                g2,
                x,
                y,
                !ally,
                range,
                a,
                b,
            ),
{
    assert forall|a: int, b: int|
        #[trigger] enemy_in_range(g1, x, y, ally, range, a, b) == enemy_in_range(
            g2,
            x,
            y,
            !ally,
            range,
            a,
            b,
        ) by {
        if g1.in_bounds(a, b) {
            assert(g2.count(a, b) == -g1.count(a, b));
        }
    }
}

/// The permille of its course that a unit has run at time `now`, clamped
/// to `[0, 1000]`; 0 when the action has no length.
pub open spec fn progress(now: int, start: int, end: int) -> int {
    if end <= start || now <= start {
        0
    } else if now >= end {
        1000
    } else {
        (now - start) * 1000 / (end - start)
    }
}

/// The interpolated position of a unit, in thousandths of a cell: from
/// `last` towards `target` by the progress of its action.
pub open spec fn interpolated(last: int, target: int, p: int) -> int {
    last * 1000 + (target - last) * p
}

/// The visual position of a unit at its current time, in thousandths of a
/// cell. Unlike a raw ratio, the progress is clamped so that the position
/// never overshoots the target.
pub fn update_pos(time: &UnitTime, info: &UnitInfo) -> (r: (i64, i64))
    ensures
        r.0 == interpolated(
            info.last_x as int,
            info.target_x as int,
            progress(time.time as int, info.start_time as int, info.end_time as int),
        ),
        r.1 == interpolated(
            info.last_y as int,
            info.target_y as int,
            progress(time.time as int, info.start_time as int, info.end_time as int),
        ),
{
    let p: i64 = if info.end_time <= info.start_time || time.time <= info.start_time {
        0
    } else if time.time >= info.end_time {
        1000
    } else {
        let elapsed: u128 = (time.time - info.start_time) as u128;
        let span: u128 = (info.end_time - info.start_time) as u128;
        proof {
            let e = elapsed as int;
            let sp = span as int;
            assert(e * 1000 / sp <= 1000) by (nonlinear_arith)
                requires
                    e < sp,
                    0 < sp,
            ;
        }
        (elapsed * 1000 / span) as i64
    };
    assert(0 <= p <= 1000);
    proof {
        let p_ = p as int;
        assert forall|d: int| -0x1_0000_0000 <= d <= 0x1_0000_0000 implies -0x100_0000_0000_00 <= #[trigger] (d * p_) <= 0x100_0000_0000_00 by {
            assert(-0x100_0000_0000_00 <= d * p_ <= 0x100_0000_0000_00) by (nonlinear_arith)
                requires
                    -0x1_0000_0000 <= d <= 0x1_0000_0000,
                    0 <= p_ <= 1000,
            ;
        }
    }
    let px: i64 = info.last_x as i64 * 1000 + (info.target_x as i64 - info.last_x as i64) * p;
    let py: i64 = info.last_y as i64 * 1000 + (info.target_y as i64 - info.last_y as i64) * p;
    (px, py)
}

} // verus!
