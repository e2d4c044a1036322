use multi_warrior::anim::UnitState;
use multi_warrior::grid::{Grid, GridStatus};
use multi_warrior::spawn::{SpawnInfo, Spawner};
use multi_warrior::unit::{
    Ai, AttackingAI, AttackingAIState, DamageEvent, FxKind, MoveOnForceAI, TurningAI, Unit,
    UnitForce, UnitInfo, UnitStats, UnitTime,
};
use multi_warrior::utils::Direction;
use multi_warrior::world::{attacking_step, turning_step, World};

const FRAME: u64 = 16;

fn run_for(world: &mut World, millis: u64) {
    let mut elapsed = 0;
    while elapsed < millis {
        world.tick(FRAME);
        elapsed += FRAME;
    }
}

fn attacking() -> Ai {
    Ai::Attacking(AttackingAI, AttackingAIState::MoveToNearestEnemy)
}

/// Every cell count equals the claims of the units standing on it, and the
/// counts add up to allies less enemies.
fn assert_ledger_matches(world: &World) {
    let grid = &world.grid;
    let mut total = 0;
    for x in 0..grid.width() {
        for y in 0..grid.height() {
            let mut expected = 0;
            for u in world.units.iter() {
                if claim(u) == (x, y) {
                    expected += u.force.as_int();
                }
            }
            assert_eq!(grid.get_count(x, y), Some(expected), "cell ({}, {})", x, y);
            total += expected;
        }
    }
    let net: i32 = world.units.iter().map(|u| u.force.as_int()).sum();
    assert_eq!(total, net);
}

fn claim(u: &Unit) -> (i32, i32) {
    match u.ai {
        Ai::Turning(_) => {
            let (x, y, d) = match u.state {
                UnitState::Still(d) => (u.info.last_x, u.info.last_y, d),
                UnitState::Moving(d) => (u.info.target_x, u.info.target_y, d),
            };
            match d {
                Direction::Up => (x, y - 1),
                Direction::Left => (x + 1, y - 1),
                Direction::Down => (x + 1, y),
                Direction::Right => (x, y),
            }
        }
        _ => (u.info.target_x, u.info.target_y),
    }
}

fn assert_stay_on_0_0(world: &World) {
    let movers: Vec<&Unit> = world
        .units
        .iter()
        .filter(|u| matches!(u.ai, Ai::MoveOnForce(_)))
        .collect();
    assert_eq!(movers.len(), 1, "Expected 1 unit, got {}", movers.len());
    for u in movers {
        assert_eq!(u.info.last_x, 0, "Expected units to have last_x = 0");
        assert_eq!(u.info.last_y, 0, "Expected units to have last_y = 0");
        assert_eq!(u.info.target_x, 0, "Expected units to have target_x = 0");
        assert_eq!(u.info.target_y, 0, "Expected units to have target_y = 0");
    }
}

#[test]
fn move_on_force_ally_wont_go_on_enemy() {
    let mut world = World::new(2, 1);
    world.spawn_unit(1, 0, false, Ai::Idle, UnitStats::default());
    world.spawn_unit(0, 0, true, Ai::MoveOnForce(MoveOnForceAI::default()), UnitStats::default());
    for _ in 0..10 {
        world.tick(FRAME);
        assert_stay_on_0_0(&world);
    }
}

#[test]
fn move_on_force_enemy_wont_go_on_ally() {
    let mut world = World::new(2, 1);
    world.grid.add_friend(0, 1);
    world.spawn_unit(0, 0, false, Ai::MoveOnForce(MoveOnForceAI::default()), UnitStats::default());
    for _ in 0..10 {
        world.tick(FRAME);
        assert_stay_on_0_0(&world);
    }
}

#[test]
fn ally_boxed_in_by_enemies_only_turns() {
    let mut world = World::new(2, 1);
    world.spawn_unit(1, 0, false, Ai::Idle, UnitStats::default());
    world.spawn_unit(0, 0, true, Ai::MoveOnForce(MoveOnForceAI::default()), UnitStats::default());
    run_for(&mut world, 10_000);
    assert_eq!(world.units.len(), 2);
    let u = world.units[1];
    assert_eq!((u.info.last_x, u.info.last_y, u.info.target_x, u.info.target_y), (0, 0, 0, 0));
    assert!(u.state.is_still());
    assert_eq!(world.grid.get_count(0, 0), Some(1));
    assert_eq!(world.grid.get_count(1, 0), Some(-1));
}

#[test]
fn dead_unit_are_removed_from_grid() {
    let mut world = World::new(4, 4);
    world.spawn_unit(0, 0, true, attacking(), UnitStats { life: 0, ..UnitStats::default() });
    let mut saw_no_unit = false;
    for _ in 0..3 {
        world.tick(FRAME);
        if world.units.is_empty() {
            saw_no_unit = true;
            for x in 0..4 {
                for y in 0..4 {
                    assert_eq!(world.grid.get_status(x, y).unwrap(), GridStatus::Neutral);
                }
            }
        }
    }
    assert!(saw_no_unit);
}

#[test]
fn death_leaves_a_neutral_grid_and_a_death_effect() {
    let mut world = World::new(4, 4);
    world.spawn_unit(2, 3, false, Ai::Idle, UnitStats { life: 0, ..UnitStats::default() });
    assert_eq!(world.grid.get_status(2, 3), Some(GridStatus::Enemy));
    world.tick(FRAME);
    assert!(world.units.is_empty());
    for x in 0..4 {
        for y in 0..4 {
            assert_eq!(world.grid.get_status(x, y), Some(GridStatus::Neutral));
        }
    }
    assert_eq!(world.fx_events.len(), 1);
    assert_eq!(world.fx_events[0].kind, FxKind::Death);
    assert_eq!((world.fx_events[0].x, world.fx_events[0].y), (2, 3));
}

fn spawner(x: i32, y: i32, ally: bool, target: Option<u32>, delay: Option<u64>, last: Option<u64>, ai: Ai) -> Spawner {
    Spawner {
        info: SpawnInfo {
            target_unit_count: target,
            spawn_delay: delay,
            last_spawn: last,
            ally,
            x,
            y,
        },
        ai,
    }
}

#[test]
fn spawn_something() {
    let mut world = World::new(3, 3);
    world.add_spawner(spawner(1, 1, true, Some(3), None, Some(0), Ai::MoveOnForce(MoveOnForceAI::default())));
    run_for(&mut world, 1500);
    assert!(world.units.len() > 1);
}

#[test]
fn spawner_fills_up_to_its_target_and_stops() {
    let mut world = World::new(3, 3);
    world.add_spawner(spawner(1, 1, true, Some(3), None, Some(0), Ai::MoveOnForce(MoveOnForceAI::default())));
    let mut most = 0;
    for _ in 0..4000 {
        world.tick(FRAME);
        assert!(world.units.len() <= 3);
        most = most.max(world.units.len());
        assert_ledger_matches(&world);
    }
    assert_eq!(most, 3);
    assert_eq!(world.units.len(), 3);
    for u in world.units.iter() {
        assert!(matches!(u.ai, Ai::MoveOnForce(_)));
        assert!(u.force.ally);
    }
}

fn battle_of_two_spawners(millis: u64, size: i32, delay: u64, units: u32) -> usize {
    let mut world = World::new(size, size);
    world.add_spawner(spawner(0, 0, true, Some(units), Some(delay), None, attacking()));
    world.add_spawner(spawner(size - 1, size - 1, false, Some(units), Some(delay), None, attacking()));
    let mut most = 0;
    let mut elapsed = 0;
    while elapsed < millis {
        world.tick(FRAME);
        elapsed += FRAME;
        most = most.max(world.units.len());
        assert_ledger_matches(&world);
    }
    most
}

#[test]
fn small_battle() {
    let units = 2;
    assert!(battle_of_two_spawners(2000, 3, 1200, units) >= units as usize * 2);
}

#[test]
fn battle_of_two_warriors() {
    let mut world = World::new(4, 4);
    world.spawn_unit(0, 0, true, attacking(), UnitStats::default());
    world.spawn_unit(3, 3, false, attacking(), UnitStats::default());
    let mut elapsed = 0;
    while world.units.len() == 2 && elapsed < 15_000 {
        world.tick(FRAME);
        elapsed += FRAME;
        assert_ledger_matches(&world);
    }
    assert_eq!(world.units.len(), 1);
}

#[test]
fn spawned_units_inherit_the_spawner_behaviour() {
    let mut world = World::new(5, 5);
    world.add_spawner(spawner(0, 0, true, Some(1), None, None, Ai::Turning(TurningAI)));
    world.add_spawner(spawner(4, 4, false, Some(1), None, None, Ai::Attacking(AttackingAI, AttackingAIState::AfterAttack)));
    world.add_spawner(spawner(2, 2, true, Some(2), None, None, Ai::MoveOnForce(MoveOnForceAI { target_x: 3, target_y: 3, stick_to_target: true })));
    world.tick(FRAME);
    assert_eq!(world.units.len(), 3);
    assert_eq!(world.units[0].ai, Ai::Turning(TurningAI));
    assert_eq!(world.units[1].ai, Ai::Attacking(AttackingAI, AttackingAIState::MoveToNearestEnemy));
    assert_eq!(world.units[2].ai, Ai::MoveOnForce(MoveOnForceAI::default()));
    assert_eq!(world.spawners[0].info.last_spawn, Some(FRAME));
    assert_ledger_matches(&world);
}

#[test]
fn spawn_waits_for_the_delay_and_a_neutral_cell() {
    let grid = Grid::new(3, 3);
    let info = SpawnInfo { target_unit_count: Some(2), spawn_delay: Some(500), last_spawn: Some(1000), ally: true, x: 1, y: 1 };
    assert!(!info.want_spawn(&grid, 1499, 0));
    assert!(info.want_spawn(&grid, 1500, 0));
    assert!(info.want_spawn(&grid, 1501, 0));
    assert!(info.want_spawn(&grid, 1501, 1));
    assert!(!info.want_spawn(&grid, 1501, 2));
    let never = SpawnInfo { last_spawn: None, ..info };
    assert!(never.want_spawn(&grid, 0, 0));
    let unlimited = SpawnInfo { target_unit_count: None, ..info };
    assert!(unlimited.want_spawn(&grid, 2000, 1_000_000));
    assert!(unlimited.want_spawn(&grid, 2000, u32::MAX));
    let mut held = Grid::new(3, 3);
    held.add_enemy(1, 1);
    assert!(!info.want_spawn(&held, 5000, 0));
    let outside = SpawnInfo { x: 3, ..info };
    assert!(!outside.want_spawn(&grid, 5000, 0));
    let saturated = SpawnInfo { spawn_delay: Some(u64::MAX), ..info };
    assert!(!saturated.want_spawn(&grid, u64::MAX - 1, 0));
    assert!(!saturated.want_spawn(&grid, u64::MAX, 0));
    let last_moment = SpawnInfo { spawn_delay: Some(u64::MAX - 1000), ..info };
    assert!(last_moment.want_spawn(&grid, u64::MAX, 0));
    let at_once = SpawnInfo { spawn_delay: None, last_spawn: Some(0), ..info };
    assert!(at_once.want_spawn(&grid, 0, 0));
}

#[test]
fn spawn_claims_the_cell() {
    let mut grid = Grid::new(3, 3);
    let info = SpawnInfo { target_unit_count: None, spawn_delay: None, last_spawn: None, ally: false, x: 2, y: 0 };
    let u = info.spawn(&mut grid, Ai::Idle);
    assert_eq!(grid.get_count(2, 0), Some(-1));
    assert_eq!((u.info.last_x, u.info.last_y, u.info.target_x, u.info.target_y), (2, 0, 2, 0));
    assert_eq!(u.info.action_delay, 1000);
    assert_eq!(u.stats, UnitStats::default());
    assert_eq!(u.force, UnitForce { ally: false });
    assert_eq!(u.time, UnitTime { time: 0 });
}

#[test]
fn damage_hits_the_first_unit_on_the_cell() {
    let mut world = World::new(3, 3);
    world.spawn_unit(1, 1, true, Ai::Idle, UnitStats { life: 3, ..UnitStats::default() });
    world.spawn_unit(1, 1, true, Ai::Idle, UnitStats { life: 3, ..UnitStats::default() });
    world.spawn_unit(0, 0, false, Ai::Idle, UnitStats { life: 1, ..UnitStats::default() });
    world.damage_events.push(DamageEvent { x: 1, y: 1, from: false });
    world.damage_events.push(DamageEvent { x: 1, y: 1, from: false });
    world.damage_events.push(DamageEvent { x: 2, y: 2, from: false });
    world.damage_event_reader();
    assert!(world.damage_events.is_empty());
    assert_eq!(world.units[0].stats.life, 1);
    assert_eq!(world.units[1].stats.life, 3);
    assert_eq!(world.units[2].stats.life, 1);
    world.damage_events.push(DamageEvent { x: 0, y: 0, from: true });
    world.damage_event_reader();
    world.remove_dead_unit();
    assert_eq!(world.units.len(), 2);
    assert_eq!(world.grid.get_status(0, 0), Some(GridStatus::Neutral));
    assert_eq!(world.grid.get_count(1, 1), Some(2));
}

#[test]
fn clocks_advance_with_the_tick() {
    let mut world = World::new(2, 2);
    world.spawn_unit(0, 0, true, Ai::Idle, UnitStats::default());
    world.tick(40);
    world.tick(2);
    assert_eq!(world.time, 42);
    assert_eq!(world.units[0].time.time, 42);
    world.add_time_on_unit_info(u64::MAX);
    assert_eq!(world.units[0].time.time, u64::MAX);
}

#[test]
fn turning_unit_dances_around_a_square_and_keeps_its_claim() {
    let mut world = World::new(4, 4);
    world.spawn_unit(1, 1, true, Ai::Turning(TurningAI), UnitStats::default());
    let mut seen = vec![];
    let mut elapsed = 0;
    while elapsed < 9000 {
        world.tick(FRAME);
        elapsed += FRAME;
        let u = world.units[0];
        if seen.last() != Some(&(u.info.target_x, u.info.target_y)) {
            seen.push((u.info.target_x, u.info.target_y));
        }
        assert_eq!(world.grid.get_count(1, 1), Some(1));
        assert_ledger_matches(&world);
    }
    assert_eq!(&seen[..5], &[(1, 1), (1, 2), (0, 2), (0, 1), (1, 1)]);
    world.units[0].stats.life = 0;
    world.remove_dead_unit();
    for x in 0..4 {
        for y in 0..4 {
            assert_eq!(world.grid.get_status(x, y), Some(GridStatus::Neutral));
        }
    }
}

fn unit_at(x: i32, y: i32, ally: bool, ai: Ai, end_time: u64, time: u64) -> Unit {
    Unit {
        info: UnitInfo { last_x: x, last_y: y, action_delay: 1000, target_x: x, target_y: y, start_time: 0, end_time },
        state: UnitState::Still(Direction::Down),
        stats: UnitStats::default(),
        force: UnitForce { ally },
        time: UnitTime { time },
        ai,
    }
}

#[test]
fn turning_step_waits_for_the_end_of_the_action() {
    let mut u = unit_at(2, 2, true, Ai::Turning(TurningAI), 500, 500);
    turning_step(&mut u);
    assert_eq!(u.state, UnitState::Still(Direction::Down));
    u.time.time = 501;
    turning_step(&mut u);
    assert_eq!(u.state, UnitState::Moving(Direction::Right));
    assert_eq!((u.info.target_x, u.info.target_y), (3, 2));
    assert_eq!((u.info.start_time, u.info.end_time), (501, 1501));
    u.time.time = 1502;
    turning_step(&mut u);
    assert_eq!(u.state, UnitState::Still(Direction::Right));
    assert_eq!((u.info.last_x, u.info.last_y), (3, 2));
}

#[test]
fn prepared_attack_hits_the_close_enemy() {
    let mut grid = Grid::new(3, 3);
    grid.add_friend(1, 1);
    grid.add_enemy(1, 2);
    let mut u = unit_at(1, 1, true, Ai::Attacking(AttackingAI, AttackingAIState::PrepareAttack), 100, 100);
    let out = attacking_step(&mut grid, &mut u, [false; 4]);
    assert_eq!(out.close, Some((1, 2)));
    assert_eq!(out.damage, Some(DamageEvent { x: 1, y: 2, from: true }));
    assert_eq!(out.fire, None);
    assert_eq!(u.ai, Ai::Attacking(AttackingAI, AttackingAIState::AfterAttack));
    assert_eq!(u.state, UnitState::Still(Direction::Down));
    assert_eq!((u.info.start_time, u.info.end_time), (100, 1100));
}

#[test]
fn rested_unit_prepares_when_an_enemy_is_close() {
    let mut grid = Grid::new(3, 3);
    grid.add_friend(1, 1);
    grid.add_enemy(2, 1);
    let mut u = unit_at(1, 1, true, Ai::Attacking(AttackingAI, AttackingAIState::AfterAttack), 0, 10);
    u.stats.attack_speed = 2000;
    let out = attacking_step(&mut grid, &mut u, [false; 4]);
    assert_eq!(out.damage, None);
    assert_eq!(u.ai, Ai::Attacking(AttackingAI, AttackingAIState::PrepareAttack));
    assert_eq!(u.state, UnitState::Still(Direction::Right));
    assert_eq!(u.info.end_time, 510);
    let fire = out.fire.unwrap();
    assert_eq!((fire.kind, fire.x, fire.y, fire.duration), (FxKind::Fire, 1, 1, Some(500)));
}

#[test]
fn walking_unit_steps_towards_the_enemy() {
    let mut grid = Grid::new(4, 1);
    grid.add_friend(0, 0);
    grid.add_enemy(3, 0);
    let mut u = unit_at(0, 0, true, attacking(), 0, 10);
    let out = attacking_step(&mut grid, &mut u, [false; 4]);
    assert_eq!(out.close, None);
    assert_eq!(out.pursued, Some((3, 0)));
    assert_eq!(out.step, Some((Direction::Right, 1, 0)));
    assert_eq!(u.state, UnitState::Moving(Direction::Right));
    assert_eq!((u.info.last_x, u.info.target_x), (0, 1));
    assert_eq!(grid.get_count(0, 0), Some(0));
    assert_eq!(grid.get_count(1, 0), Some(1));
    assert_eq!(u.info.end_time, 1010);
}

#[test]
fn lone_attacker_idles() {
    let mut grid = Grid::new(3, 3);
    grid.add_enemy(1, 1);
    let mut u = unit_at(1, 1, false, attacking(), 0, 10);
    let out = attacking_step(&mut grid, &mut u, [true; 4]);
    assert_eq!(out.pursued, None);
    assert_eq!(out.step, None);
    assert_eq!(u.state, UnitState::Still(Direction::Down));
    assert_eq!(u.ai, Ai::Attacking(AttackingAI, AttackingAIState::MoveToNearestEnemy));
    assert_eq!(grid.get_count(1, 1), Some(-1));
}

#[test]
fn ledger_balances_through_a_long_skirmish() {
    let mut world = World::new(6, 6);
    world.add_spawner(spawner(0, 0, true, Some(4), Some(300), None, attacking()));
    world.add_spawner(spawner(5, 5, false, Some(4), Some(300), None, attacking()));
    world.add_spawner(spawner(0, 5, true, Some(2), Some(700), None, Ai::MoveOnForce(MoveOnForceAI::default())));
    world.add_spawner(spawner(5, 0, false, None, Some(2000), None, Ai::Turning(TurningAI)));
    for _ in 0..1500 {
        world.tick(FRAME);
        assert_ledger_matches(&world);
        for u in world.units.iter() {
            assert!(u.stats.life > 0);
        }
    }
}

