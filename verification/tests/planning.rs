use tactics::ability::{Ability, DamageKind, EnemyKind};
use tactics::fov::compute_fov;
use tactics::grid::{AllyId, Tile};
use tactics::level::{Bestiary, Level, UnitStats};
use tactics::planner::{best, evaluate, is_better, list_goals, Plan, Rank};
use tactics::position::Position;
use tactics::round::TurnEvent;
use tactics::unit::{Ally, EnemyAction, LastKnown, ObstacleKind};

fn at(x: usize, y: usize) -> Position {
    Position { x, y }
}

fn stats(max_health: u16, speed: u16, view_distance: u16, ability_list: u8) -> UnitStats {
    UnitStats { max_health, speed, view_distance, width: 1, height: 1, ability_list, trait_list: 0 }
}

fn big_batty() -> UnitStats {
    UnitStats {
        max_health: 10,
        speed: 2,
        view_distance: 6,
        width: 2,
        height: 2,
        ability_list: 4,
        trait_list: 0,
    }
}

fn bestiary() -> Bestiary {
    Bestiary { bat: stats(2, 4, 6, 2), vampire: stats(5, 3, 6, 3), big_batty: big_batty() }
}

fn bite(ally_id: AllyId) -> EnemyAction {
    EnemyAction::Attack { ally_id, damage_kind: DamageKind::Normal, damage: 1 }
}

fn plan_of(level: &Level, id: u16) -> Plan {
    level.get_enemy(id).unwrap().plan(level)
}

fn attack(beyond: bool, damage: u32, range: u16, cost: usize) -> Rank {
    Rank { spawn: false, beyond, damage, range, cost }
}

#[test]
fn candidates_in_reach_this_turn_come_first() {
    assert!(is_better(attack(false, 1, 1, 9), attack(true, 9, 9, 1)));
    assert!(!is_better(attack(true, 9, 9, 1), attack(false, 1, 1, 9)));
}

#[test]
fn more_damage_then_more_range_then_the_shorter_way() {
    assert!(is_better(attack(false, 3, 1, 9), attack(false, 2, 6, 1)));
    assert!(is_better(attack(false, 2, 6, 9), attack(false, 2, 1, 1)));
    assert!(is_better(attack(false, 2, 6, 1), attack(false, 2, 6, 2)));
    assert!(!is_better(attack(false, 2, 6, 2), attack(false, 2, 6, 2)));
    assert!(is_better(attack(true, 3, 1, 9), attack(true, 2, 6, 1)));
}

#[test]
fn every_attack_outranks_every_spawn_and_spawns_are_equal() {
    let spawn = Rank { spawn: true, beyond: false, damage: 0, range: 1, cost: 1 };
    let other = Rank { spawn: true, beyond: true, damage: 9, range: 9, cost: 0 };
    assert!(is_better(attack(true, 0, 0, 500), spawn));
    assert!(!is_better(spawn, attack(true, 0, 0, 500)));
    assert!(!is_better(spawn, other));
    assert!(!is_better(other, spawn));
}

#[test]
fn top_of_the_ranking_is_the_first_of_the_best() {
    let spawn = Rank { spawn: true, beyond: false, damage: 0, range: 1, cost: 1 };
    assert_eq!(best(&vec![spawn, spawn]), 0);
    assert_eq!(best(&vec![spawn, attack(true, 1, 1, 9), attack(true, 1, 1, 9)]), 1);
    assert_eq!(
        best(&vec![
            attack(true, 5, 1, 3),
            attack(false, 1, 1, 4),
            attack(false, 2, 1, 4),
            attack(false, 2, 1, 2),
            attack(false, 2, 1, 2),
            spawn,
        ]),
        3
    );
}

#[test]
fn enemy_walks_to_the_nearest_cell_to_hit_from_and_attacks() {
    let mut level = Level::new(bestiary());
    assert!(level.add_ally(Ally::new(AllyId::AshMagnum, at(5, 5), 6, 3, 6, 0, 0)));
    assert_eq!(level.add_enemy(EnemyKind::Bat, at(5, 1), stats(2, 4, 6, 2)), Some(0));
    let plan = plan_of(&level, 0);
    assert_eq!(plan.path, Some(vec![at(5, 2), at(5, 3), at(5, 4)]));
    assert_eq!(plan.action, Some((Ability::BatBite, bite(AllyId::AshMagnum))));
    assert_eq!(plan.last_known_positions, LastKnown { ash_magnum: Some(at(5, 5)), alukrod: None });
}

#[test]
fn goals_are_listed_in_the_order_of_the_rays() {
    let mut level = Level::new(bestiary());
    assert!(level.add_ally(Ally::new(AllyId::AshMagnum, at(5, 5), 6, 3, 6, 0, 0)));
    assert_eq!(level.add_enemy(EnemyKind::Bat, at(5, 1), stats(2, 4, 6, 2)), Some(0));
    let enemy = level.get_enemy(0).unwrap();
    let visible = compute_fov(enemy.position, enemy.view_distance, &level);
    let (goals, known) = list_goals(&level, enemy, &visible);
    let cells: Vec<Position> = goals.iter().map(|goal| goal.destination).collect();
    assert_eq!(cells, vec![at(4, 5), at(6, 5), at(5, 4), at(5, 6)]);
    for goal in &goals {
        assert_eq!(goal.ability, Some(Ability::BatBite));
        assert_eq!(goal.action, bite(AllyId::AshMagnum));
        assert_eq!((goal.range, goal.effective), (1, 1));
    }
    assert_eq!(known.ash_magnum, Some(at(5, 5)));
    let candidates = evaluate(&level, enemy, &goals);
    let costs: Vec<usize> = candidates.iter().map(|c| c.path.len()).collect();
    assert_eq!(costs, vec![5, 5, 3, 7]);
    let beyond: Vec<bool> = candidates.iter().map(|c| c.rank.beyond).collect();
    assert_eq!(beyond, vec![true, true, false, true]);
}

#[test]
fn enemy_beside_the_ally_steps_to_a_free_cell_to_hit_from() {
    let mut level = Level::new(bestiary());
    assert!(level.add_ally(Ally::new(AllyId::AshMagnum, at(5, 5), 6, 3, 6, 0, 0)));
    assert_eq!(level.add_enemy(EnemyKind::Bat, at(5, 4), stats(2, 4, 6, 2)), Some(0));
    let plan = plan_of(&level, 0);
    assert_eq!(plan.path, Some(vec![at(4, 4), at(4, 5)]));
    assert_eq!(plan.action, Some((Ability::BatBite, bite(AllyId::AshMagnum))));
}

#[test]
fn goal_beyond_the_speed_is_walked_towards_without_acting() {
    let mut level = Level::new(bestiary());
    assert!(level.add_ally(Ally::new(AllyId::AshMagnum, at(5, 9), 6, 3, 6, 0, 0)));
    assert_eq!(level.add_enemy(EnemyKind::Bat, at(5, 0), stats(2, 4, 12, 2)), Some(0));
    let plan = plan_of(&level, 0);
    assert_eq!(plan.path, Some(vec![at(5, 1), at(5, 2), at(5, 3), at(5, 4)]));
    assert_eq!(plan.action, None);
}

#[test]
fn enemy_that_sees_and_remembers_nobody_does_nothing() {
    let mut level = Level::new(bestiary());
    assert_eq!(level.add_enemy(EnemyKind::Bat, at(5, 1), stats(2, 4, 6, 2)), Some(0));
    let plan = plan_of(&level, 0);
    assert_eq!(plan.path, None);
    assert_eq!(plan.action, None);
    assert_eq!(plan.last_known_positions, LastKnown::new());
    assert!(level.add_ally(Ally::new(AllyId::AshMagnum, at(5, 20), 6, 3, 6, 0, 0)));
    let plan = plan_of(&level, 0);
    assert_eq!((plan.path, plan.action), (None, None));
}

#[test]
fn enemy_pursues_an_ally_to_where_it_saw_it_last() {
    let mut level = Level::new(bestiary());
    assert!(level.add_ally(Ally::new(AllyId::AshMagnum, at(5, 20), 6, 3, 6, 0, 0)));
    assert_eq!(level.add_enemy(EnemyKind::Bat, at(5, 1), stats(2, 4, 6, 2)), Some(0));
    let seen = LastKnown { ash_magnum: Some(at(7, 2)), alukrod: Some(at(0, 0)) };
    level.apply_plan(0, Plan { path: None, action: None, last_known_positions: seen });
    let plan = plan_of(&level, 0);
    assert_eq!(plan.path.as_ref().map(|p| p.len()), Some(3));
    assert_eq!(plan.path.unwrap().last(), Some(&at(7, 2)));
    assert_eq!(plan.action, None);
    assert_eq!(plan.last_known_positions, seen);
}

#[test]
fn stronger_ability_is_preferred() {
    let mut level = Level::new(bestiary());
    assert!(level.add_ally(Ally::new(AllyId::Alukrod, at(5, 5), 6, 3, 6, 1, 1)));
    assert_eq!(level.add_enemy(EnemyKind::Vampire, at(5, 2), stats(5, 3, 6, 3)), Some(0));
    let plan = plan_of(&level, 0);
    assert_eq!(plan.path, Some(vec![at(5, 3), at(5, 4)]));
    assert_eq!(
        plan.action,
        Some((
            Ability::VampireScratch,
            EnemyAction::Attack {
                ally_id: AllyId::Alukrod,
                damage_kind: DamageKind::Normal,
                damage: 2,
            },
        ))
    );
}

#[test]
fn of_two_allies_the_one_in_reach_is_attacked() {
    let mut level = Level::new(bestiary());
    assert!(level.add_ally(Ally::new(AllyId::AshMagnum, at(1, 1), 6, 3, 6, 0, 0)));
    assert!(level.add_ally(Ally::new(AllyId::Alukrod, at(6, 6), 6, 3, 6, 1, 1)));
    assert_eq!(level.add_enemy(EnemyKind::Bat, at(6, 3), stats(2, 4, 6, 2)), Some(0));
    let plan = plan_of(&level, 0);
    assert_eq!(plan.path, Some(vec![at(6, 4), at(6, 5)]));
    assert_eq!(plan.action, Some((Ability::BatBite, bite(AllyId::Alukrod))));
    assert_eq!(
        plan.last_known_positions,
        LastKnown { ash_magnum: Some(at(1, 1)), alukrod: Some(at(6, 6)) }
    );
}

#[test]
fn same_state_gives_the_same_plan() {
    let mut level = Level::new(bestiary());
    assert!(level.add_ally(Ally::new(AllyId::AshMagnum, at(9, 9), 6, 3, 6, 0, 0)));
    assert!(level.add_ally(Ally::new(AllyId::Alukrod, at(3, 12), 6, 3, 6, 1, 1)));
    for (x, y) in [(6, 6), (6, 7), (6, 8), (7, 8), (8, 8), (4, 10), (5, 11)] {
        assert!(level.add_obstacle(ObstacleKind::LowWall, at(x, y), 1, 1).is_some());
    }
    assert_eq!(level.add_enemy(EnemyKind::Vampire, at(5, 7), stats(5, 3, 9, 3)), Some(0));
    let first = plan_of(&level, 0);
    for _ in 0..5 {
        let again = plan_of(&level, 0);
        assert_eq!(again.path, first.path);
        assert_eq!(again.action, first.action);
        assert_eq!(again.last_known_positions, first.last_known_positions);
    }
    assert!(first.path.is_some());
}

#[test]
fn enemy_turn_moves_the_enemy_and_hits_the_ally() {
    let mut level = Level::new(bestiary());
    assert!(level.add_ally(Ally::new(AllyId::AshMagnum, at(5, 5), 6, 3, 6, 0, 0)));
    assert_eq!(level.add_enemy(EnemyKind::Bat, at(5, 1), stats(2, 4, 6, 2)), Some(0));
    level.skip();
    match level.advance_turn() {
        TurnEvent::EnemyActed { unit_id, path, outcome } => {
            assert_eq!(unit_id, 0);
            assert_eq!(path, Some(vec![at(5, 2), at(5, 3), at(5, 4)]));
            assert_eq!(outcome, Some((Ability::BatBite, bite(AllyId::AshMagnum))));
        },
        other => panic!("{:?}", other),
    }
    assert_eq!(level.at(at(5, 1)), Tile::Empty);
    assert_eq!(level.at(at(5, 4)), Tile::Enemy(0));
    let enemy = level.get_enemy(0).unwrap();
    assert_eq!(enemy.position, at(5, 4));
    assert_eq!(enemy.last_known_positions.get(AllyId::AshMagnum), Some(at(5, 5)));
    assert_eq!(level.get_ally(AllyId::AshMagnum).unwrap().health, 5);
}

/// Big Batty at (2, 2) and an ally that it sees and cannot walk to.
fn spawner() -> Level {
    let mut level = Level::new(bestiary());
    assert!(level.add_ally(Ally::new(AllyId::AshMagnum, at(8, 2), 6, 3, 6, 0, 0)));
    for x in 7..=10 {
        for y in 1..=4 {
            if (x, y) != (8, 2) {
                assert!(level.add_obstacle(ObstacleKind::LowWall, at(x, y), 1, 1).is_some());
            }
        }
    }
    assert_eq!(level.add_enemy(EnemyKind::BigBatty, at(2, 2), big_batty()), Some(0));
    level
}

fn spawn_at(position: Position) -> Option<(Ability, EnemyAction)> {
    Some((Ability::SpawnBat, EnemyAction::Spawn { enemy_kind: EnemyKind::Bat, position }))
}

#[test]
fn enemy_that_cannot_reach_the_ally_it_sees_spawns_beside_itself() {
    let level = spawner();
    let plan = plan_of(&level, 0);
    assert_eq!(plan.path, Some(vec![at(2, 2)]));
    assert_eq!(plan.action, spawn_at(at(1, 2)));
    let enemy = level.get_enemy(0).unwrap();
    let visible = compute_fov(enemy.position, enemy.view_distance, &level);
    let (goals, _) = list_goals(&level, enemy, &visible);
    let cells: Vec<EnemyAction> = goals.iter().map(|goal| goal.action).collect();
    let spawn = |x, y| EnemyAction::Spawn { enemy_kind: EnemyKind::Bat, position: at(x, y) };
    assert_eq!(
        cells,
        vec![
            spawn(1, 2),
            spawn(2, 1),
            spawn(1, 3),
            spawn(2, 4),
            spawn(4, 2),
            spawn(3, 1),
            spawn(4, 3),
            spawn(3, 4),
        ]
    );
}

#[test]
fn spawn_needs_an_ally_in_sight() {
    let mut level = Level::new(bestiary());
    assert!(level.add_ally(Ally::new(AllyId::AshMagnum, at(8, 20), 6, 3, 6, 0, 0)));
    assert_eq!(level.add_enemy(EnemyKind::BigBatty, at(2, 2), big_batty()), Some(0));
    let plan = plan_of(&level, 0);
    assert_eq!((plan.path, plan.action), (None, None));
}

#[test]
fn spawn_is_ready_again_after_three_moves() {
    let mut level = spawner();
    let plan = plan_of(&level, 0);
    assert_eq!(plan.action, spawn_at(at(1, 2)));
    level.apply_plan(0, plan);
    assert_eq!(level.at(at(1, 2)), Tile::Enemy(1));
    assert_eq!(level.spawn_queue(), &vec![1]);
    assert_eq!(level.turn_order(), &vec![(0, 2)]);
    assert_eq!(level.get_enemy(0).unwrap().abilities[1].cooldown, 3);
    assert_eq!(level.get_enemy(0).unwrap().abilities[1].uses, 1);
    for left in [2, 1, 0] {
        let waiting = plan_of(&level, 0);
        assert_eq!(waiting.path, None);
        assert_eq!(waiting.action, None);
        level.apply_plan(0, waiting);
        assert_eq!(level.get_enemy(0).unwrap().abilities[1].cooldown, left + 1);
        level.apply_plan(
            0,
            Plan {
                path: Some(vec![at(2, 2)]),
                action: None,
                last_known_positions: LastKnown { ash_magnum: Some(at(8, 2)), alukrod: None },
            },
        );
        assert_eq!(level.get_enemy(0).unwrap().abilities[1].cooldown, left);
    }
    let ready = plan_of(&level, 0);
    assert_eq!(ready.path, Some(vec![at(2, 2)]));
    assert_eq!(ready.action, spawn_at(at(2, 1)));
    level.apply_plan(0, ready);
    assert_eq!(level.at(at(2, 1)), Tile::Enemy(2));
    assert_eq!(level.spawn_queue(), &vec![1, 2]);
}

#[test]
fn spawn_on_cooldown_is_not_carried_out() {
    let mut level = spawner();
    level.apply_plan(0, plan_of(&level, 0));
    level.apply_plan(
        0,
        Plan {
            path: Some(vec![at(2, 2)]),
            action: spawn_at(at(2, 1)),
            last_known_positions: LastKnown::new(),
        },
    );
    assert_eq!(level.at(at(2, 1)), Tile::Enemy(2));
    assert_eq!(level.get_enemy(0).unwrap().abilities[1].cooldown, 3);
}
