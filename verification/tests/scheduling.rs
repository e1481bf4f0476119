use tactics::ability::{Ability, DamageKind, Effect, EffectStats, EnemyKind};
use tactics::grid::{AllyId, Tile};
use tactics::level::{Bestiary, Entity, EntityKind, Level, UnitStats};
use tactics::planner::Plan;
use tactics::position::Position;
use tactics::round::TurnEvent;
use tactics::scheduler::{remove_from_order, remove_from_queue, sort_turn_order, Signal, Turn};
use tactics::unit::{Ally, EnemyAction, LastKnown};

fn at(x: usize, y: usize) -> Position {
    Position { x, y }
}

fn stats(max_health: u16, speed: u16, ability_list: u8, trait_list: u8) -> UnitStats {
    UnitStats { max_health, speed, view_distance: 6, width: 1, height: 1, ability_list, trait_list }
}

fn bestiary() -> Bestiary {
    Bestiary {
        bat: stats(2, 4, 2, 0),
        vampire: stats(5, 3, 3, 1),
        big_batty: UnitStats {
            max_health: 10,
            speed: 2,
            view_distance: 6,
            width: 2,
            height: 2,
            ability_list: 4,
            trait_list: 0,
        },
    }
}

#[test]
fn faster_enemies_come_first_and_equals_keep_their_order() {
    let mut order = vec![(0, 5), (1, 1), (2, 5)];
    sort_turn_order(&mut order);
    assert_eq!(order, vec![(0, 5), (2, 5), (1, 1)]);
    let mut order = vec![(0, 2), (1, 2), (2, 9), (3, 0), (4, 9), (5, 2), (6, u16::MAX)];
    sort_turn_order(&mut order);
    assert_eq!(
        order,
        vec![(6, u16::MAX), (2, 9), (4, 9), (0, 2), (1, 2), (5, 2), (3, 0)]
    );
    let mut none: Vec<(u16, u16)> = vec![];
    sort_turn_order(&mut none);
    assert!(none.is_empty());
}

#[test]
fn level_starts_with_the_turn_order_sorted_by_speed() {
    let enemy = |speed: u16, x: usize| Entity {
        kind: EntityKind::Enemy { kind: EnemyKind::Bat, stats: stats(2, speed, 2, 0) },
        position: at(x, 3),
    };
    let level = Level::load(&vec![enemy(5, 1), enemy(1, 2), enemy(5, 3)], bestiary()).unwrap();
    assert_eq!(level.turn_order(), &vec![(0, 5), (2, 5), (1, 1)]);
    assert_eq!(level.turn(), Turn::Ally);
}

#[test]
fn removal_from_the_turn_order_keeps_the_others_in_place() {
    let mut order = vec![(6, 9), (2, 9), (4, 9), (0, 2)];
    remove_from_order(&mut order, 2);
    assert_eq!(order, vec![(6, 9), (4, 9), (0, 2)]);
    remove_from_order(&mut order, 7);
    assert_eq!(order, vec![(6, 9), (4, 9), (0, 2)]);
    remove_from_order(&mut order, 0);
    remove_from_order(&mut order, 6);
    assert_eq!(order, vec![(4, 9)]);
    let mut queue = vec![3, 1, 3, 2];
    remove_from_queue(&mut queue, 3);
    assert_eq!(queue, vec![1, 2]);
}

#[test]
fn scheduler_follows_its_transitions() {
    assert_eq!(Turn::Ally.after(Signal::AlliesDone, 3), Turn::Enemy(0, false));
    assert_eq!(Turn::Enemy(0, false).after(Signal::MoveStarted, 3), Turn::Enemy(0, true));
    assert_eq!(Turn::Enemy(0, true).after(Signal::ActionResolved, 3), Turn::Enemy(1, false));
    assert_eq!(Turn::Enemy(1, false).after(Signal::NoAction, 3), Turn::Enemy(2, false));
    assert_eq!(Turn::Enemy(3, false).after(Signal::RoundOver, 3), Turn::Ally);
}

#[test]
fn signals_that_do_not_fit_change_nothing() {
    assert_eq!(Turn::Ally.after(Signal::MoveStarted, 3), Turn::Ally);
    assert_eq!(Turn::Ally.after(Signal::RoundOver, 3), Turn::Ally);
    assert_eq!(Turn::Enemy(2, false).after(Signal::RoundOver, 3), Turn::Enemy(2, false));
    assert_eq!(Turn::Enemy(3, false).after(Signal::MoveStarted, 3), Turn::Enemy(3, false));
    assert_eq!(Turn::Enemy(3, false).after(Signal::NoAction, 3), Turn::Enemy(3, false));
    assert_eq!(Turn::Enemy(1, true).after(Signal::MoveStarted, 3), Turn::Enemy(1, true));
    assert_eq!(Turn::Enemy(1, false).after(Signal::ActionResolved, 3), Turn::Enemy(1, false));
    assert_eq!(Turn::Enemy(1, false).after(Signal::AlliesDone, 3), Turn::Enemy(1, false));
    assert_eq!(
        Turn::Enemy(usize::MAX, true).after(Signal::ActionResolved, 3),
        Turn::Enemy(usize::MAX, true)
    );
}

#[test]
fn ally_phase_lasts_until_each_ally_has_acted() {
    let mut level = Level::new(bestiary());
    assert!(level.add_ally(Ally::new(AllyId::AshMagnum, at(5, 5), 6, 3, 6, 0, 0)));
    assert!(level.add_ally(Ally::new(AllyId::Alukrod, at(6, 5), 6, 3, 6, 1, 1)));
    assert_eq!(level.add_enemy(EnemyKind::Bat, at(5, 4), stats(9, 4, 2, 0)), Some(0));
    assert!(!level.all_acted());
    assert!(matches!(level.advance_turn(), TurnEvent::AllyPhaseBegan));
    assert_eq!(level.turn(), Turn::Ally);
    level.use_ability(AllyId::AshMagnum, at(5, 4), Some(0)).unwrap();
    assert!(matches!(level.advance_turn(), TurnEvent::AllyPhaseBegan));
    assert!(level.select_ability(AllyId::Alukrod, 3));
    level.use_ability(AllyId::Alukrod, at(6, 5), None).unwrap();
    assert!(level.all_acted());
    match level.advance_turn() {
        TurnEvent::EnemyActed { unit_id, .. } => assert_eq!(unit_id, 0),
        other => panic!("{:?}", other),
    }
    assert_eq!(level.turn(), Turn::Enemy(1, false));
    assert!(matches!(level.advance_turn(), TurnEvent::RoundEnded));
    assert_eq!(level.turn(), Turn::Ally);
    assert!(!level.all_acted());
    assert!(matches!(level.advance_turn(), TurnEvent::AllyPhaseBegan));
}

#[test]
fn skip_ends_the_ally_phase() {
    let mut level = Level::new(bestiary());
    assert!(level.add_ally(Ally::new(AllyId::AshMagnum, at(5, 5), 6, 3, 6, 0, 0)));
    level.skip();
    assert_eq!(level.turn(), Turn::Enemy(0, false));
    level.skip();
    assert_eq!(level.turn(), Turn::Enemy(0, false));
    assert!(matches!(level.advance_turn(), TurnEvent::RoundEnded));
    assert_eq!(level.turn(), Turn::Ally);
}

#[test]
fn round_end_frees_the_allies_and_ticks_the_effects() {
    let mut level = Level::new(bestiary());
    let mut ally = Ally::new(AllyId::AshMagnum, at(5, 5), 6, 3, 6, 0, 0);
    ally.has_moved = true;
    ally.has_acted = true;
    ally.effects.insert(Effect::Burn, EffectStats { magnitude: 2, duration: 2 });
    assert!(level.add_ally(ally));
    assert_eq!(level.add_enemy(EnemyKind::Bat, at(9, 9), stats(5, 4, 2, 0)), Some(0));
    level.end_round();
    let ally = level.get_ally(AllyId::AshMagnum).unwrap();
    assert!(!ally.has_moved && !ally.has_acted);
    assert_eq!(ally.health, 4);
    assert_eq!(ally.effects.burn, Some(EffectStats { magnitude: 2, duration: 1 }));
    level.end_round();
    let ally = level.get_ally(AllyId::AshMagnum).unwrap();
    assert_eq!(ally.health, 2);
    assert_eq!(ally.effects.burn, None);
    level.end_round();
    assert_eq!(level.get_ally(AllyId::AshMagnum).unwrap().health, 2);
    assert_eq!(level.get_enemy(0).unwrap().health, 5);
}

#[test]
fn burn_kills_at_the_end_of_the_round() {
    let mut level = Level::new(bestiary());
    assert!(level.add_ally(Ally::new(AllyId::Alukrod, at(5, 5), 6, 3, 6, 1, 1)));
    assert_eq!(level.add_enemy(EnemyKind::Bat, at(5, 9), stats(3, 4, 2, 0)), Some(0));
    assert_eq!(level.add_enemy(EnemyKind::Bat, at(9, 9), stats(3, 2, 2, 0)), Some(1));
    assert!(level.select_ability(AllyId::Alukrod, 1));
    level.use_ability(AllyId::Alukrod, at(5, 9), Some(0)).unwrap();
    assert_eq!(level.get_enemy(0).unwrap().health, 1);
    level.end_round();
    assert!(level.get_enemy(0).is_none());
    assert_eq!(level.at(at(5, 9)), Tile::Empty);
    assert_eq!(level.turn_order(), &vec![(1, 2)]);
    let mut dying = Ally::new(AllyId::AshMagnum, at(1, 1), 6, 3, 6, 0, 0);
    dying.health = 1;
    dying.effects.insert(Effect::Burn, EffectStats { magnitude: 1, duration: 3 });
    assert!(level.add_ally(dying));
    level.end_round();
    assert!(level.get_ally(AllyId::AshMagnum).is_none());
    assert_eq!(level.at(at(1, 1)), Tile::Empty);
    assert!(level.get_ally(AllyId::Alukrod).is_some());
}

#[test]
fn mist_keeps_the_burn_of_the_round_off() {
    let mut level = Level::new(bestiary());
    let mut ally = Ally::new(AllyId::Alukrod, at(5, 5), 6, 3, 6, 1, 1);
    ally.effects.insert(Effect::Burn, EffectStats { magnitude: 2, duration: 3 });
    ally.effects.insert(Effect::Mist, EffectStats { magnitude: 0, duration: 1 });
    assert!(level.add_ally(ally));
    level.end_round();
    let ally = level.get_ally(AllyId::Alukrod).unwrap();
    assert_eq!(ally.health, 6);
    assert_eq!(ally.effects.mist, None);
    level.end_round();
    assert_eq!(level.get_ally(AllyId::Alukrod).unwrap().health, 4);
}

#[test]
fn spawned_enemy_waits_for_the_end_of_the_round() {
    let mut level = Level::new(bestiary());
    assert_eq!(level.add_enemy(EnemyKind::Vampire, at(3, 3), stats(5, 3, 3, 1)), Some(0));
    assert_eq!(level.spawn_enemy(EnemyKind::Bat, at(4, 3)), Some(1));
    assert_eq!(level.at(at(4, 3)), Tile::Enemy(1));
    assert_eq!(level.turn_order(), &vec![(0, 3)]);
    assert_eq!(level.spawn_queue(), &vec![1]);
    let bat = level.get_enemy(1).unwrap();
    assert_eq!((bat.health, bat.speed, bat.kind), (2, 4, EnemyKind::Bat));
    assert_eq!(bat.abilities.len(), 1);
    assert_eq!(bat.abilities[0].ability, Ability::BatBite);
    level.skip();
    match level.advance_turn() {
        TurnEvent::EnemyActed { unit_id, path, outcome } => {
            assert_eq!(unit_id, 0);
            assert_eq!(path, None);
            assert_eq!(outcome, None);
        },
        other => panic!("{:?}", other),
    }
    assert!(matches!(level.advance_turn(), TurnEvent::RoundEnded));
    assert_eq!(level.turn_order(), &vec![(1, 4), (0, 3)]);
    assert!(level.spawn_queue().is_empty());
    assert_eq!(level.spawn_enemy(EnemyKind::Bat, at(4, 3)), None);
    assert_eq!(level.spawn_enemy(EnemyKind::BigBatty, at(15, 3)), None);
    assert_eq!(level.spawn_enemy(EnemyKind::BigBatty, at(14, 3)), Some(2));
}

#[test]
fn plan_without_a_path_only_notes_what_was_seen() {
    let mut level = Level::new(bestiary());
    assert_eq!(level.add_enemy(EnemyKind::Bat, at(3, 3), stats(5, 3, 2, 0)), Some(0));
    let known = LastKnown { ash_magnum: Some(at(1, 1)), alukrod: None };
    level.apply_plan(
        0,
        Plan {
            path: None,
            action: Some((
                Ability::BatBite,
                EnemyAction::Attack {
                    ally_id: AllyId::AshMagnum,
                    damage_kind: DamageKind::Normal,
                    damage: 1,
                },
            )),
            last_known_positions: known,
        },
    );
    let enemy = level.get_enemy(0).unwrap();
    assert_eq!(enemy.position, at(3, 3));
    assert_eq!(enemy.last_known_positions, known);
}

#[test]
fn plan_moves_the_whole_footprint_and_hits_the_ally() {
    let mut level = Level::new(bestiary());
    assert!(level.add_ally(Ally::new(AllyId::AshMagnum, at(5, 5), 6, 3, 6, 0, 0)));
    assert_eq!(level.add_enemy(EnemyKind::BigBatty, at(5, 1), bestiary().big_batty), Some(0));
    level.apply_plan(
        0,
        Plan {
            path: Some(vec![at(5, 2), at(5, 3)]),
            action: Some((
                Ability::BigBatBite,
                EnemyAction::Attack {
                    ally_id: AllyId::AshMagnum,
                    damage_kind: DamageKind::Normal,
                    damage: 2,
                },
            )),
            last_known_positions: LastKnown::new(),
        },
    );
    assert_eq!(level.get_enemy(0).unwrap().position, at(5, 3));
    for (x, y) in [(5, 3), (6, 3), (5, 4), (6, 4)] {
        assert_eq!(level.at(at(x, y)), Tile::Enemy(0));
    }
    for (x, y) in [(5, 1), (6, 1), (5, 2), (6, 2)] {
        assert_eq!(level.at(at(x, y)), Tile::Empty);
    }
    assert_eq!(level.get_ally(AllyId::AshMagnum).unwrap().health, 4);
}

#[test]
fn plan_that_leads_onto_a_taken_cell_leaves_the_enemy_where_it_is() {
    let mut level = Level::new(bestiary());
    assert!(level.add_ally(Ally::new(AllyId::AshMagnum, at(5, 5), 6, 3, 6, 0, 0)));
    assert_eq!(level.add_enemy(EnemyKind::Bat, at(5, 3), stats(5, 3, 2, 0)), Some(0));
    level.apply_plan(
        0,
        Plan { path: Some(vec![at(5, 4), at(5, 5)]), action: None, last_known_positions: LastKnown::new() },
    );
    assert_eq!(level.get_enemy(0).unwrap().position, at(5, 3));
    assert_eq!(level.at(at(5, 5)), Tile::Ally(AllyId::AshMagnum));
    level.apply_plan(
        0,
        Plan {
            path: Some(vec![Position { x: 99, y: 0 }]),
            action: Some((
                Ability::Whip,
                EnemyAction::Attack {
                    ally_id: AllyId::AshMagnum,
                    damage_kind: DamageKind::Normal,
                    damage: 2,
                },
            )),
            last_known_positions: LastKnown::new(),
        },
    );
    assert_eq!(level.get_enemy(0).unwrap().position, at(5, 3));
    assert_eq!(level.get_ally(AllyId::AshMagnum).unwrap().health, 6);
}

#[test]
fn enemy_that_kills_an_ally_takes_it_off_the_grid() {
    let mut level = Level::new(bestiary());
    let mut ally = Ally::new(AllyId::Alukrod, at(5, 5), 6, 3, 6, 1, 1);
    ally.health = 1;
    assert!(level.add_ally(ally));
    assert_eq!(level.add_enemy(EnemyKind::Vampire, at(5, 3), stats(5, 3, 3, 1)), Some(0));
    level.apply_plan(
        0,
        Plan {
            path: Some(vec![at(5, 4)]),
            action: Some((
                Ability::VampireBite,
                EnemyAction::Attack {
                    ally_id: AllyId::Alukrod,
                    damage_kind: DamageKind::LifeSteal,
                    damage: 1,
                },
            )),
            last_known_positions: LastKnown::new(),
        },
    );
    assert!(level.get_ally(AllyId::Alukrod).is_none());
    assert_eq!(level.at(at(5, 5)), Tile::Empty);
    assert_eq!(level.at(at(5, 4)), Tile::Enemy(0));
    assert_eq!(level.get_enemy(0).unwrap().health, 5);
}
