use tactics::ability::{Ability, DamageKind, Effect, EffectStats, EnemyKind, ItemKind};
use tactics::grid::{AllyId, Tile};
use tactics::level::{ActionError, Bestiary, Level, UnitStats};
use tactics::position::{Direction, Position};
use tactics::resolver::{find_target, path_within, push_target};
use tactics::traits::Trait;
use tactics::unit::{
    damage_bonus, find_slot, spend_use, AbilitySlot, Ally, Effects, Enemy, Item, LastKnown,
    ObstacleKind, Projectile, ProjectileKind,
};

fn at(x: usize, y: usize) -> Position {
    Position { x, y }
}

fn stats(max_health: u16, speed: u16, ability_list: u8, trait_list: u8) -> UnitStats {
    UnitStats { max_health, speed, view_distance: 6, width: 1, height: 1, ability_list, trait_list }
}

fn bestiary() -> Bestiary {
    Bestiary {
        bat: stats(2, 4, 2, 0),
        vampire: stats(5, 3, 3, 1),
        big_batty: UnitStats {
            max_health: 10,
            speed: 2,
            view_distance: 6,
            width: 2,
            height: 2,
            ability_list: 4,
            trait_list: 0,
        },
    }
}

/// Ash Magnum at (5, 5) and an enemy of 5 health without traits at `enemy`.
fn duel(enemy: Position) -> Level {
    let mut level = Level::new(bestiary());
    assert!(level.add_ally(Ally::new(AllyId::AshMagnum, at(5, 5), 6, 3, 6, 0, 0)));
    assert_eq!(level.add_enemy(EnemyKind::Bat, enemy, stats(5, 4, 2, 0)), Some(0));
    level
}

#[test]
fn bonus_is_summed_over_the_traits() {
    let vampire = vec![
        Trait::SilverVulnerable,
        Trait::HolyVulnerable,
        Trait::StakeVulnerable,
        Trait::SunlightVulnerable,
    ];
    assert_eq!(damage_bonus(DamageKind::Normal, &vampire), 0);
    assert_eq!(damage_bonus(DamageKind::Silver, &vampire), 1);
    assert_eq!(damage_bonus(DamageKind::Holy, &vampire), 2);
    assert_eq!(damage_bonus(DamageKind::Stake, &vampire), 1000);
    assert_eq!(damage_bonus(DamageKind::Sunlight, &vampire), 1000);
    assert_eq!(damage_bonus(DamageKind::Fire, &vampire), 0);
    assert_eq!(damage_bonus(DamageKind::LifeSteal, &vampire), 0);
    assert_eq!(damage_bonus(DamageKind::Silver, &vec![]), 0);
    let burning = vec![Trait::SunlightVulnerable, Trait::HolyFromSunlight];
    assert_eq!(damage_bonus(DamageKind::Sunlight, &burning), 1002);
    assert_eq!(damage_bonus(DamageKind::Holy, &burning), 0);
    let twice = vec![Trait::SilverVulnerable, Trait::SilverVulnerable];
    assert_eq!(damage_bonus(DamageKind::Silver, &twice), 2);
    let many = vec![Trait::StakeVulnerable; 70];
    assert_eq!(damage_bonus(DamageKind::Stake, &many), u16::MAX);
}

#[test]
fn silver_hit_on_a_silver_vulnerable_unit_takes_three() {
    let mut enemy = Enemy::new(0, at(1, 1), EnemyKind::Vampire, 5, 3, 6, (1, 1), 3, 1);
    assert_eq!(enemy.traits.len(), 4);
    enemy.hit(2, DamageKind::Silver);
    assert_eq!(enemy.health, 2);
    let mut ally = Ally::new(AllyId::Alukrod, at(1, 1), 10, 3, 6, 1, 1);
    ally.hit(2, DamageKind::Silver);
    assert_eq!(ally.health, 7);
}

#[test]
fn health_never_drops_below_zero() {
    let mut enemy = Enemy::new(0, at(1, 1), EnemyKind::Vampire, 5, 3, 6, (1, 1), 3, 1);
    enemy.health = 1;
    enemy.hit(2, DamageKind::Silver);
    assert_eq!(enemy.health, 0);
    let mut staked = Enemy::new(0, at(1, 1), EnemyKind::Vampire, 900, 3, 6, (1, 1), 3, 1);
    staked.hit(1, DamageKind::Stake);
    assert_eq!(staked.health, 0);
    let mut ally = Ally::new(AllyId::AshMagnum, at(1, 1), 3, 3, 6, 0, 0);
    ally.hit(u16::MAX, DamageKind::Normal);
    assert_eq!(ally.health, 0);
    ally.traits = vec![Trait::StakeVulnerable; 70];
    ally.health = u16::MAX;
    ally.hit(u16::MAX, DamageKind::Stake);
    assert_eq!(ally.health, 0);
}

#[test]
fn heal_stops_at_full_health() {
    let mut ally = Ally::new(AllyId::AshMagnum, at(1, 1), 6, 3, 6, 0, 0);
    ally.health = 2;
    ally.heal(3);
    assert_eq!(ally.health, 5);
    ally.heal(3);
    assert_eq!(ally.health, 6);
    ally.heal(u16::MAX);
    assert_eq!(ally.health, 6);
    let mut enemy = Enemy::new(0, at(1, 1), EnemyKind::Bat, 4, 3, 6, (1, 1), 2, 0);
    enemy.health = 1;
    enemy.heal(1);
    assert_eq!(enemy.health, 2);
    enemy.heal(9);
    assert_eq!(enemy.health, 4);
}

#[test]
fn fire_sets_alight_and_stacks() {
    let mut enemy = Enemy::new(0, at(1, 1), EnemyKind::Bat, 9, 3, 6, (1, 1), 2, 0);
    enemy.hit(2, DamageKind::Fire);
    assert_eq!(enemy.health, 7);
    assert_eq!(enemy.effects.get(Effect::Burn), Some(EffectStats { magnitude: 1, duration: 3 }));
    enemy.effects.tick();
    assert_eq!(enemy.effects.burn, Some(EffectStats { magnitude: 1, duration: 2 }));
    enemy.hit(2, DamageKind::Fire);
    assert_eq!(enemy.health, 5);
    assert_eq!(enemy.effects.burn, Some(EffectStats { magnitude: 2, duration: 2 }));
    enemy.hit(1, DamageKind::Normal);
    assert_eq!(enemy.effects.burn, Some(EffectStats { magnitude: 2, duration: 2 }));
    assert_eq!(enemy.effects.mist, None);
}

#[test]
fn mist_keeps_every_hit_off() {
    let mut ally = Ally::new(AllyId::Alukrod, at(1, 1), 6, 3, 6, 1, 1);
    ally.effects.insert(Effect::Mist, EffectStats { magnitude: 0, duration: 2 });
    assert!(ally.effects.contains_key(Effect::Mist));
    ally.hit(5, DamageKind::Fire);
    assert_eq!(ally.health, 6);
    assert_eq!(ally.effects.burn, None);
    ally.effects.remove(Effect::Mist);
    ally.hit(5, DamageKind::Fire);
    assert_eq!(ally.health, 1);
}

#[test]
fn effects_leave_when_their_rounds_are_over() {
    let mut effects = Effects::new();
    assert_eq!(effects, Effects { burn: None, mist: None });
    effects.insert(Effect::Burn, EffectStats { magnitude: 4, duration: 2 });
    effects.insert(Effect::Mist, EffectStats { magnitude: 0, duration: 1 });
    effects.tick();
    assert_eq!(effects.get(Effect::Burn), Some(EffectStats { magnitude: 4, duration: 1 }));
    assert_eq!(effects.get(Effect::Mist), None);
    effects.tick();
    assert_eq!(effects, Effects::new());
    effects.insert(Effect::Burn, EffectStats { magnitude: 1, duration: 0 });
    effects.tick();
    assert_eq!(effects, Effects::new());
}

#[test]
fn consumable_uses_are_counted_down() {
    let mut slots = vec![
        AbilitySlot { ability: Ability::Whip, uses: 1, cooldown: 0 },
        AbilitySlot { ability: Ability::Thwack, uses: 2, cooldown: 0 },
        AbilitySlot { ability: Ability::WoodenStake, uses: 1, cooldown: 0 },
    ];
    spend_use(&mut slots, 0);
    assert_eq!(slots[0].uses, 1);
    spend_use(&mut slots, 1);
    spend_use(&mut slots, 1);
    assert_eq!(slots.len(), 3);
    assert_eq!(slots[1], AbilitySlot { ability: Ability::Thwack, uses: 0, cooldown: 0 });
    spend_use(&mut slots, 2);
    assert_eq!(slots.len(), 2);
    assert_eq!(find_slot(&slots, Ability::WoodenStake), None);
    assert_eq!(find_slot(&slots, Ability::Thwack), Some(1));
}

#[test]
fn ally_sends_projectiles_for_ranged_abilities() {
    let mut ally = Ally::new(AllyId::AshMagnum, at(5, 5), 6, 3, 6, 0, 0);
    assert_eq!(*ally.current_ability(), Ability::Whip);
    assert_eq!(ally.use_ability(at(5, 4)), None);
    ally.selected_ability = 1;
    assert_eq!(*ally.current_ability(), Ability::CrossbowIronBolt);
    assert_eq!(
        ally.use_ability(at(5, 1)),
        Some(Projectile::new(ProjectileKind::IronBolt, at(5, 5), at(5, 1)))
    );
    assert_eq!(ally.abilities[1].uses, 4);
    ally.selected_ability = 2;
    assert_eq!(ally.use_ability(at(5, 1)).map(|p| p.kind), Some(ProjectileKind::SilverBolt));
    let mut alukrod = Ally::new(AllyId::Alukrod, at(5, 5), 6, 3, 6, 1, 1);
    alukrod.selected_ability = 1;
    assert_eq!(alukrod.use_ability(at(9, 5)).map(|p| p.kind), Some(ProjectileKind::Fireball));
    assert_eq!(alukrod.name(), "Alukrod");
    assert_eq!(ally.name(), "Ash Magnum");
}

#[test]
fn spent_acquired_ability_leaves_the_list_and_the_selection_moves() {
    let mut ally = Ally::new(AllyId::AshMagnum, at(5, 5), 6, 3, 6, 0, 0);
    assert!(ally.acquire(Ability::WoodenStake));
    assert_eq!(ally.abilities.len(), 5);
    assert_eq!(ally.abilities[4], AbilitySlot { ability: Ability::WoodenStake, uses: 1, cooldown: 0 });
    assert!(ally.acquire(Ability::WoodenStake));
    assert_eq!(ally.abilities[4].uses, 2);
    assert!(ally.acquire(Ability::CrossbowIronBolt));
    assert_eq!(ally.abilities[1].uses, 6);
    assert!(!ally.acquire(Ability::Hellfire));
    assert_eq!(ally.abilities.len(), 5);
    ally.selected_ability = 4;
    ally.use_ability(at(5, 4));
    assert_eq!(ally.abilities.len(), 5);
    assert_eq!(ally.selected_ability, 4);
    ally.use_ability(at(5, 4));
    assert_eq!(ally.abilities.len(), 4);
    assert_eq!(ally.selected_ability, 3);
    assert_eq!(*ally.current_ability(), Ability::Thwack);
}

#[test]
fn items_give_abilities() {
    let bolt = Item { id: 0, position: at(1, 1), kind: ItemKind::IronBolt };
    assert_eq!(bolt.ability(), Some(Ability::CrossbowIronBolt));
    assert_eq!(bolt.name(), "Iron Bolt");
    let silver = Item { id: 1, position: at(1, 1), kind: ItemKind::SilverBolt };
    assert_eq!(silver.ability(), Some(Ability::CrossbowSilverBolt));
    let stake = Item { id: 2, position: at(1, 1), kind: ItemKind::WoodenStake };
    assert_eq!(stake.ability(), Some(Ability::WoodenStake));
    assert_eq!(stake.name(), "Wooden Stake");
    let garlic = Item { id: 3, position: at(1, 1), kind: ItemKind::Garlic };
    assert_eq!(garlic.ability(), None);
    assert_eq!(garlic.name(), "Garlic");
    let water = Item { id: 4, position: at(1, 1), kind: ItemKind::HolyWater };
    assert_eq!(water.ability(), None);
    assert_eq!(water.name(), "Holy Water");
}

#[test]
fn enemy_cooldowns_tick_down_to_zero() {
    let mut enemy = Enemy::new(0, at(1, 1), EnemyKind::BigBatty, 10, 2, 6, (2, 2), 4, 0);
    assert_eq!(enemy.name(), "BigBatty");
    enemy.abilities[1].cooldown = 2;
    enemy.tick_cooldowns();
    assert_eq!(enemy.abilities[0].cooldown, 0);
    assert_eq!(enemy.abilities[1].cooldown, 1);
    enemy.tick_cooldowns();
    enemy.tick_cooldowns();
    assert_eq!(enemy.abilities[1].cooldown, 0);
    enemy.use_ability(Ability::SpawnBat, at(3, 1));
    assert_eq!(enemy.abilities.len(), 2);
    assert_eq!(enemy.abilities[1].uses, 1);
    assert_eq!(enemy.last_known_positions, LastKnown::new());
}

#[test]
fn melee_hit_on_a_plain_target_takes_the_damage_of_the_ability() {
    let mut level = duel(at(5, 4));
    assert!(level.select_ability(AllyId::AshMagnum, 0));
    let outcome = level.use_ability(AllyId::AshMagnum, at(5, 4), Some(0)).unwrap();
    assert_eq!(outcome.ability, Ability::Whip);
    assert_eq!(outcome.path, vec![at(5, 4)]);
    assert_eq!(outcome.projectile, None);
    assert!(!outcome.killed);
    assert_eq!(level.get_enemy(0).unwrap().health, 3);
    let ally = level.get_ally(AllyId::AshMagnum).unwrap();
    assert!(ally.has_acted);
    assert_eq!(ally.abilities[0].uses, 1);
    assert_eq!(level.get_enemy(0).unwrap().last_known_positions.get(AllyId::AshMagnum), Some(at(5, 5)));
}

#[test]
fn sword_of_range_one_and_damage_two_takes_five_to_three() {
    let mut level = Level::new(bestiary());
    assert!(level.add_ally(Ally::new(AllyId::Alukrod, at(5, 5), 6, 3, 6, 1, 1)));
    assert_eq!(level.add_enemy(EnemyKind::Bat, at(6, 5), stats(5, 4, 2, 0)), Some(0));
    assert_eq!(Ability::Sword.range(), 1);
    let outcome = level.use_ability(AllyId::Alukrod, at(6, 5), Some(0)).unwrap();
    assert_eq!(outcome.ability, Ability::Sword);
    assert_eq!(level.get_enemy(0).unwrap().health, 3);
    assert_eq!(level.get_ally(AllyId::Alukrod).unwrap().abilities[0].uses, 1);
}

#[test]
fn consumable_ability_spends_one_use_per_hit() {
    let mut level = duel(at(5, 4));
    assert!(level.select_ability(AllyId::AshMagnum, 1));
    let outcome = level.use_ability(AllyId::AshMagnum, at(5, 4), Some(0)).unwrap();
    assert_eq!(outcome.ability, Ability::CrossbowIronBolt);
    assert_eq!(
        outcome.projectile,
        Some(Projectile { kind: ProjectileKind::IronBolt, start: at(5, 5), end: at(5, 4) })
    );
    assert_eq!(level.get_enemy(0).unwrap().health, 3);
    assert_eq!(level.get_ally(AllyId::AshMagnum).unwrap().abilities[1].uses, 4);
}

#[test]
fn second_ability_in_one_turn_is_refused() {
    let mut level = duel(at(5, 4));
    level.use_ability(AllyId::AshMagnum, at(5, 4), Some(0)).unwrap();
    let again = level.use_ability(AllyId::AshMagnum, at(5, 4), Some(0));
    assert_eq!(again.unwrap_err(), ActionError::AlreadyActed);
    assert_eq!(level.get_enemy(0).unwrap().health, 3);
}

#[test]
fn attack_needs_a_live_target() {
    let mut level = duel(at(5, 4));
    assert_eq!(
        level.use_ability(AllyId::AshMagnum, at(5, 4), None).unwrap_err(),
        ActionError::InvalidTarget
    );
    assert_eq!(
        level.use_ability(AllyId::AshMagnum, at(5, 4), Some(7)).unwrap_err(),
        ActionError::InvalidTarget
    );
    assert!(!level.get_ally(AllyId::AshMagnum).unwrap().has_acted);
}

#[test]
fn target_beyond_range_or_behind_cover_is_out_of_range() {
    let mut level = duel(at(5, 2));
    assert_eq!(
        level.use_ability(AllyId::AshMagnum, at(5, 2), Some(0)).unwrap_err(),
        ActionError::OutOfRange
    );
    assert!(level.select_ability(AllyId::AshMagnum, 1));
    assert!(level.add_obstacle(ObstacleKind::LowWall, at(5, 3), 1, 1).is_some());
    assert_eq!(
        level.use_ability(AllyId::AshMagnum, at(5, 2), Some(0)).unwrap_err(),
        ActionError::OutOfRange
    );
    let mut level = duel(at(6, 4));
    assert_eq!(
        level.use_ability(AllyId::AshMagnum, at(6, 4), Some(0)).unwrap_err(),
        ActionError::OutOfRange
    );
    assert_eq!(level.get_enemy(0).unwrap().health, 5);
}

#[test]
fn crossbow_reaches_six_tiles() {
    let mut level = duel(at(11, 5));
    assert!(level.select_ability(AllyId::AshMagnum, 1));
    let outcome = level.use_ability(AllyId::AshMagnum, at(11, 5), Some(0)).unwrap();
    assert_eq!(outcome.path.len(), 6);
    assert_eq!(outcome.path.last(), Some(&at(11, 5)));
    assert_eq!(level.get_enemy(0).unwrap().health, 3);
    let mut level = duel(at(12, 5));
    assert!(level.select_ability(AllyId::AshMagnum, 1));
    assert_eq!(
        level.use_ability(AllyId::AshMagnum, at(12, 5), Some(0)).unwrap_err(),
        ActionError::OutOfRange
    );
}

#[test]
fn exhausted_innate_ability_stays_and_cannot_be_used() {
    let mut level = duel(at(5, 3));
    assert!(level.select_ability(AllyId::AshMagnum, 3));
    level.use_ability(AllyId::AshMagnum, at(5, 3), Some(0)).unwrap();
    let mut snapshot = Ally::new(AllyId::AshMagnum, at(0, 0), 1, 1, 1, 0, 0);
    snapshot.abilities[3].uses = 1;
    assert_eq!(level.get_ally(AllyId::AshMagnum).unwrap().abilities, snapshot.abilities);
    level.end_round();
    assert!(level.get_enemy(0).is_some());
    let target = level.get_enemy(0).unwrap().position;
    assert_eq!(target, at(5, 0));
    level.move_ally(AllyId::AshMagnum, at(5, 2)).unwrap();
    level.use_ability(AllyId::AshMagnum, target, Some(0)).unwrap();
    assert_eq!(level.get_ally(AllyId::AshMagnum).unwrap().abilities[3].uses, 0);
    assert_eq!(level.get_ally(AllyId::AshMagnum).unwrap().abilities.len(), 4);
    level.end_round();
    assert_eq!(
        level.use_ability(AllyId::AshMagnum, target, Some(0)).unwrap_err(),
        ActionError::NoUsesRemaining
    );
}

#[test]
fn thwack_pushes_the_target_away_up_to_four_tiles() {
    let mut level = duel(at(7, 5));
    assert!(level.select_ability(AllyId::AshMagnum, 3));
    let outcome = level.use_ability(AllyId::AshMagnum, at(7, 5), Some(0)).unwrap();
    assert_eq!(outcome.ability, Ability::Thwack);
    assert!(!outcome.killed);
    let enemy = level.get_enemy(0).unwrap();
    assert_eq!(enemy.health, 3);
    assert_eq!(enemy.position, at(11, 5));
    assert_eq!(level.at(at(7, 5)), Tile::Empty);
    assert_eq!(level.at(at(11, 5)), Tile::Enemy(0));
}

#[test]
fn push_stops_at_the_first_cell_that_is_taken() {
    let mut level = duel(at(5, 7));
    assert!(level.add_obstacle(ObstacleKind::Barrel, at(5, 10), 1, 1).is_some());
    assert!(level.spawn_item(ItemKind::Garlic, at(5, 8)).is_some());
    assert!(level.select_ability(AllyId::AshMagnum, 3));
    level.use_ability(AllyId::AshMagnum, at(5, 7), Some(0)).unwrap();
    assert_eq!(level.get_enemy(0).unwrap().position, at(5, 9));
    assert_eq!(level.at(at(5, 9)), Tile::Enemy(0));
    assert_eq!(level.at(at(5, 8)), Tile::Item(0));
    assert_eq!(level.at(at(5, 7)), Tile::Empty);
    assert_eq!(level.at(at(5, 10)), Tile::Obstacle(0));
}

#[test]
fn push_target_follows_the_direction_to_the_edge() {
    let level = duel(at(2, 5));
    let grid = level.grid();
    assert_eq!(push_target(grid, at(2, 5), Tile::Enemy(0), 1, 1, Direction::Left, 4), at(0, 5));
    assert_eq!(push_target(grid, at(2, 5), Tile::Enemy(0), 1, 1, Direction::Right, 4), at(4, 5));
    assert_eq!(push_target(grid, at(2, 5), Tile::Enemy(0), 1, 1, Direction::Up, 0), at(2, 5));
    assert_eq!(push_target(grid, at(2, 5), Tile::Enemy(0), 2, 1, Direction::Right, 9), at(3, 5));
    assert_eq!(push_target(grid, at(2, 5), Tile::Enemy(0), 2, 2, Direction::Down, 40), at(2, 30));
}

#[test]
fn killed_enemy_leaves_grid_and_turn_order() {
    let mut level = Level::new(bestiary());
    assert!(level.add_ally(Ally::new(AllyId::AshMagnum, at(5, 5), 6, 3, 6, 0, 0)));
    assert_eq!(level.add_enemy(EnemyKind::Bat, at(5, 4), stats(2, 4, 2, 0)), Some(0));
    assert_eq!(level.add_enemy(EnemyKind::Bat, at(9, 9), stats(2, 3, 2, 0)), Some(1));
    assert_eq!(level.turn_order(), &vec![(0, 4), (1, 3)]);
    let outcome = level.use_ability(AllyId::AshMagnum, at(5, 4), Some(0)).unwrap();
    assert!(outcome.killed);
    assert!(level.get_enemy(0).is_none());
    assert_eq!(level.at(at(5, 4)), Tile::Empty);
    assert_eq!(level.turn_order(), &vec![(1, 3)]);
    assert_eq!(level.get_enemy(1).unwrap().id, 1);
    assert_eq!(level.add_enemy(EnemyKind::Bat, at(5, 4), stats(2, 4, 2, 0)), Some(2));
}

#[test]
fn stake_kills_a_vampire_at_once_and_is_used_up() {
    let mut level = Level::new(bestiary());
    let mut hunter = Ally::new(AllyId::AshMagnum, at(5, 5), 6, 3, 6, 0, 0);
    assert!(hunter.acquire(Ability::WoodenStake));
    assert!(level.add_ally(hunter));
    assert_eq!(level.add_enemy(EnemyKind::Vampire, at(4, 5), stats(500, 3, 3, 1)), Some(0));
    assert!(level.select_ability(AllyId::AshMagnum, 4));
    let outcome = level.use_ability(AllyId::AshMagnum, at(4, 5), Some(0)).unwrap();
    assert!(outcome.killed);
    assert!(level.get_enemy(0).is_none());
    let ally = level.get_ally(AllyId::AshMagnum).unwrap();
    assert_eq!(ally.abilities.len(), 4);
    assert_eq!(ally.selected_ability, 3);
}

#[test]
fn vampire_bite_gives_the_damage_back_as_health() {
    let mut level = Level::new(bestiary());
    let mut dhampir = Ally::new(AllyId::Alukrod, at(5, 5), 6, 3, 6, 1, 1);
    dhampir.health = 3;
    assert!(level.add_ally(dhampir));
    assert_eq!(level.add_enemy(EnemyKind::Bat, at(5, 6), stats(5, 4, 2, 0)), Some(0));
    assert!(level.select_ability(AllyId::Alukrod, 2));
    level.use_ability(AllyId::Alukrod, at(5, 6), Some(0)).unwrap();
    assert_eq!(level.get_enemy(0).unwrap().health, 4);
    assert_eq!(level.get_ally(AllyId::Alukrod).unwrap().health, 4);
}

#[test]
fn hellfire_burns_the_target() {
    let mut level = Level::new(bestiary());
    assert!(level.add_ally(Ally::new(AllyId::Alukrod, at(5, 5), 6, 3, 6, 1, 1)));
    assert_eq!(level.add_enemy(EnemyKind::Bat, at(5, 9), stats(5, 4, 2, 0)), Some(0));
    assert!(level.select_ability(AllyId::Alukrod, 1));
    let outcome = level.use_ability(AllyId::Alukrod, at(5, 9), Some(0)).unwrap();
    assert_eq!(outcome.projectile.map(|p| p.kind), Some(ProjectileKind::Fireball));
    let enemy = level.get_enemy(0).unwrap();
    assert_eq!(enemy.health, 3);
    assert_eq!(enemy.effects.burn, Some(EffectStats { magnitude: 1, duration: 3 }));
    assert_eq!(level.get_ally(AllyId::Alukrod).unwrap().abilities[1].uses, 2);
}

#[test]
fn mist_hides_its_user_for_two_rounds() {
    let mut level = Level::new(bestiary());
    assert!(level.add_ally(Ally::new(AllyId::Alukrod, at(5, 5), 6, 3, 6, 1, 1)));
    assert!(level.select_ability(AllyId::Alukrod, 3));
    let outcome = level.use_ability(AllyId::Alukrod, at(5, 5), None).unwrap();
    assert_eq!(outcome.ability, Ability::Mist);
    assert!(outcome.path.is_empty());
    let ally = level.get_ally(AllyId::Alukrod).unwrap();
    assert_eq!(ally.effects.mist, Some(EffectStats { magnitude: 0, duration: 2 }));
    assert!(ally.has_acted);
    assert_eq!(ally.abilities[3].uses, 0);
    level.end_round();
    let ally = level.get_ally(AllyId::Alukrod).unwrap();
    assert_eq!(ally.effects.mist, Some(EffectStats { magnitude: 0, duration: 1 }));
    assert!(!ally.has_acted);
    assert!(level.select_ability(AllyId::Alukrod, 0));
    assert_eq!(
        level.use_ability(AllyId::Alukrod, at(5, 6), Some(0)).unwrap_err(),
        ActionError::AlreadyActed
    );
    level.end_round();
    assert_eq!(level.get_ally(AllyId::Alukrod).unwrap().effects.mist, None);
}

#[test]
fn ally_moves_along_the_path_within_its_speed() {
    let mut level = duel(at(12, 12));
    let path = level.move_ally(AllyId::AshMagnum, at(7, 6)).unwrap();
    assert_eq!(path.len(), 3);
    assert_eq!(path.last(), Some(&at(7, 6)));
    assert_eq!(level.at(at(5, 5)), Tile::Empty);
    assert_eq!(level.at(at(7, 6)), Tile::Ally(AllyId::AshMagnum));
    let ally = level.get_ally(AllyId::AshMagnum).unwrap();
    assert_eq!(ally.position, at(7, 6));
    assert!(ally.has_moved);
    assert!(!ally.has_acted);
    assert_eq!(
        level.move_ally(AllyId::AshMagnum, at(7, 7)).unwrap_err(),
        ActionError::AlreadyMoved
    );
    assert_eq!(level.get_ally(AllyId::AshMagnum).unwrap().position, at(7, 6));
}

#[test]
fn destination_beyond_the_speed_or_taken_is_unreachable() {
    let mut level = duel(at(6, 5));
    assert_eq!(
        level.move_ally(AllyId::AshMagnum, at(5, 9)).unwrap_err(),
        ActionError::Unreachable
    );
    assert_eq!(
        level.move_ally(AllyId::AshMagnum, at(6, 5)).unwrap_err(),
        ActionError::Unreachable
    );
    assert_eq!(
        level.move_ally(AllyId::AshMagnum, at(5, 5)).unwrap_err(),
        ActionError::Unreachable
    );
    assert_eq!(
        level.move_ally(AllyId::AshMagnum, at(7, 5)).unwrap_err(),
        ActionError::Unreachable
    );
    assert_eq!(level.move_ally(AllyId::AshMagnum, at(6, 4)).unwrap().len(), 2);
}

#[test]
fn way_around_counts_against_the_speed() {
    let mut level = duel(at(12, 12));
    for (x, y) in [(4, 4), (5, 4), (6, 4), (4, 5), (4, 6), (5, 6)] {
        assert!(level.add_obstacle(ObstacleKind::Wall, at(x, y), 1, 1).is_some());
    }
    assert_eq!(
        level.move_ally(AllyId::AshMagnum, at(5, 3)).unwrap_err(),
        ActionError::Unreachable
    );
    assert_eq!(path_within(level.grid(), at(5, 5), at(5, 3), Tile::Ally(AllyId::AshMagnum), 5), None);
    let long = path_within(level.grid(), at(5, 5), at(5, 3), Tile::Ally(AllyId::AshMagnum), 6);
    assert_eq!(long.map(|p| p.len()), Some(6));
    assert_eq!(level.move_ally(AllyId::AshMagnum, at(7, 5)).unwrap(), vec![at(6, 5), at(7, 5)]);
}

#[test]
fn first_cell_of_a_wide_target_in_reach_is_aimed_at() {
    let mut level = Level::new(bestiary());
    assert!(level.add_ally(Ally::new(AllyId::AshMagnum, at(5, 5), 6, 3, 6, 0, 0)));
    assert_eq!(level.add_enemy(EnemyKind::BigBatty, at(4, 2), bestiary().big_batty), Some(0));
    let found = find_target(level.grid(), at(5, 5), at(4, 2), 2, 2, 2);
    assert_eq!(found, Some((at(5, 3), vec![at(5, 4), at(5, 3)])));
    assert_eq!(find_target(level.grid(), at(5, 5), at(4, 2), 2, 2, 1), None);
    let outcome = level.use_ability(AllyId::AshMagnum, at(4, 2), Some(0)).unwrap();
    assert_eq!(outcome.path, vec![at(5, 4), at(5, 3)]);
    assert_eq!(level.get_enemy(0).unwrap().health, 8);
}

#[test]
fn level_pushes_an_enemy_on_request() {
    let mut level = duel(at(5, 7));
    level.push(0, Direction::Right, 3);
    assert_eq!(level.get_enemy(0).unwrap().position, at(8, 7));
    assert_eq!(level.at(at(5, 7)), Tile::Empty);
    assert_eq!(level.at(at(8, 7)), Tile::Enemy(0));
    level.push(0, Direction::Right, 30);
    assert_eq!(level.get_enemy(0).unwrap().position, at(15, 7));
    level.push(0, Direction::Right, 1);
    assert_eq!(level.get_enemy(0).unwrap().position, at(15, 7));
    level.push(0, Direction::Up, 0);
    assert_eq!(level.get_enemy(0).unwrap().position, at(15, 7));
    assert_eq!(level.get_enemy(0).unwrap().health, 5);
}
