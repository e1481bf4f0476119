use tactics::ability::{Ability, EnemyKind, ItemKind};
use tactics::cursor::Cursor;
use tactics::position::Direction;
use tactics::unit::AbilitySlot;
use tactics::grid::{AllyId, Tile};
use tactics::level::{ActionError, Bestiary, Entity, EntityKind, Level, UnitStats};
use tactics::position::Position;
use tactics::scheduler::Turn;
use tactics::unit::{Ally, Item, Obstacle, ObstacleKind};

fn at(x: usize, y: usize) -> Position {
    Position { x, y }
}

fn stats(max_health: u16, speed: u16, ability_list: u8, trait_list: u8) -> UnitStats {
    UnitStats { max_health, speed, view_distance: 6, width: 1, height: 1, ability_list, trait_list }
}

fn wide() -> UnitStats {
    UnitStats {
        max_health: 10,
        speed: 2,
        view_distance: 6,
        width: 2,
        height: 2,
        ability_list: 4,
        trait_list: 0,
    }
}

fn bestiary() -> Bestiary {
    Bestiary { bat: stats(2, 4, 2, 0), vampire: stats(5, 3, 3, 1), big_batty: wide() }
}

fn entity(kind: EntityKind, x: usize, y: usize) -> Entity {
    Entity { kind, position: at(x, y) }
}

#[test]
fn new_level_is_empty_and_in_the_ally_phase() {
    let level = Level::new(bestiary());
    for x in 0..16 {
        for y in 0..32 {
            assert_eq!(level.at(at(x, y)), Tile::Empty);
        }
    }
    assert_eq!(level.turn(), Turn::Ally);
    assert!(level.turn_order().is_empty());
    assert!(level.get_ally(AllyId::AshMagnum).is_none());
    assert!(level.get_enemy(0).is_none());
    assert_eq!(level.get_obstacle(0), None);
    assert_eq!(level.get_item(0), None);
    assert!(level.all_acted());
}

#[test]
fn load_numbers_each_kind_from_zero_in_the_order_of_the_data() {
    let data = vec![
        entity(EntityKind::Obstacle { kind: ObstacleKind::Wall, width: 16, height: 1 }, 0, 0),
        entity(EntityKind::Enemy { kind: EnemyKind::Bat, stats: stats(2, 4, 2, 0) }, 3, 3),
        entity(EntityKind::Ally { id: AllyId::AshMagnum, stats: stats(6, 3, 0, 0) }, 5, 5),
        entity(EntityKind::Item { kind: ItemKind::WoodenStake }, 6, 6),
        entity(EntityKind::Enemy { kind: EnemyKind::BigBatty, stats: wide() }, 8, 8),
        entity(EntityKind::Obstacle { kind: ObstacleKind::Barrel, width: 1, height: 2 }, 1, 4),
        entity(EntityKind::Item { kind: ItemKind::IronBolt }, 7, 6),
        entity(EntityKind::Ally { id: AllyId::Alukrod, stats: stats(7, 4, 1, 1) }, 5, 6),
    ];
    let level = Level::load(&data, bestiary()).unwrap();
    for x in 0..16 {
        assert_eq!(level.at(at(x, 0)), Tile::Obstacle(0));
    }
    assert_eq!(level.at(at(3, 3)), Tile::Enemy(0));
    assert_eq!(level.at(at(5, 5)), Tile::Ally(AllyId::AshMagnum));
    assert_eq!(level.at(at(5, 6)), Tile::Ally(AllyId::Alukrod));
    assert_eq!(level.at(at(6, 6)), Tile::Item(0));
    assert_eq!(level.at(at(7, 6)), Tile::Item(1));
    for (x, y) in [(8, 8), (9, 8), (8, 9), (9, 9)] {
        assert_eq!(level.at(at(x, y)), Tile::Enemy(1));
    }
    assert_eq!(level.at(at(1, 4)), Tile::Obstacle(1));
    assert_eq!(level.at(at(1, 5)), Tile::Obstacle(1));
    assert_eq!(level.at(at(1, 6)), Tile::Empty);
    assert_eq!(level.turn_order(), &vec![(0, 4), (1, 2)]);
    assert_eq!(
        level.get_obstacle(1),
        Some(Obstacle { id: 1, position: at(1, 4), kind: ObstacleKind::Barrel, width: 1, height: 2 })
    );
    assert_eq!(
        level.get_item(1),
        Some(Item { id: 1, position: at(7, 6), kind: ItemKind::IronBolt })
    );
    assert_eq!(level.get_item(2), None);
}

#[test]
fn loaded_units_start_at_full_health_with_their_lists() {
    let data = vec![
        entity(EntityKind::Ally { id: AllyId::Alukrod, stats: stats(7, 4, 1, 1) }, 5, 6),
        entity(EntityKind::Enemy { kind: EnemyKind::Vampire, stats: stats(5, 3, 3, 1) }, 3, 3),
    ];
    let level = Level::load(&data, bestiary()).unwrap();
    let ally = level.get_ally(AllyId::Alukrod).unwrap();
    assert_eq!((ally.id, ally.position), (AllyId::Alukrod, at(5, 6)));
    assert_eq!((ally.health, ally.max_health, ally.speed, ally.view_distance), (7, 7, 4, 6));
    let abilities: Vec<(Ability, u16)> = ally.abilities.iter().map(|s| (s.ability, s.uses)).collect();
    assert_eq!(
        abilities,
        vec![
            (Ability::Sword, 1),
            (Ability::Hellfire, 3),
            (Ability::VampireBite, 1),
            (Ability::Mist, 1),
        ]
    );
    assert_eq!(ally.traits.len(), 4);
    assert_eq!(ally.selected_ability, 0);
    assert!(!ally.has_moved && !ally.has_acted);
    let enemy = level.get_enemy(0).unwrap();
    assert_eq!((enemy.id, enemy.kind, enemy.position), (0, EnemyKind::Vampire, at(3, 3)));
    assert_eq!((enemy.health, enemy.max_health, enemy.speed), (5, 5, 3));
    assert_eq!((enemy.width, enemy.height), (1, 1));
    assert_eq!(enemy.abilities[0].ability, Ability::VampireScratch);
    assert_eq!(enemy.abilities[1].ability, Ability::VampireBite);
    assert_eq!(enemy.traits.len(), 4);
    assert_eq!(enemy.name(), "Vampire");
}

#[test]
fn entity_on_a_taken_cell_refuses_the_level() {
    let bat = EntityKind::Enemy { kind: EnemyKind::Bat, stats: stats(2, 4, 2, 0) };
    let wall = EntityKind::Obstacle { kind: ObstacleKind::Wall, width: 2, height: 2 };
    let ash = EntityKind::Ally { id: AllyId::AshMagnum, stats: stats(6, 3, 0, 0) };
    let overlap = vec![entity(bat, 3, 3), entity(wall, 2, 2)];
    assert_eq!(Level::load(&overlap, bestiary()).err(), Some(ActionError::InvalidTarget));
    let twice = vec![entity(ash, 3, 3), entity(ash, 4, 4)];
    assert_eq!(Level::load(&twice, bestiary()).err(), Some(ActionError::InvalidTarget));
    let on_item =
        vec![entity(EntityKind::Item { kind: ItemKind::Garlic }, 3, 3), entity(ash, 3, 3)];
    assert_eq!(Level::load(&on_item, bestiary()).err(), Some(ActionError::InvalidTarget));
    let off_grid = vec![entity(bat, 16, 3)];
    assert_eq!(Level::load(&off_grid, bestiary()).err(), Some(ActionError::InvalidTarget));
    let sticking_out =
        vec![entity(EntityKind::Enemy { kind: EnemyKind::BigBatty, stats: wide() }, 15, 3)];
    assert_eq!(Level::load(&sticking_out, bestiary()).err(), Some(ActionError::InvalidTarget));
    let no_such_list = vec![entity(EntityKind::Ally { id: AllyId::AshMagnum, stats: stats(6, 3, 5, 0) }, 1, 1)];
    assert_eq!(Level::load(&no_such_list, bestiary()).err(), Some(ActionError::InvalidTarget));
    assert!(Level::load(&vec![], bestiary()).is_ok());
}

#[test]
fn obstacle_is_cut_off_at_the_edge_of_the_grid() {
    let mut level = Level::new(bestiary());
    assert_eq!(level.add_obstacle(ObstacleKind::Wall, at(14, 30), 5, 5), Some(0));
    let mut tagged = 0;
    for x in 0..16 {
        for y in 0..32 {
            if level.at(at(x, y)) == Tile::Obstacle(0) {
                assert!(x >= 14 && y >= 30);
                tagged += 1;
            }
        }
    }
    assert_eq!(tagged, 4);
    assert_eq!(level.add_obstacle(ObstacleKind::Wall, at(13, 29), 2, 2), None);
    assert_eq!(level.add_obstacle(ObstacleKind::Wall, at(13, 29), 1, 3), Some(1));
    assert_eq!(level.add_obstacle(ObstacleKind::Wall, at(0, 0), 0, 7), Some(2));
    assert_eq!(level.at(at(0, 0)), Tile::Empty);
    assert!(level.blocks_sight(at(15, 31)));
    assert!(!level.blocks_sight(at(0, 0)));
}

#[test]
fn ally_joins_only_a_free_slot_on_an_empty_cell() {
    let mut level = Level::new(bestiary());
    assert!(level.add_ally(Ally::new(AllyId::AshMagnum, at(5, 5), 6, 3, 6, 0, 0)));
    assert!(!level.add_ally(Ally::new(AllyId::AshMagnum, at(6, 6), 6, 3, 6, 0, 0)));
    assert!(!level.add_ally(Ally::new(AllyId::Alukrod, at(5, 5), 6, 3, 6, 1, 1)));
    assert!(!level.add_ally(Ally::new(AllyId::Alukrod, at(5, 32), 6, 3, 6, 1, 1)));
    assert_eq!(level.at(at(6, 6)), Tile::Empty);
    assert!(level.add_ally(Ally::new(AllyId::Alukrod, at(6, 6), 6, 3, 6, 1, 1)));
    assert_eq!(level.get_ally(AllyId::AshMagnum).unwrap().position, at(5, 5));
    assert!(!level.select_ability(AllyId::AshMagnum, 4));
    assert!(level.select_ability(AllyId::AshMagnum, 3));
    assert_eq!(level.get_ally(AllyId::AshMagnum).unwrap().selected_ability, 3);
}

#[test]
fn item_goes_on_an_empty_cell_only() {
    let mut level = Level::new(bestiary());
    assert_eq!(level.spawn_item(ItemKind::SilverBolt, at(2, 2)), Some(0));
    assert_eq!(level.spawn_item(ItemKind::SilverBolt, at(2, 2)), None);
    assert_eq!(level.add_enemy(EnemyKind::Bat, at(3, 2), stats(2, 4, 2, 0)), Some(0));
    assert_eq!(level.spawn_item(ItemKind::Garlic, at(3, 2)), None);
    assert_eq!(level.spawn_item(ItemKind::Garlic, at(4, 2)), Some(1));
    assert_eq!(level.add_enemy(EnemyKind::Bat, at(2, 2), stats(2, 4, 2, 0)), Some(1));
    assert_eq!(level.at(at(2, 2)), Tile::Enemy(1));
}

#[test]
fn cursor_stays_on_the_grid() {
    let mut cursor = Cursor::new(at(0, 31));
    assert_eq!(cursor.selected, None);
    assert!(!cursor.acting && cursor.can_interact);
    assert!(!cursor.move_in_direction(Direction::Left));
    assert!(!cursor.move_in_direction(Direction::Down));
    assert_eq!(cursor.position, at(0, 31));
    assert!(cursor.move_in_direction(Direction::Right));
    assert!(cursor.move_in_direction(Direction::Up));
    assert_eq!(cursor.position, at(1, 30));
    cursor.position = at(15, 0);
    assert!(!cursor.move_in_direction(Direction::Right));
    assert!(!cursor.move_in_direction(Direction::Up));
    assert!(cursor.move_in_direction(Direction::Left));
    assert!(cursor.move_in_direction(Direction::Down));
    assert_eq!(cursor.position, at(14, 1));
}

#[test]
fn persistent_abilities_are_carried_to_the_next_level() {
    let mut ally = Ally::new(AllyId::AshMagnum, at(5, 5), 6, 3, 6, 0, 0);
    ally.selected_ability = 1;
    ally.use_ability(at(5, 1));
    assert!(ally.acquire(Ability::WoodenStake));
    let inventory = ally.inventory();
    assert_eq!(
        inventory,
        vec![
            (Ability::Whip, 1),
            (Ability::CrossbowIronBolt, 4),
            (Ability::CrossbowSilverBolt, 2),
            (Ability::Thwack, 2),
            (Ability::WoodenStake, 1),
        ]
    );
    let mut next = Ally::new(AllyId::AshMagnum, at(1, 1), 6, 3, 6, 0, 0);
    next.abilities[3].uses = 0;
    next.restore(&inventory);
    let slot = |ability, uses| AbilitySlot { ability, uses, cooldown: 0 };
    assert_eq!(
        next.abilities,
        vec![
            slot(Ability::Whip, 1),
            slot(Ability::CrossbowIronBolt, 4),
            slot(Ability::CrossbowSilverBolt, 2),
            slot(Ability::Thwack, 0),
            slot(Ability::WoodenStake, 1),
        ]
    );
    next.restore(&vec![(Ability::WoodenStake, 7), (Ability::Hellfire, 9), (Ability::Whip, 9)]);
    assert_eq!(next.abilities.len(), 5);
    assert_eq!(next.abilities[4].uses, 7);
    assert_eq!(next.abilities[0].uses, 1);
}

#[test]
fn level_hands_an_ally_its_inventory() {
    let mut level = Level::new(bestiary());
    assert!(level.add_ally(Ally::new(AllyId::AshMagnum, at(5, 5), 6, 3, 6, 0, 0)));
    let inventory = vec![(Ability::CrossbowIronBolt, 9), (Ability::WoodenStake, 2)];
    assert!(level.restore_ally(AllyId::AshMagnum, &inventory));
    assert!(!level.restore_ally(AllyId::Alukrod, &inventory));
    let ally = level.get_ally(AllyId::AshMagnum).unwrap();
    assert_eq!(ally.abilities.len(), 5);
    assert_eq!(ally.abilities[1].uses, 9);
    assert_eq!(ally.abilities[4].ability, Ability::WoodenStake);
    assert_eq!(ally.abilities[4].uses, 2);
    assert_eq!(level.at(at(5, 5)), Tile::Ally(AllyId::AshMagnum));
}

#[test]
fn each_ally_sees_for_itself() {
    let mut level = Level::new(bestiary());
    assert!(level.add_ally(Ally::new(AllyId::AshMagnum, at(2, 2), 5, 3, 1, 0, 0)));
    let seen = level.visible_set(AllyId::AshMagnum).unwrap();
    assert!(seen.contains(&at(3, 3)));
    assert!(!seen.contains(&at(4, 2)));
    assert!(level.visible_set(AllyId::Alukrod).is_none());
}
