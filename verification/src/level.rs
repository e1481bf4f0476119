//! A level: the grid, the units, obstacles and items on it, and the rules
//! by which they act on each other.

use crate::ability::{ability_lists_spec, EnemyKind, ItemKind};
use crate::grid::{
    covers, free_for, lemma_free_for_covers, lemma_traversable_covers, AllyId, EnemyId, Grid,
    ItemId, ObstacleId, Tile,
};
use crate::layout::{
    layout_ok, lemma_ally_repaint, lemma_item_added, lemma_obstacle_added, lemma_repaint,
    tiles_repainted, with_place, Placement,
};
use crate::position::{Position, LEVEL_HEIGHT, LEVEL_WIDTH};
use crate::scheduler::Turn;
use crate::traits::trait_lists_spec;
use crate::unit::{
    slots_of_list, Ally, AllyView, Effects, Enemy, EnemyView, Item, LastKnown, Obstacle,
    ObstacleKind,
};
use vstd::prelude::*;

verus! {

/// The numbers that make a unit, as the level data gives them.
#[derive(Debug, Clone, Copy, PartialEq, Eq, Structural)]
pub struct UnitStats {
    pub max_health: u16,
    pub speed: u16,
    pub view_distance: u16,
    pub width: u16,
    pub height: u16,
    pub ability_list: u8,
    pub trait_list: u8,
}

impl UnitStats {
    /// Whether a unit can be made of the numbers: its lists exist and its
    /// footprint is not empty.
    pub open spec fn valid(self) -> bool {
        &&& self.ability_list < ability_lists_spec().len()
        &&& self.trait_list < trait_lists_spec().len()
        &&& self.width >= 1
        &&& self.height >= 1
    }

    pub fn is_valid(&self) -> (valid: bool)
        ensures
            valid == self.valid(),
    {
        self.ability_list < 5 && self.trait_list < 2 && self.width >= 1 && self.height >= 1
    }
}

/// The numbers of each kind of enemy that can be spawned during play.
#[derive(Debug, Clone, Copy, PartialEq, Eq, Structural)]
pub struct Bestiary {
    pub bat: UnitStats,
    pub vampire: UnitStats,
    pub big_batty: UnitStats,
}

impl Bestiary {
    pub open spec fn spec_stats(self, kind: EnemyKind) -> UnitStats {
        match kind {
            EnemyKind::Bat => self.bat,
            EnemyKind::Vampire => self.vampire,
            EnemyKind::BigBatty => self.big_batty,
        }
    }

    pub fn stats(&self, kind: EnemyKind) -> (stats: UnitStats)
        ensures
            stats == self.spec_stats(kind),
    {
        match kind {
            EnemyKind::Bat => self.bat,
            EnemyKind::Vampire => self.vampire,
            EnemyKind::BigBatty => self.big_batty,
        }
    }
}

/// A level in play.
pub struct Level {
    pub(crate) grid: Grid,
    pub(crate) turn: Turn,
    pub(crate) turn_order: Vec<(EnemyId, u16)>,
    pub(crate) spawn_queue: Vec<EnemyId>,
    pub(crate) ash_magnum: Option<Ally>,
    pub(crate) alukrod: Option<Ally>,
    pub(crate) enemies: Vec<Option<Enemy>>,
    pub(crate) obstacles: Vec<Obstacle>,
    pub(crate) items: Vec<Option<Item>>,
    pub(crate) bestiary: Bestiary,
}

/// What a level holds.
pub struct LevelView {
    /// The tag of each cell of the grid.
    pub tiles: Map<Position, Tile>,
    /// Whose turn it is.
    pub turn: Turn,
    /// The order in which the enemies act, each with its speed.
    pub turn_order: Seq<(EnemyId, u16)>,
    /// The enemies that were spawned in this round and join the turn order
    /// when it ends.
    pub spawn_queue: Seq<EnemyId>,
    pub ash_magnum: Option<AllyView>,
    pub alukrod: Option<AllyView>,
    /// The enemies by id; `None` for one that has died.
    pub enemies: Seq<Option<EnemyView>>,
    /// The obstacles by id.
    pub obstacles: Seq<Obstacle>,
    /// The items by id; `None` for one that was taken.
    pub items: Seq<Option<Item>>,
    pub bestiary: Bestiary,
}

/// The position of an ally that is there.
pub open spec fn ally_place(ally: Option<AllyView>) -> Option<Position> {
    match ally {
        Some(ally) => Some(ally.position),
        None => None,
    }
}

/// The placement of an enemy that is there.
pub open spec fn enemy_place(enemy: Option<EnemyView>) -> Option<Placement> {
    match enemy {
        Some(enemy) => Some(
            Placement {
                position: enemy.position,
                width: enemy.width as int,
                height: enemy.height as int,
            },
        ),
        None => None,
    }
}

/// The placements of the enemies, by id.
pub open spec fn enemy_places(enemies: Seq<Option<EnemyView>>) -> Seq<Option<Placement>> {
    Seq::new(enemies.len(), |i: int| enemy_place(enemies[i]))
}

/// The positions of the items, by id.
pub open spec fn item_places(items: Seq<Option<Item>>) -> Seq<Option<Position>> {
    Seq::new(
        items.len(),
        |i: int|
            match items[i] {
                Some(item) => Some(item.position),
                None => None,
            },
    )
}

/// Whether each entity carries the id under which it is kept.
pub open spec fn ids_ok(
    ash_magnum: Option<AllyView>,
    alukrod: Option<AllyView>,
    enemies: Seq<Option<EnemyView>>,
    obstacles: Seq<Obstacle>,
    items: Seq<Option<Item>>,
) -> bool {
    &&& ash_magnum matches Some(ally) ==> ally.id == AllyId::AshMagnum
    &&& alukrod matches Some(ally) ==> ally.id == AllyId::Alukrod
    &&& enemies.len() <= u16::MAX
    &&& obstacles.len() <= u16::MAX
    &&& items.len() <= u16::MAX
    &&& forall|i: int|
        0 <= i < enemies.len() ==> ((#[trigger] enemies[i]) matches Some(enemy) ==> enemy.id == i)
    &&& forall|i: int| 0 <= i < obstacles.len() ==> (#[trigger] obstacles[i]).id == i
    &&& forall|i: int|
        0 <= i < items.len() ==> ((#[trigger] items[i]) matches Some(item) ==> item.id == i)
}

/// Whether each id names an enemy that is alive.
pub open spec fn alive_all(ids: Seq<EnemyId>, enemies: Seq<Option<EnemyView>>) -> bool {
    forall|k: int|
        0 <= k < ids.len() ==> (#[trigger] ids[k]) < enemies.len() && enemies[ids[k] as int] is Some
}

/// The ids of a turn order.
pub open spec fn order_ids(order: Seq<(EnemyId, u16)>) -> Seq<EnemyId> {
    Seq::new(order.len(), |k: int| order[k].0)
}

impl LevelView {
    /// The invariant of a level: grid and entities agree, ids are in
    /// order, the turn order and the spawn queue name live enemies only,
    /// and every kind of enemy that can be spawned can be made.
    pub open spec fn wf(self) -> bool {
        &&& self.tiles.dom() == Set::new(|p: Position| p.in_bounds())
        &&& layout_ok(
            self.tiles,
            ally_place(self.ash_magnum),
            ally_place(self.alukrod),
            enemy_places(self.enemies),
            self.obstacles.len() as int,
            item_places(self.items),
        )
        &&& ids_ok(self.ash_magnum, self.alukrod, self.enemies, self.obstacles, self.items)
        &&& alive_all(order_ids(self.turn_order), self.enemies)
        &&& alive_all(self.spawn_queue, self.enemies)
        &&& self.bestiary.bat.valid()
        &&& self.bestiary.vampire.valid()
        &&& self.bestiary.big_batty.valid()
    }

    /// The ally of a roster slot, if it is in the level.
    pub open spec fn ally(self, id: AllyId) -> Option<AllyView> {
        match id {
            AllyId::AshMagnum => self.ash_magnum,
            AllyId::Alukrod => self.alukrod,
        }
    }

    /// The enemy of an id, if it is alive.
    pub open spec fn enemy(self, id: EnemyId) -> Option<EnemyView> {
        if id < self.enemies.len() {
            self.enemies[id as int]
        } else {
            None
        }
    }

    /// The obstacle of an id.
    pub open spec fn obstacle(self, id: ObstacleId) -> Option<Obstacle> {
        if id < self.obstacles.len() {
            Some(self.obstacles[id as int])
        } else {
            None
        }
    }

    /// The item of an id, if it has not been taken.
    pub open spec fn item(self, id: ItemId) -> Option<Item> {
        if id < self.items.len() {
            self.items[id as int]
        } else {
            None
        }
    }

    /// Whether sight stops at the cell: it holds an obstacle of a kind
    /// that blocks sight.
    pub open spec fn opaque_at(self, position: Position) -> bool {
        self.tiles[position] matches Tile::Obstacle(id) && id < self.obstacles.len()
            && self.obstacles[id as int].kind.spec_is_opaque()
    }
}

/// Why a request could not be met.
#[derive(Debug, Clone, Copy, PartialEq, Eq, Structural)]
pub enum ActionError {
    /// The target is beyond the range of the ability, or no clear line
    /// leads to it.
    OutOfRange,
    /// No path leads to the destination within the moves of this turn.
    Unreachable,
    /// The unit has used an ability this turn, or is in mist.
    AlreadyActed,
    /// The unit has moved this turn.
    AlreadyMoved,
    /// Nothing that can be targeted is there, or the cell is taken.
    InvalidTarget,
    /// The ability has no use left.
    NoUsesRemaining,
}

/// What an entity of the level data is.
#[derive(Debug, Clone, Copy, PartialEq, Eq, Structural)]
pub enum EntityKind {
    /// An ally; its footprint is one cell.
    Ally { id: AllyId, stats: UnitStats },
    Enemy { kind: EnemyKind, stats: UnitStats },
    Obstacle { kind: ObstacleKind, width: u16, height: u16 },
    Item { kind: ItemKind },
}

/// An entity of the level data: what it is and where its top-left cell
/// lies.
#[derive(Debug, Clone, Copy, PartialEq, Eq, Structural)]
pub struct Entity {
    pub kind: EntityKind,
    pub position: Position,
}

/// A new ally at a position, made of `stats`: at full health, with the
/// abilities and traits of its lists, free to move and act.
pub open spec fn fresh_ally(id: AllyId, position: Position, stats: UnitStats) -> AllyView {
    AllyView {
        id,
        position,
        max_health: stats.max_health,
        health: stats.max_health,
        speed: stats.speed,
        view_distance: stats.view_distance,
        abilities: slots_of_list(ability_lists_spec()[stats.ability_list as int]),
        traits: trait_lists_spec()[stats.trait_list as int],
        selected_ability: 0,
        has_moved: false,
        has_acted: false,
        effects: Effects { burn: None, mist: None },
    }
}

/// A new enemy `id` of a kind at a position, made of `stats`: at full
/// health, with the abilities and traits of its lists, no effect and
/// nothing seen.
pub open spec fn fresh_enemy(
    id: EnemyId,
    position: Position,
    kind: EnemyKind,
    stats: UnitStats,
) -> EnemyView {
    EnemyView {
        id,
        position,
        kind,
        max_health: stats.max_health,
        health: stats.max_health,
        speed: stats.speed,
        view_distance: stats.view_distance,
        width: stats.width,
        height: stats.height,
        abilities: slots_of_list(ability_lists_spec()[stats.ability_list as int]),
        traits: trait_lists_spec()[stats.trait_list as int],
        effects: Effects { burn: None, mist: None },
        last_known_positions: LastKnown { ash_magnum: None, alukrod: None },
    }
}

/// What an ally slot holds.
pub open spec fn ally_view(ally: Option<Ally>) -> Option<AllyView> {
    match ally {
        Some(ally) => Some(ally@),
        None => None,
    }
}

/// What an enemy slot holds.
pub open spec fn enemy_view(enemy: Option<Enemy>) -> Option<EnemyView> {
    match enemy {
        Some(enemy) => Some(enemy@),
        None => None,
    }
}

/// What the enemy slots hold.
pub open spec fn enemy_views(enemies: Seq<Option<Enemy>>) -> Seq<Option<EnemyView>> {
    Seq::new(enemies.len(), |i: int| enemy_view(enemies[i]))
}

impl LevelView {
    /// Whether an enemy made of `stats` can be put at `position`: the
    /// numbers make a unit, an id is left, and each cell under the enemy
    /// lies on the grid and is empty or holds only an item.
    pub open spec fn can_place(self, position: Position, stats: UnitStats) -> bool {
        &&& stats.valid()
        &&& position.in_bounds()
        &&& self.enemies.len() < u16::MAX
        &&& free_for(self.tiles, position, Tile::Empty, stats.width as int, stats.height as int)
    }

    /// The level after a new enemy made of `stats` was put at `position`.
    /// With `queued` it waits in the spawn queue, else it is the last of
    /// the turn order.
    pub open spec fn with_new_enemy(
        self,
        kind: EnemyKind,
        position: Position,
        stats: UnitStats,
        queued: bool,
    ) -> LevelView {
        let id = self.enemies.len() as EnemyId;
        LevelView {
            tiles: tiles_repainted(
                self.tiles,
                id as int,
                None,
                enemy_place(Some(fresh_enemy(id, position, kind, stats))),
            ),
            enemies: self.enemies.push(Some(fresh_enemy(id, position, kind, stats))),
            turn_order: if queued {
                self.turn_order
            } else {
                self.turn_order.push((id, stats.speed))
            },
            spawn_queue: if queued {
                self.spawn_queue.push(id)
            } else {
                self.spawn_queue
            },
            ..self
        }
    }

    /// Whether an ally can be added: its slot is free and its cell is on
    /// the grid and empty.
    pub open spec fn can_add_ally(self, ally: AllyView) -> bool {
        self.ally(ally.id) is None && ally.position.in_bounds() && self.tiles[ally.position] is Empty
    }

    /// The level with one more ally.
    pub open spec fn with_added_ally(self, ally: AllyView) -> LevelView {
        LevelView {
            tiles: self.tiles.insert(ally.position, Tile::Ally(ally.id)),
            ..self.with_ally(ally.id, Some(ally))
        }
    }

    /// Whether an obstacle can be added: an id is left and each cell of
    /// its footprint that lies on the grid is empty.
    pub open spec fn can_add_obstacle(self, position: Position, width: u16, height: u16) -> bool {
        &&& self.obstacles.len() < u16::MAX
        &&& forall|p: Position|
            p.in_bounds() && covers(position, width as int, height as int, p) ==> (
            #[trigger] self.tiles[p]) is Empty
    }

    /// The level with one more obstacle, on each cell of its footprint
    /// that lies on the grid.
    pub open spec fn with_obstacle(
        self,
        kind: ObstacleKind,
        position: Position,
        width: u16,
        height: u16,
    ) -> LevelView {
        LevelView {
            tiles: Map::new(
                |p: Position| p.in_bounds(),
                |p: Position|
                    if covers(position, width as int, height as int, p) {
                        Tile::Obstacle(self.obstacles.len() as u16)
                    } else {
                        self.tiles[p]
                    },
            ),
            obstacles: self.obstacles.push(
                Obstacle { id: self.obstacles.len() as u16, position, kind, width, height },
            ),
            ..self
        }
    }

    /// Whether an item can be put on a cell: an id is left and the cell is
    /// empty.
    pub open spec fn can_add_item(self, position: Position) -> bool {
        self.tiles[position] is Empty && self.items.len() < u16::MAX
    }

    /// The level with one more item.
    pub open spec fn with_item(self, kind: ItemKind, position: Position) -> LevelView {
        LevelView {
            tiles: self.tiles.insert(position, Tile::Item(self.items.len() as u16)),
            items: self.items.push(Some(Item { id: self.items.len() as u16, position, kind })),
            ..self
        }
    }

    /// The level with nothing on it, in the ally phase.
    pub open spec fn empty(bestiary: Bestiary) -> LevelView {
        LevelView {
            tiles: Map::new(|p: Position| p.in_bounds(), |p: Position| Tile::Empty),
            turn: Turn::Ally,
            turn_order: Seq::empty(),
            spawn_queue: Seq::empty(),
            ash_magnum: None,
            alukrod: None,
            enemies: Seq::empty(),
            obstacles: Seq::empty(),
            items: Seq::empty(),
            bestiary,
        }
    }

    /// The level with one more entity of the level data, or `None` where
    /// the entity cannot be put there.
    pub open spec fn with_entity(self, entity: Entity) -> Option<LevelView> {
        match entity.kind {
            EntityKind::Ally { id, stats } => if stats.valid() && self.can_add_ally(
                fresh_ally(id, entity.position, stats),
            ) {
                Some(self.with_added_ally(fresh_ally(id, entity.position, stats)))
            } else {
                None
            },
            EntityKind::Enemy { kind, stats } => if self.can_place(entity.position, stats) {
                Some(self.with_new_enemy(kind, entity.position, stats, false))
            } else {
                None
            },
            EntityKind::Obstacle { kind, width, height } => if entity.position.in_bounds()
                && self.can_add_obstacle(entity.position, width, height) {
                Some(self.with_obstacle(kind, entity.position, width, height))
            } else {
                None
            },
            EntityKind::Item { kind } => if entity.position.in_bounds() && self.can_add_item(
                entity.position,
            ) {
                Some(self.with_item(kind, entity.position))
            } else {
                None
            },
        }
    }

    /// The level with the first `n` entities of the level data, in their
    /// order, or `None` where one of them cannot be put there.
    pub open spec fn loaded(entities: Seq<Entity>, bestiary: Bestiary, n: int) -> Option<LevelView>
        decreases n,
    {
        if n <= 0 {
            Some(LevelView::empty(bestiary))
        } else {
            match LevelView::loaded(entities, bestiary, n - 1) {
                Some(level) => level.with_entity(entities[n - 1]),
                None => None,
            }
        }
    }

    /// What the allies of the level see together.
    pub open spec fn in_sight(self) -> Set<Position> {
        (match self.ash_magnum {
            Some(ally) => crate::fov::fov_spec(self, ally.position, ally.view_distance as nat),
            None => Set::empty(),
        }).union(
            match self.alukrod {
                Some(ally) => crate::fov::fov_spec(self, ally.position, ally.view_distance as nat),
                None => Set::empty(),
            },
        )
    }

    /// The level with another ally in the slot `id`.
    pub open spec fn with_ally(self, id: AllyId, ally: Option<AllyView>) -> LevelView {
        match id {
            AllyId::AshMagnum => LevelView { ash_magnum: ally, ..self },
            AllyId::Alukrod => LevelView { alukrod: ally, ..self },
        }
    }
}

impl View for Level {
    type V = LevelView;

    closed spec fn view(&self) -> LevelView {
        LevelView {
            tiles: self.grid@,
            turn: self.turn,
            turn_order: self.turn_order@,
            spawn_queue: self.spawn_queue@,
            ash_magnum: ally_view(self.ash_magnum),
            alukrod: ally_view(self.alukrod),
            enemies: enemy_views(self.enemies@),
            obstacles: self.obstacles@,
            items: self.items@,
            bestiary: self.bestiary,
        }
    }
}

impl Level {
    /// The invariant of a level.
    pub open spec fn wf(&self) -> bool {
        self@.wf()
    }

    /// An empty level in the ally phase.
    pub fn new(bestiary: Bestiary) -> (level: Level)
        requires
            bestiary.bat.valid(),
            bestiary.vampire.valid(),
            bestiary.big_batty.valid(),
        ensures
            level.wf(),
            level@ == LevelView::empty(bestiary),
    {
        let level = Level {
            grid: Grid::new(),
            turn: Turn::Ally,
            turn_order: Vec::new(),
            spawn_queue: Vec::new(),
            ash_magnum: None,
            alukrod: None,
            enemies: Vec::new(),
            obstacles: Vec::new(),
            items: Vec::new(),
            bestiary,
        };
        proof {
            level.grid.lemma_domain_all();
            assert(level.grid@ =~= Map::new(|p: Position| p.in_bounds(), |p: Position| Tile::Empty));
            assert(enemy_views(level.enemies@) =~= Seq::empty());
        }
        level
    }

    /// The tag of the cell at `position`.
    pub fn at(&self, position: Position) -> (tile: Tile)
        requires
            position.in_bounds(),
        ensures
            tile == self@.tiles[position],
    {
        self.grid.at(position)
    }

    /// The grid.
    pub fn grid(&self) -> (grid: &Grid)
        ensures
            grid@ == self@.tiles,
    {
        &self.grid
    }

    /// Whose turn it is.
    pub fn turn(&self) -> (turn: Turn)
        ensures
            turn == self@.turn,
    {
        self.turn
    }

    /// The order in which the enemies act, each with its speed.
    pub fn turn_order(&self) -> (order: &Vec<(EnemyId, u16)>)
        ensures
            order@ == self@.turn_order,
    {
        &self.turn_order
    }

    /// The enemies that were spawned in this round.
    pub fn spawn_queue(&self) -> (queue: &Vec<EnemyId>)
        ensures
            queue@ == self@.spawn_queue,
    {
        &self.spawn_queue
    }

    /// The ally of a roster slot, if it is in the level.
    pub fn get_ally(&self, ally_id: AllyId) -> (ally: Option<&Ally>)
        ensures
            match ally {
                Some(ally) => self@.ally(ally_id) == Some(ally@),
                None => self@.ally(ally_id) is None,
            },
    {
        match ally_id {
            AllyId::AshMagnum => self.ash_magnum.as_ref(),
            AllyId::Alukrod => self.alukrod.as_ref(),
        }
    }

    /// The enemy of an id, if it is alive.
    pub fn get_enemy(&self, enemy_id: EnemyId) -> (enemy: Option<&Enemy>)
        ensures
            match enemy {
                Some(enemy) => self@.enemy(enemy_id) == Some(enemy@),
                None => self@.enemy(enemy_id) is None,
            },
    {
        if (enemy_id as usize) < self.enemies.len() {
            self.enemies[enemy_id as usize].as_ref()
        } else {
            None
        }
    }

    /// The obstacle of an id.
    pub fn get_obstacle(&self, obstacle_id: ObstacleId) -> (obstacle: Option<Obstacle>)
        ensures
            obstacle == self@.obstacle(obstacle_id),
    {
        if (obstacle_id as usize) < self.obstacles.len() {
            Some(self.obstacles[obstacle_id as usize])
        } else {
            None
        }
    }

    /// The item of an id, if it has not been taken.
    pub fn get_item(&self, item_id: ItemId) -> (item: Option<Item>)
        ensures
            item == self@.item(item_id),
    {
        if (item_id as usize) < self.items.len() {
            self.items[item_id as usize]
        } else {
            None
        }
    }

    /// Whether sight stops at the cell.
    pub fn blocks_sight(&self, position: Position) -> (opaque: bool)
        requires
            position.in_bounds(),
        ensures
            opaque == self@.opaque_at(position),
    {
        match self.grid.at(position) {
            Tile::Obstacle(id) => {
                if (id as usize) < self.obstacles.len() {
                    self.obstacles[id as usize].kind.is_opaque()
                } else {
                    false
                }
            },
            _ => false,
        }
    }
}

/// Takes the enemy out of slot `i` and leaves the slot empty.
pub(crate) fn take_enemy(enemies: &mut Vec<Option<Enemy>>, i: usize) -> (enemy: Option<Enemy>)
    requires
        i < old(enemies)@.len(),
    ensures
        enemy == old(enemies)@[i as int],
        final(enemies)@ == old(enemies)@.update(i as int, None),
        enemy_views(final(enemies)@) == enemy_views(old(enemies)@).update(i as int, None),
{
    enemies.push(None);
    let enemy = enemies.swap_remove(i);
    assert(enemies@ =~= old(enemies)@.update(i as int, None));
    assert(enemy_views(enemies@) =~= enemy_views(old(enemies)@).update(i as int, None));
    enemy
}

impl Level {
    /// What the view of a level is made of.
    pub(crate) proof fn lemma_view(&self)
        ensures
            self@ == (LevelView {
                tiles: self.grid@,
                turn: self.turn,
                turn_order: self.turn_order@,
                spawn_queue: self.spawn_queue@,
                ash_magnum: ally_view(self.ash_magnum),
                alukrod: ally_view(self.alukrod),
                enemies: enemy_views(self.enemies@),
                obstacles: self.obstacles@,
                items: self.items@,
                bestiary: self.bestiary,
            }),
            self.grid@.dom() == Set::new(|p: Position| p.in_bounds()),
    {
        self.grid.lemma_domain_all();
    }

    /// Puts an ally into its roster slot and on the grid. Returns whether
    /// that was done: the slot must be free and the cell empty.
    pub fn add_ally(&mut self, ally: Ally) -> (added: bool)
        requires
            old(self).wf(),
        ensures
            final(self).wf(),
            added == old(self)@.can_add_ally(ally@),
            final(self)@ == if added {
                old(self)@.with_added_ally(ally@)
            } else {
                old(self)@
            },
    {
        let id = ally.id;
        let position = ally.position;
        let taken = match id {
            AllyId::AshMagnum => self.ash_magnum.is_some(),
            AllyId::Alukrod => self.alukrod.is_some(),
        };
        if taken || position.x >= LEVEL_WIDTH || position.y >= LEVEL_HEIGHT {
            return false;
        }
        if !self.grid.at(position).is_empty() {
            return false;
        }
        let ghost before = self@;
        self.grid.set(position, Tile::Ally(id));
        match id {
            AllyId::AshMagnum => {
                self.ash_magnum = Some(ally);
            },
            AllyId::Alukrod => {
                self.alukrod = Some(ally);
            },
        }
        proof {
            self.lemma_view();
            lemma_ally_repaint(
                before.tiles,
                self@.tiles,
                ally_place(before.ash_magnum),
                ally_place(before.alukrod),
                enemy_places(before.enemies),
                before.obstacles.len() as int,
                item_places(before.items),
                id,
                Some(position),
            );
        }
        true
    }

    /// Puts a new enemy on the grid. With `queued` it waits in the spawn
    /// queue for the end of the round, else it joins the turn order at its
    /// end.
    pub(crate) fn place_enemy(
        &mut self,
        kind: EnemyKind,
        position: Position,
        stats: UnitStats,
        queued: bool,
    ) -> (id: Option<EnemyId>)
        requires
            old(self).wf(),
        ensures
            final(self).wf(),
            match id {
                Some(id) => {
                    &&& old(self)@.can_place(position, stats)
                    &&& id == old(self)@.enemies.len()
                    &&& final(self)@ == old(self)@.with_new_enemy(kind, position, stats, queued)
                },
                None => !old(self)@.can_place(position, stats) && final(self)@ == old(self)@,
            },
    {
        if !stats.is_valid() || position.x >= LEVEL_WIDTH || position.y >= LEVEL_HEIGHT
            || self.enemies.len() >= u16::MAX as usize {
            return None;
        }
        let width: usize = stats.width as usize;
        let height: usize = stats.height as usize;
        if !self.grid.is_free_for(position, Tile::Empty, width, height) {
            return None;
        }
        let id: EnemyId = self.enemies.len() as EnemyId;
        let ghost before = self@;
        let ghost place = Placement {
            position,
            width: stats.width as int,
            height: stats.height as int,
        };
        proof {
            lemma_free_for_covers(before.tiles, position, Tile::Empty, width as int, height as int);
        }
        let enemy = Enemy::new(
            id,
            position,
            kind,
            stats.max_health,
            stats.speed,
            stats.view_distance,
            (stats.width, stats.height),
            stats.ability_list,
            stats.trait_list,
        );
        self.grid.fill(position, width, height, Tile::Enemy(id));
        self.enemies.push(Some(enemy));
        if queued {
            self.spawn_queue.push(id);
        } else {
            self.turn_order.push((id, stats.speed));
        }
        proof {
            self.lemma_view();
            assert(self@.enemies =~= before.enemies.push(
                Some(fresh_enemy(id, position, kind, stats)),
            ));
            assert(self@.tiles =~= tiles_repainted(before.tiles, id as int, None, Some(place)));
            lemma_repaint(
                before.tiles,
                self@.tiles,
                ally_place(before.ash_magnum),
                ally_place(before.alukrod),
                enemy_places(before.enemies),
                before.obstacles.len() as int,
                item_places(before.items),
                id as int,
                Some(place),
            );
            assert(enemy_places(self@.enemies) =~= with_place(
                enemy_places(before.enemies),
                id as int,
                Some(place),
            ));
            assert forall|k: int| 0 <= k < order_ids(self@.turn_order).len() implies (
            #[trigger] order_ids(self@.turn_order)[k]) < self@.enemies.len()
                && self@.enemies[order_ids(self@.turn_order)[k] as int] is Some by {
                if k < before.turn_order.len() {
                    assert(order_ids(before.turn_order)[k] == order_ids(self@.turn_order)[k]);
                }
            }
            assert forall|k: int| 0 <= k < self@.spawn_queue.len() implies (
            #[trigger] self@.spawn_queue[k]) < self@.enemies.len()
                && self@.enemies[self@.spawn_queue[k] as int] is Some by {
                if k < before.spawn_queue.len() {
                    assert(before.spawn_queue[k] == self@.spawn_queue[k]);
                }
            }
            assert(self@ == before.with_new_enemy(kind, position, stats, queued));
        }
        Some(id)
    }

    /// Puts an enemy of the level data on the grid and at the end of the
    /// turn order.
    pub fn add_enemy(&mut self, kind: EnemyKind, position: Position, stats: UnitStats) -> (id:
        Option<EnemyId>)
        requires
            old(self).wf(),
        ensures
            final(self).wf(),
            match id {
                Some(id) => {
                    &&& old(self)@.can_place(position, stats)
                    &&& id == old(self)@.enemies.len()
                    &&& final(self)@ == old(self)@.with_new_enemy(kind, position, stats, false)
                },
                None => !old(self)@.can_place(position, stats) && final(self)@ == old(self)@,
            },
    {
        self.place_enemy(kind, position, stats, false)
    }

    /// Spawns an enemy of a kind, made of the numbers that the bestiary
    /// has for it. It waits in the spawn queue and joins the turn order
    /// when the round ends.
    pub fn spawn_enemy(&mut self, enemy_kind: EnemyKind, position: Position) -> (id: Option<
        EnemyId,
    >)
        requires
            old(self).wf(),
        ensures
            final(self).wf(),
            match id {
                Some(id) => {
                    let stats = old(self)@.bestiary.spec_stats(enemy_kind);
                    &&& old(self)@.can_place(position, stats)
                    &&& id == old(self)@.enemies.len()
                    &&& final(self)@ == old(self)@.with_new_enemy(
                        enemy_kind,
                        position,
                        stats,
                        true,
                    )
                },
                None => !old(self)@.can_place(
                    position,
                    old(self)@.bestiary.spec_stats(enemy_kind),
                ) && final(self)@ == old(self)@,
            },
    {
        let stats = self.bestiary.stats(enemy_kind);
        self.place_enemy(enemy_kind, position, stats, true)
    }

    /// Puts an obstacle on the grid; the part of it that lies off the grid
    /// is cut off. Returns its id, or `None` where a cell under it is not
    /// empty or no id is left.
    pub fn add_obstacle(
        &mut self,
        kind: ObstacleKind,
        position: Position,
        width: u16,
        height: u16,
    ) -> (id: Option<ObstacleId>)
        requires
            old(self).wf(),
            position.in_bounds(),
        ensures
            final(self).wf(),
            id is Some <==> old(self)@.can_add_obstacle(position, width, height),
            match id {
                Some(id) => id == old(self)@.obstacles.len() && final(self)@ == old(
                    self,
                )@.with_obstacle(kind, position, width, height),
                None => final(self)@ == old(self)@,
            },
    {
        if self.obstacles.len() >= u16::MAX as usize {
            return None;
        }
        let clipped_width: usize = if (width as usize) < LEVEL_WIDTH - position.x {
            width as usize
        } else {
            LEVEL_WIDTH - position.x
        };
        let clipped_height: usize = if (height as usize) < LEVEL_HEIGHT - position.y {
            height as usize
        } else {
            LEVEL_HEIGHT - position.y
        };
        let ghost before = self@;
        proof {
            self.lemma_view();
            if clipped_width >= 1 && clipped_height >= 1 {
                lemma_traversable_covers(
                    before.tiles,
                    position,
                    Tile::Empty,
                    clipped_width as int,
                    clipped_height as int,
                );
            }
        }
        if !self.grid.is_traversable(position, Tile::Empty, clipped_width, clipped_height) {
            proof {
                let p = choose|p: Position|
                    covers(position, clipped_width as int, clipped_height as int, p) && !(
                    #[trigger] before.tiles[p] is Empty || before.tiles[p] == Tile::Empty);
                assert(p.in_bounds() && covers(position, width as int, height as int, p));
            }
            return None;
        }
        proof {
            assert forall|p: Position|
                p.in_bounds() && covers(position, width as int, height as int, p) implies (
            #[trigger] before.tiles[p]) is Empty by {
                assert(covers(position, clipped_width as int, clipped_height as int, p));
            }
        }
        let id: ObstacleId = self.obstacles.len() as ObstacleId;
        self.grid.fill(position, clipped_width, clipped_height, Tile::Obstacle(id));
        self.obstacles.push(Obstacle { id, position, kind, width, height });
        proof {
            self.lemma_view();
            assert forall|p: Position|
                p.in_bounds() && covers(position, width as int, height as int, p) implies (
            #[trigger] before.tiles[p]) is Empty by {
                assert(covers(position, clipped_width as int, clipped_height as int, p));
            }
            lemma_obstacle_added(
                before.tiles,
                self@.tiles,
                ally_place(before.ash_magnum),
                ally_place(before.alukrod),
                enemy_places(before.enemies),
                before.obstacles.len() as int,
                item_places(before.items),
                position,
                width as int,
                height as int,
            );
            assert(self@.tiles =~= before.with_obstacle(kind, position, width, height).tiles);
        }
        Some(id)
    }

    /// Puts an item on an empty cell. Returns its id, or `None` where the
    /// cell is not empty or no id is left.
    pub fn spawn_item(&mut self, item_kind: ItemKind, position: Position) -> (id: Option<ItemId>)
        requires
            old(self).wf(),
            position.in_bounds(),
        ensures
            final(self).wf(),
            id is Some <==> old(self)@.can_add_item(position),
            match id {
                Some(id) => id == old(self)@.items.len() && final(self)@ == old(self)@.with_item(
                    item_kind,
                    position,
                ),
                None => final(self)@ == old(self)@,
            },
    {
        if self.items.len() >= u16::MAX as usize || !self.grid.at(position).is_empty() {
            return None;
        }
        let id: ItemId = self.items.len() as ItemId;
        let ghost before = self@;
        self.grid.set(position, Tile::Item(id));
        self.items.push(Some(Item { id, position, kind: item_kind }));
        proof {
            self.lemma_view();
            lemma_item_added(
                before.tiles,
                self@.tiles,
                ally_place(before.ash_magnum),
                ally_place(before.alukrod),
                enemy_places(before.enemies),
                before.obstacles.len() as int,
                item_places(before.items),
                position,
            );
            assert(item_places(self@.items) =~= item_places(before.items).push(Some(position)));
        }
        Some(id)
    }
}

impl Level {
    /// Builds a level from the level data: the entities are put on the
    /// grid in their order, enemies, obstacles and items numbered from 0
    /// as they come, and the turn order is sorted by falling speed. An
    /// entity that cannot be put where the data says refuses the level.
    pub fn load(entities: &Vec<Entity>, bestiary: Bestiary) -> (result: Result<Level, ActionError>)
        requires
            bestiary.bat.valid(),
            bestiary.vampire.valid(),
            bestiary.big_batty.valid(),
        ensures
            match result {
                Ok(level) => {
                    &&& level.wf()
                    &&& LevelView::loaded(entities@, bestiary, entities@.len() as int) matches Some(
                        data,
                    ) && level@ == (LevelView { turn_order: level@.turn_order, ..data })
                        && crate::scheduler::is_turn_order_of(level@.turn_order, data.turn_order)
                },
                Err(error) => error == ActionError::InvalidTarget && LevelView::loaded(
                    entities@,
                    bestiary,
                    entities@.len() as int,
                ) is None,
            },
    {
        let mut level = Level::new(bestiary);
        let mut n: usize = 0;
        while n < entities.len()
            invariant
                n <= entities@.len(),
                level.wf(),
                LevelView::loaded(entities@, bestiary, n as int) == Some(level@),
            decreases entities@.len() - n,
        {
            let entity = entities[n];
            let position = entity.position;
            let done = match entity.kind {
                EntityKind::Ally { id, stats } => {
                    if stats.is_valid() {
                        let ally = Ally::new(
                            id,
                            position,
                            stats.max_health,
                            stats.speed,
                            stats.view_distance,
                            stats.ability_list,
                            stats.trait_list,
                        );
                        level.add_ally(ally)
                    } else {
                        false
                    }
                },
                EntityKind::Enemy { kind, stats } => level.add_enemy(kind, position, stats).is_some(),
                EntityKind::Obstacle { kind, width, height } => {
                    if position.x < LEVEL_WIDTH && position.y < LEVEL_HEIGHT {
                        level.add_obstacle(kind, position, width, height).is_some()
                    } else {
                        false
                    }
                },
                EntityKind::Item { kind } => {
                    if position.x < LEVEL_WIDTH && position.y < LEVEL_HEIGHT {
                        level.spawn_item(kind, position).is_some()
                    } else {
                        false
                    }
                },
            };
            if !done {
                proof {
                    lemma_loaded_stays_none(entities@, bestiary, n + 1, entities@.len() as int);
                }
                return Err(ActionError::InvalidTarget);
            }
            n += 1;
        }
        let ghost data = level@;
        proof {
            level.lemma_view();
        }
        let ghost unsorted = level.turn_order@;
        crate::scheduler::sort_turn_order(&mut level.turn_order);
        proof {
            level.lemma_view();
            assert forall|j: int| 0 <= j < order_ids(level.turn_order@).len() implies (
            #[trigger] order_ids(level.turn_order@)[j]) < level@.enemies.len()
                && level@.enemies[order_ids(level.turn_order@)[j] as int] is Some by {
                let entry = level.turn_order@[j];
                assert(unsorted.contains(entry));
                let m = choose|m: int| 0 <= m < unsorted.len() && unsorted[m] == entry;
                assert(order_ids(unsorted)[m] == entry.0);
            }
        }
        Ok(level)
    }

    /// What one ally of the level sees, or `None` where that ally is not in
    /// the level.
    pub fn visible_set(&self, ally_id: AllyId) -> (visible: Option<crate::fov::ShadowMap>)
        requires
            self.wf(),
        ensures
            match visible {
                Some(visible) => self@.ally(ally_id) matches Some(ally) && visible@
                    == crate::fov::fov_spec(self@, ally.position, ally.view_distance as nat),
                None => self@.ally(ally_id) is None,
            },
    {
        match self.get_ally(ally_id) {
            Some(ally) => Some(crate::fov::compute_fov(ally.position, ally.view_distance, self)),
            None => None,
        }
    }

    /// What the allies of the level see together.
    pub fn cast_shadows(&self) -> (visible: crate::fov::ShadowMap)
        requires
            self.wf(),
        ensures
            visible@ == self@.in_sight(),
    {
        let mut visible = crate::fov::ShadowMap::new();
        match self.get_ally(AllyId::AshMagnum) {
            Some(ally) => {
                let seen = crate::fov::compute_fov(ally.position, ally.view_distance, self);
                visible.extend(&seen);
            },
            None => {},
        }
        match self.get_ally(AllyId::Alukrod) {
            Some(ally) => {
                let seen = crate::fov::compute_fov(ally.position, ally.view_distance, self);
                visible.extend(&seen);
            },
            None => {},
        }
        assert(visible@ =~= self@.in_sight());
        visible
    }
}

/// Level data that cannot be loaded up to one entity cannot be loaded
/// further.
pub proof fn lemma_loaded_stays_none(entities: Seq<Entity>, bestiary: Bestiary, n: int, more: int)
    requires
        0 <= n <= more,
        LevelView::loaded(entities, bestiary, n) is None,
    ensures
        LevelView::loaded(entities, bestiary, more) is None,
    decreases more - n,
{
    if more > n {
        lemma_loaded_stays_none(entities, bestiary, n, more - 1);
    }
}

} // verus!
