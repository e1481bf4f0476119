//! The resolver: what a move or the use of an ability does to a level.

use crate::ability::{Ability, Action, DamageKind, Effect};
use crate::grid::{
    cell_open, footprint, footprint_spec, free_for, lemma_free_for_covers, AllyId, EnemyId, Grid,
    Tile,
};
use crate::layout::{lemma_ally_repaint, lemma_repaint, placed, tiles_repainted, with_place};
use crate::level::{
    ally_place, ally_view, enemy_place, enemy_places, enemy_views, item_places, order_ids,
    take_enemy, ActionError, Level, LevelView,
};
use crate::line::{clear_line, line_spec, line_to};
use crate::pathfind::{is_least_length, is_walk, pathfind, way_found};
use crate::position::{Direction, Position};
use crate::scheduler::{other_id, other_than, remove_from_order, remove_from_queue};
use crate::unit::{
    health_after_heal, projectile_of, selected_after_use, slots_after_use, Ally, AllyView, Enemy,
    EnemyView, Item, Projectile,
};
use vstd::prelude::*;

verus! {

/// How many steps a push of at most `reach` steps goes: up to the first
/// step at which the unit would leave the grid or stand on a cell that is
/// not free for it.
pub open spec fn push_steps(
    tiles: Map<Position, Tile>,
    from: Position,
    mover: Tile,
    width: int,
    height: int,
    direction: Direction,
    reach: int,
) -> int
    decreases reach,
{
    if reach <= 0 {
        0
    } else {
        let shorter = push_steps(tiles, from, mover, width, height, direction, reach - 1);
        if shorter == reach - 1 && (from.spec_in_direction(direction, reach) matches Some(q)
            && free_for(tiles, q, mover, width, height)) {
            reach
        } else {
            shorter
        }
    }
}

/// Where a push of at most `reach` steps leaves a unit.
pub open spec fn pushed_to(
    tiles: Map<Position, Tile>,
    from: Position,
    mover: Tile,
    width: int,
    height: int,
    direction: Direction,
    reach: int,
) -> Position {
    match from.spec_in_direction(
        direction,
        push_steps(tiles, from, mover, width, height, direction, reach),
    ) {
        Some(q) => q,
        None => from,
    }
}

/// A push that stops short of `reach` stays as it is for every longer
/// reach.
proof fn lemma_push_stuck(
    tiles: Map<Position, Tile>,
    from: Position,
    mover: Tile,
    width: int,
    height: int,
    direction: Direction,
    reach: int,
    more: int,
)
    requires
        1 <= reach <= more,
        push_steps(tiles, from, mover, width, height, direction, reach) == push_steps(
            tiles,
            from,
            mover,
            width,
            height,
            direction,
            reach - 1,
        ),
        push_steps(tiles, from, mover, width, height, direction, reach - 1) <= reach - 1,
    ensures
        push_steps(tiles, from, mover, width, height, direction, more) == push_steps(
            tiles,
            from,
            mover,
            width,
            height,
            direction,
            reach - 1,
        ),
    decreases more - reach,
{
    if more > reach {
        lemma_push_stuck(tiles, from, mover, width, height, direction, reach, more - 1);
    }
}

/// Finds where a push of at most `distance` steps in `direction` leaves a
/// unit that stands at `from`.
pub fn push_target(
    grid: &Grid,
    from: Position,
    mover: Tile,
    width: usize,
    height: usize,
    direction: Direction,
    distance: u16,
) -> (to: Position)
    requires
        from.in_bounds(),
    ensures
        to == pushed_to(grid@, from, mover, width as int, height as int, direction, distance as int),
        to.in_bounds(),
        to != from ==> free_for(grid@, to, mover, width as int, height as int),
{
    let ghost w = width as int;
    let ghost h = height as int;
    let mut to = from;
    let mut dist: u16 = 1;
    let mut stopped: bool = false;
    while dist <= distance && !stopped
        invariant
            from.in_bounds(),
            to.in_bounds(),
            w == width as int,
            h == height as int,
            1 <= dist <= distance + 1,
            to != from ==> free_for(grid@, to, mover, w, h),
            !stopped ==> push_steps(grid@, from, mover, w, h, direction, dist - 1) == dist - 1,
            !stopped ==> from.spec_in_direction(direction, dist - 1) == Some(to),
            stopped ==> to == pushed_to(grid@, from, mover, w, h, direction, distance as int),
        decreases distance + 1 - dist + if stopped { 0int } else { 1int },
    {
        let mut moved: bool = false;
        match from.in_direction(direction, dist as usize) {
            Some(position) => {
                if grid.is_free_for(position, mover, width, height) {
                    to = position;
                    moved = true;
                }
            },
            None => {},
        }
        if moved {
            if dist == distance {
                stopped = true;
            } else {
                dist += 1;
            }
        } else {
            proof {
                lemma_push_stuck(grid@, from, mover, w, h, direction, dist as int, distance as int);
            }
            stopped = true;
        }
    }
    to
}

/// Whether a unit at `from` can hit the cell `target` with an ability of
/// the given range: a clear line of at most `range` steps leads there.
pub open spec fn in_reach(
    tiles: Map<Position, Tile>,
    from: Position,
    target: Position,
    range: int,
) -> bool {
    clear_line(tiles, from, target) && from.steps_to(target) <= range
}

/// The index of the first of `cells`, from `k` on, that is in reach, or
/// the number of cells.
pub open spec fn first_in_reach(
    tiles: Map<Position, Tile>,
    from: Position,
    cells: Seq<Position>,
    range: int,
    k: int,
) -> int
    decreases cells.len() - k,
{
    if k < 0 || k >= cells.len() {
        cells.len() as int
    } else if in_reach(tiles, from, cells[k], range) {
        k
    } else {
        first_in_reach(tiles, from, cells, range, k + 1)
    }
}

/// The first cell under the enemy, column by column, that a unit at
/// `from` can hit with an ability of the given range.
pub open spec fn target_cell(
    tiles: Map<Position, Tile>,
    from: Position,
    enemy: EnemyView,
    range: int,
) -> Option<Position> {
    let cells = footprint_spec(enemy.position, enemy.width as int, enemy.height as int);
    let k = first_in_reach(tiles, from, cells, range, 0);
    if k < cells.len() {
        Some(cells[k])
    } else {
        None
    }
}

/// Whether a mover tagged `mover` at `from` can walk to `to` in at most
/// `speed` steps: `to` is another cell and such a path exists.
pub open spec fn reachable_within(
    tiles: Map<Position, Tile>,
    from: Position,
    to: Position,
    mover: Tile,
    speed: int,
) -> bool {
    from != to && exists|path: Seq<Position>| #[trigger]
        is_walk(tiles, from, to, mover, 1, 1, path) && path.len() <= speed
}

/// What the use of an ability did, for the layer that shows it.
#[derive(Debug)]
pub struct Outcome {
    pub ability: Ability,
    /// The cells of the line of fire, the target cell last. Empty for an
    /// ability that the unit uses on itself.
    pub path: Vec<Position>,
    /// The projectile that flies, if the ability sends one.
    pub projectile: Option<Projectile>,
    /// Whether the target died.
    pub killed: bool,
}

/// The record of an ally after it used its selected ability. With
/// `healing` it has that much health back.
pub open spec fn ally_after_use(ally: AllyView, healing: Option<u16>) -> AllyView {
    AllyView {
        abilities: slots_after_use(ally.abilities, ally.selected_ability as int),
        selected_ability: selected_after_use(
            ally.selected_ability,
            slots_after_use(ally.abilities, ally.selected_ability as int),
        ),
        has_acted: true,
        health: match healing {
            Some(amount) => health_after_heal(ally.health, ally.max_health, amount),
            None => ally.health,
        },
        ..ally
    }
}

/// The first cell in reach, where there is one, is in reach.
pub proof fn lemma_first_in_reach(
    tiles: Map<Position, Tile>,
    from: Position,
    cells: Seq<Position>,
    range: int,
    k: int,
)
    requires
        0 <= k <= cells.len(),
    ensures
        k <= first_in_reach(tiles, from, cells, range, k) <= cells.len(),
        first_in_reach(tiles, from, cells, range, k) < cells.len() ==> in_reach(
            tiles,
            from,
            cells[first_in_reach(tiles, from, cells, range, k)],
            range,
        ),
    decreases cells.len() - k,
{
    if k < cells.len() && !in_reach(tiles, from, cells[k], range) {
        lemma_first_in_reach(tiles, from, cells, range, k + 1);
    }
}

impl LevelView {
    /// The level without the enemy `id`: its cells are empty and it is in
    /// neither the turn order nor the spawn queue.
    pub open spec fn without_enemy(self, id: EnemyId) -> LevelView {
        LevelView {
            tiles: tiles_repainted(self.tiles, id as int, enemy_place(self.enemy(id)), None),
            enemies: self.enemies.update(id as int, None),
            turn_order: self.turn_order.filter(other_than(id)),
            spawn_queue: self.spawn_queue.filter(other_id(id)),
            ..self
        }
    }

    /// The level with the record of the enemy `id` replaced by `enemy`,
    /// which stands where its record says.
    pub open spec fn with_enemy(self, id: EnemyId, enemy: EnemyView) -> LevelView {
        LevelView {
            tiles: tiles_repainted(
                self.tiles,
                id as int,
                enemy_place(self.enemy(id)),
                enemy_place(Some(enemy)),
            ),
            enemies: self.enemies.update(id as int, Some(enemy)),
            ..self
        }
    }

    /// The level with the record of an ally replaced by `ally`, which
    /// stands where its record says.
    pub open spec fn with_ally_at(self, ally: AllyView) -> LevelView {
        LevelView {
            tiles: match self.ally(ally.id) {
                Some(was) => self.tiles.insert(was.position, Tile::Empty).insert(
                    ally.position,
                    Tile::Ally(ally.id),
                ),
                None => self.tiles,
            },
            ..self.with_ally(ally.id, Some(ally))
        }
    }

    /// The level without the ally `id`: its cell is empty.
    pub open spec fn without_ally(self, id: AllyId) -> LevelView {
        LevelView {
            tiles: match self.ally(id) {
                Some(was) => self.tiles.insert(was.position, Tile::Empty),
                None => self.tiles,
            },
            ..self.with_ally(id, None)
        }
    }

    /// The level after the ally hit the enemy `id` with its selected
    /// ability: the ally has used the ability, and has the damage back as
    /// health where the damage steals life; the enemy has taken the hit
    /// and knows where the ally stands; an enemy without health is gone,
    /// any other is pushed `push` steps at most, away from the ally.
    pub open spec fn after_attack(
        self,
        ally_id: AllyId,
        id: EnemyId,
        damage_kind: DamageKind,
        damage: u16,
        push: int,
    ) -> LevelView {
        let ally = self.ally(ally_id).unwrap();
        let enemy = self.enemy(id).unwrap();
        let struck = EnemyView {
            last_known_positions: enemy.last_known_positions.spec_insert(ally_id, ally.position),
            ..enemy.after_hit(damage, damage_kind)
        };
        let acted = self.with_ally(
            ally_id,
            Some(
                ally_after_use(
                    ally,
                    if damage_kind == DamageKind::LifeSteal {
                        Some(damage)
                    } else {
                        None
                    },
                ),
            ),
        );
        if struck.health == 0 {
            acted.without_enemy(id)
        } else {
            acted.with_enemy(
                id,
                EnemyView {
                    position: pushed_to(
                        self.tiles,
                        enemy.position,
                        Tile::Enemy(id),
                        enemy.width as int,
                        enemy.height as int,
                        ally.position.spec_direction_to(enemy.position),
                        push,
                    ),
                    ..struck
                },
            )
        }
    }

    /// Why the ally cannot use its selected ability, if it cannot.
    pub open spec fn ability_error(
        self,
        ally_id: AllyId,
        position: Position,
        enemy_id: Option<EnemyId>,
    ) -> Option<ActionError> {
        let ally = self.ally(ally_id).unwrap();
        if ally.has_acted || ally.effects.mist is Some {
            Some(ActionError::AlreadyActed)
        } else if ally.selected_ability >= ally.abilities.len() {
            Some(ActionError::NoUsesRemaining)
        } else {
            let slot = ally.abilities[ally.selected_ability as int];
            let range = slot.ability.spec_range() as int;
            if slot.ability.spec_consumable() && slot.uses == 0 {
                Some(ActionError::NoUsesRemaining)
            } else {
                match slot.ability.spec_action() {
                    Action::Attack { .. } | Action::Push { .. } => match enemy_id {
                        Some(id) => match self.enemy(id) {
                            Some(enemy) => if target_cell(
                                self.tiles,
                                ally.position,
                                enemy,
                                range,
                            ) is None {
                                Some(ActionError::OutOfRange)
                            } else {
                                None
                            },
                            None => Some(ActionError::InvalidTarget),
                        },
                        None => Some(ActionError::InvalidTarget),
                    },
                    Action::Effect { .. } => None,
                    Action::PlaceItem { .. } => if !in_reach(
                        self.tiles,
                        ally.position,
                        position,
                        range,
                    ) {
                        Some(ActionError::OutOfRange)
                    } else if !(self.tiles[position] is Empty) || self.items.len() >= u16::MAX {
                        Some(ActionError::InvalidTarget)
                    } else {
                        None
                    },
                    Action::Spawn { .. } => Some(ActionError::InvalidTarget),
                }
            }
        }
    }

    /// The level after the ally used its selected ability with success.
    pub open spec fn after_ability(
        self,
        ally_id: AllyId,
        position: Position,
        enemy_id: Option<EnemyId>,
    ) -> LevelView {
        let ally = self.ally(ally_id).unwrap();
        let ability = ally.abilities[ally.selected_ability as int].ability;
        match ability.spec_action() {
            Action::Attack { damage_kind, damage } => self.after_attack(
                ally_id,
                enemy_id.unwrap(),
                damage_kind,
                damage,
                0,
            ),
            Action::Push { damage_kind, damage, distance } => self.after_attack(
                ally_id,
                enemy_id.unwrap(),
                damage_kind,
                damage,
                distance as int,
            ),
            Action::Effect { effect, stats } => self.with_ally(
                ally_id,
                Some(
                    AllyView {
                        effects: ally.effects.spec_insert(effect, stats),
                        ..ally_after_use(ally, None)
                    },
                ),
            ),
            Action::PlaceItem { kind } => LevelView {
                tiles: self.tiles.insert(position, Tile::Item(self.items.len() as u16)),
                items: self.items.push(
                    Some(Item { id: self.items.len() as u16, position, kind }),
                ),
                ..self.with_ally(ally_id, Some(ally_after_use(ally, None)))
            },
            Action::Spawn { .. } => self,
        }
    }

    /// The cell that the selected ability of the ally is aimed at.
    pub open spec fn aim(self, ally_id: AllyId, position: Position, enemy_id: Option<EnemyId>) -> Position {
        let ally = self.ally(ally_id).unwrap();
        let ability = ally.abilities[ally.selected_ability as int].ability;
        match ability.spec_action() {
            Action::Attack { .. } | Action::Push { .. } => target_cell(
                self.tiles,
                ally.position,
                self.enemy(enemy_id.unwrap()).unwrap(),
                ability.spec_range() as int,
            ).unwrap(),
            Action::PlaceItem { .. } => position,
            _ => ally.position,
        }
    }
}

/// Finds a shortest path of at least one and at most `speed` steps for a
/// mover of one cell.
pub fn path_within(grid: &Grid, from: Position, to: Position, mover: Tile, speed: u16) -> (path:
    Option<Vec<Position>>)
    requires
        from.in_bounds(),
        to.in_bounds(),
    ensures
        match path {
            Some(path) => {
                &&& reachable_within(grid@, from, to, mover, speed as int)
                &&& is_walk(grid@, from, to, mover, 1, 1, path@)
                &&& is_least_length(grid@, from, to, mover, 1, 1, path@.len() as int)
                &&& way_found(grid@, from, to, mover, 1, 1) == Some(path@)
                &&& 1 <= path@.len() <= speed
            },
            None => !reachable_within(grid@, from, to, mover, speed as int),
        },
{
    let dimensions: (usize, usize) = (1, 1);
    assert(dimensions.0 as int == 1 && dimensions.1 as int == 1);
    let found = pathfind(from, to, grid, mover, dimensions);
    match found {
        Some(path) => {
            if path.len() == 0 || path.len() > speed as usize {
                proof {
                    assert(is_least_length(grid@, from, to, mover, 1, 1, path@.len() as int));
                    if from != to {
                        assert forall|any: Seq<Position>| #[trigger]
                            is_walk(grid@, from, to, mover, 1, 1, any) implies any.len()
                            > speed by {}
                    }
                    assert(!reachable_within(grid@, from, to, mover, speed as int));
                }
                None
            } else {
                proof {
                    assert(is_walk(grid@, from, to, mover, 1, 1, path@));
                    assert(from != to);
                    assert(reachable_within(grid@, from, to, mover, speed as int));
                }
                Some(path)
            }
        },
        None => {
            proof {
                assert(found is None);
                assert(forall|any: Seq<Position>| !#[trigger] is_walk(grid@, from, to, mover, 1, 1, any));
                assert(!reachable_within(grid@, from, to, mover, speed as int));
            }
            None
        },
    }
}

impl Level {
    /// Takes the record of an ally out of its slot.
    pub(crate) fn take_ally(&mut self, id: AllyId) -> (ally: Option<Ally>)
        ensures
            ally_view(ally) == old(self)@.ally(id),
            final(self)@ == old(self)@.with_ally(id, None),
    {
        proof {
            self.lemma_view();
        }
        let ally = match id {
            AllyId::AshMagnum => self.ash_magnum.take(),
            AllyId::Alukrod => self.alukrod.take(),
        };
        proof {
            self.lemma_view();
        }
        ally
    }

    /// Puts the changed record of an ally, which stood at `from`, back into
    /// its slot. The ally may have moved; its new cell must be free for
    /// it.
    pub(crate) fn put_ally(&mut self, ally: Ally, from: Position, Ghost(before): Ghost<LevelView>)
        requires
            before.wf(),
            before.ally(ally.id) matches Some(was) && was.position == from,
            old(self)@ == before.with_ally(ally.id, None),
            ally.position.in_bounds(),
            before.tiles[ally.position].spec_is_free() || before.tiles[ally.position] == Tile::Ally(
                ally.id,
            ),
        ensures
            final(self).wf(),
            final(self)@ == before.with_ally_at(ally@),
    {
        proof {
            self.lemma_view();
        }
        let id = ally.id;
        let to = ally.position;
        proof {
            assert(from.in_bounds());
            assert(before.tiles[from] == Tile::Ally(id));
        }
        if from != to {
            self.grid.set(from, Tile::Empty);
            self.grid.set(to, Tile::Ally(id));
        }
        match id {
            AllyId::AshMagnum => {
                self.ash_magnum = Some(ally);
            },
            AllyId::Alukrod => {
                self.alukrod = Some(ally);
            },
        }
        proof {
            self.lemma_view();
            assert(self@.tiles =~= before.tiles.insert(from, Tile::Empty).insert(
                to,
                Tile::Ally(id),
            ));
            lemma_ally_repaint(
                before.tiles,
                self@.tiles,
                ally_place(before.ash_magnum),
                ally_place(before.alukrod),
                enemy_places(before.enemies),
                before.obstacles.len() as int,
                item_places(before.items),
                id,
                Some(to),
            );
        }
    }

    /// Takes a dead ally out of the level.
    pub(crate) fn remove_ally(&mut self, id: AllyId)
        requires
            old(self).wf(),
            old(self)@.ally(id) is Some,
        ensures
            final(self).wf(),
            final(self)@ == old(self)@.without_ally(id),
    {
        let ghost before = self@;
        match self.take_ally(id) {
            Some(ally) => {
                proof {
                    self.lemma_view();
                    assert(ally.position.in_bounds());
                }
                self.grid.set(ally.position, Tile::Empty);
                proof {
                    self.lemma_view();
                    lemma_ally_repaint(
                        before.tiles,
                        self@.tiles,
                        ally_place(before.ash_magnum),
                        ally_place(before.alukrod),
                        enemy_places(before.enemies),
                        before.obstacles.len() as int,
                        item_places(before.items),
                        id,
                        None,
                    );
                }
            },
            None => {},
        }
    }

    /// Takes a dead enemy out of the level.
    pub(crate) fn remove_enemy(&mut self, id: EnemyId)
        requires
            old(self).wf(),
            old(self)@.enemy(id) is Some,
        ensures
            final(self).wf(),
            final(self)@ == old(self)@.without_enemy(id),
    {
        proof {
            self.lemma_view();
        }
        let ghost before = self@;
        match take_enemy(&mut self.enemies, id as usize) {
            Some(enemy) => {
                let ghost place = enemy_place(Some(enemy@));
                proof {
                    assert(enemy_places(before.enemies)[id as int] == place);
                    assert(placed(before.tiles, place.unwrap(), id as int));
                }
                self.grid.fill(
                    enemy.position,
                    enemy.width as usize,
                    enemy.height as usize,
                    Tile::Empty,
                );
                remove_from_order(&mut self.turn_order, id);
                remove_from_queue(&mut self.spawn_queue, id);
                proof {
                    self.lemma_view();
                    assert(self@.tiles =~= tiles_repainted(before.tiles, id as int, place, None));
                    lemma_repaint(
                        before.tiles,
                        self@.tiles,
                        ally_place(before.ash_magnum),
                        ally_place(before.alukrod),
                        enemy_places(before.enemies),
                        before.obstacles.len() as int,
                        item_places(before.items),
                        id as int,
                        None,
                    );
                    assert(enemy_places(self@.enemies) =~= with_place(
                        enemy_places(before.enemies),
                        id as int,
                        None,
                    ));
                    assert forall|k: int| 0 <= k < order_ids(self@.turn_order).len() implies (
                    #[trigger] order_ids(self@.turn_order)[k]) < self@.enemies.len()
                        && self@.enemies[order_ids(self@.turn_order)[k] as int] is Some by {
                        let entry = self@.turn_order[k];
                        assert(before.turn_order.contains(entry));
                        let j = choose|j: int|
                            0 <= j < before.turn_order.len() && before.turn_order[j] == entry;
                        assert(order_ids(before.turn_order)[j] == entry.0);
                    }
                    assert forall|k: int| 0 <= k < self@.spawn_queue.len() implies (
                    #[trigger] self@.spawn_queue[k]) < self@.enemies.len()
                        && self@.enemies[self@.spawn_queue[k] as int] is Some by {
                        let queued = self@.spawn_queue[k];
                        assert(before.spawn_queue.contains(queued));
                        let j = choose|j: int|
                            0 <= j < before.spawn_queue.len() && before.spawn_queue[j] == queued;
                        assert(before.spawn_queue[j] == queued);
                    }
                }
            },
            None => {},
        }
    }

    /// Puts the changed record of an enemy, which stood at `from`, back
    /// into its slot. The enemy may have moved; its new place must be free
    /// for it.
    pub(crate) fn put_enemy(&mut self, enemy: Enemy, from: Position, Ghost(before): Ghost<LevelView>)
        requires
            before.wf(),
            before.enemy(enemy.id) matches Some(was) && was.position == from && was.width
                == enemy.width && was.height == enemy.height,
            old(self)@ == (LevelView {
                enemies: before.enemies.update(enemy.id as int, None),
                ..before
            }),
            enemy.position.in_bounds(),
            enemy.position != from ==> free_for(
                before.tiles,
                enemy.position,
                Tile::Enemy(enemy.id),
                enemy.width as int,
                enemy.height as int,
            ),
        ensures
            final(self).wf(),
            final(self)@ == before.with_enemy(enemy.id, enemy@),
    {
        proof {
            self.lemma_view();
        }
        let id = enemy.id;
        let to = enemy.position;
        let width: usize = enemy.width as usize;
        let height: usize = enemy.height as usize;
        let ghost was = before.enemy(id).unwrap();
        let ghost old_place = enemy_place(Some(was));
        let ghost new_place = enemy_place(Some(enemy@));
        proof {
            assert(enemy_places(before.enemies)[id as int] == old_place);
            assert(placed(before.tiles, old_place.unwrap(), id as int));
            lemma_free_for_covers(before.tiles, to, Tile::Enemy(id), width as int, height as int);
        }
        if from != to {
            self.grid.fill(from, width, height, Tile::Empty);
            self.grid.fill(to, width, height, Tile::Enemy(id));
        }
        proof {
            assert(enemy_views(self.enemies@).len() == before.enemies.len());
        }
        let ghost slots = self.enemies@;
        self.enemies.set(id as usize, Some(enemy));
        proof {
            self.lemma_view();
            assert(enemy_views(self.enemies@) =~= enemy_views(slots).update(
                id as int,
                Some(enemy@),
            ));
            assert(self@.enemies =~= before.enemies.update(id as int, Some(enemy@)));
            assert(self@.tiles =~= tiles_repainted(before.tiles, id as int, old_place, new_place));
            lemma_repaint(
                before.tiles,
                self@.tiles,
                ally_place(before.ash_magnum),
                ally_place(before.alukrod),
                enemy_places(before.enemies),
                before.obstacles.len() as int,
                item_places(before.items),
                id as int,
                new_place,
            );
            assert(enemy_places(self@.enemies) =~= with_place(
                enemy_places(before.enemies),
                id as int,
                new_place,
            ));
            assert forall|k: int| 0 <= k < order_ids(self@.turn_order).len() implies (
            #[trigger] order_ids(self@.turn_order)[k]) < self@.enemies.len()
                && self@.enemies[order_ids(self@.turn_order)[k] as int] is Some by {
                assert(order_ids(before.turn_order)[k] == order_ids(self@.turn_order)[k]);
            }
            assert forall|k: int| 0 <= k < self@.spawn_queue.len() implies (
            #[trigger] self@.spawn_queue[k]) < self@.enemies.len()
                && self@.enemies[self@.spawn_queue[k] as int] is Some by {
                assert(before.spawn_queue[k] == self@.spawn_queue[k]);
            }
        }
    }

    /// Selects the ability in `slot` of the list of an ally for its next
    /// use. Returns whether the ally is there and has that slot.
    pub fn select_ability(&mut self, ally_id: AllyId, slot: usize) -> (selected: bool)
        requires
            old(self).wf(),
        ensures
            final(self).wf(),
            selected == (old(self)@.ally(ally_id) matches Some(ally) && slot < ally.abilities.len()),
            final(self)@ == if selected {
                old(self)@.with_ally(
                    ally_id,
                    Some(AllyView { selected_ability: slot, ..old(self)@.ally(ally_id).unwrap() }),
                )
            } else {
                old(self)@
            },
    {
        proof {
            self.lemma_view();
        }
        let ghost before = self@;
        let has_slot = match self.get_ally(ally_id) {
            Some(ally) => slot < ally.abilities.len(),
            None => false,
        };
        if !has_slot {
            return false;
        }
        let mut ally = match self.take_ally(ally_id) {
            Some(ally) => ally,
            None => {
                proof {
                    assert(ally_view(None::<Ally>) is None);
                }
                return false;
            },
        };
        let from = ally.position;
        ally.selected_ability = slot;
        proof {
            assert(before.tiles[from] == Tile::Ally(ally_id));
        }
        self.put_ally(ally, from, Ghost(before));
        proof {
            assert(before.tiles.insert(from, Tile::Empty).insert(from, Tile::Ally(ally_id))
                =~= before.tiles);
        }
        true
    }

    /// Hands an ally what it brought along from the level before. Returns
    /// whether the ally is in the level.
    pub fn restore_ally(&mut self, ally_id: AllyId, inventory: &Vec<(Ability, u16)>) -> (restored:
        bool)
        requires
            old(self).wf(),
        ensures
            final(self).wf(),
            restored == old(self)@.ally(ally_id) is Some,
            final(self)@ == match old(self)@.ally(ally_id) {
                Some(ally) => old(self)@.with_ally(
                    ally_id,
                    Some(
                        AllyView {
                            abilities: crate::unit::slots_restored(
                                ally.abilities,
                                inventory@,
                                inventory@.len() as int,
                            ),
                            ..ally
                        },
                    ),
                ),
                None => old(self)@,
            },
    {
        proof {
            self.lemma_view();
        }
        let ghost before = self@;
        let mut ally = match self.take_ally(ally_id) {
            Some(ally) => ally,
            None => {
                proof {
                    self.lemma_view();
                    assert(before.with_ally(ally_id, None) =~= before);
                }
                return false;
            },
        };
        let from = ally.position;
        ally.restore(inventory);
        proof {
            assert(before.tiles[from] == Tile::Ally(ally_id));
        }
        self.put_ally(ally, from, Ghost(before));
        proof {
            assert(before.tiles.insert(from, Tile::Empty).insert(from, Tile::Ally(ally_id))
                =~= before.tiles);
        }
        true
    }

    /// Moves an ally to `position` along a shortest path, if it has not
    /// moved this turn and the path is no longer than its speed. Returns
    /// the path, `position` last.
    pub fn move_ally(&mut self, ally_id: AllyId, position: Position) -> (result: Result<
        Vec<Position>,
        ActionError,
    >)
        requires
            old(self).wf(),
            old(self)@.ally(ally_id) is Some,
            position.in_bounds(),
        ensures
            final(self).wf(),
            match result {
                Ok(path) => {
                    let ally = old(self)@.ally(ally_id).unwrap();
                    &&& !ally.has_moved
                    &&& reachable_within(
                        old(self)@.tiles,
                        ally.position,
                        position,
                        Tile::Ally(ally_id),
                        ally.speed as int,
                    )
                    &&& is_walk(
                        old(self)@.tiles,
                        ally.position,
                        position,
                        Tile::Ally(ally_id),
                        1,
                        1,
                        path@,
                    )
                    &&& is_least_length(
                        old(self)@.tiles,
                        ally.position,
                        position,
                        Tile::Ally(ally_id),
                        1,
                        1,
                        path@.len() as int,
                    )
                    &&& way_found(
                        old(self)@.tiles,
                        ally.position,
                        position,
                        Tile::Ally(ally_id),
                        1,
                        1,
                    ) == Some(path@)
                    &&& final(self)@ == old(self)@.with_ally_at(
                        AllyView { position, has_moved: true, ..ally },
                    )
                },
                Err(error) => {
                    let ally = old(self)@.ally(ally_id).unwrap();
                    &&& final(self)@ == old(self)@
                    &&& error == if ally.has_moved {
                        ActionError::AlreadyMoved
                    } else {
                        ActionError::Unreachable
                    }
                    &&& !ally.has_moved ==> !reachable_within(
                        old(self)@.tiles,
                        ally.position,
                        position,
                        Tile::Ally(ally_id),
                        ally.speed as int,
                    )
                },
            },
    {
        proof {
            self.lemma_view();
        }
        let ghost before = self@;
        let (from, speed, has_moved) = match self.get_ally(ally_id) {
            Some(ally) => (ally.position, ally.speed, ally.has_moved),
            None => {
                return Err(ActionError::Unreachable);
            },
        };
        if has_moved {
            return Err(ActionError::AlreadyMoved);
        }
        let mover = Tile::Ally(ally_id);
        let path = match path_within(&self.grid, from, position, mover, speed) {
            Some(path) => path,
            None => {
                return Err(ActionError::Unreachable);
            },
        };
        let mut ally = match self.take_ally(ally_id) {
            Some(ally) => ally,
            None => {
                proof {
                    assert(ally_view(None::<Ally>) is None);
                    assert(false);
                }
                return Err(ActionError::Unreachable);
            },
        };
        ally.position = position;
        ally.has_moved = true;
        proof {
            assert(path@[path@.len() - 1] == position);
            assert(traversable_cell(before.tiles, position, mover));
        }
        self.put_ally(ally, from, Ghost(before));
        Ok(path)
    }
}

/// Finds the first cell under an enemy that a unit at `from` can hit with
/// an ability of the given range, and the line of fire to it.
pub fn find_target(
    grid: &Grid,
    from: Position,
    anchor: Position,
    width: u16,
    height: u16,
    range: u16,
) -> (found: Option<(Position, Vec<Position>)>)
    requires
        from.in_bounds(),
        crate::grid::fits(anchor, width as int, height as int),
    ensures
        ({
            let cells = footprint_spec(anchor, width as int, height as int);
            let k = first_in_reach(grid@, from, cells, range as int, 0);
            match found {
                Some((cell, path)) => k < cells.len() && cell == cells[k] && path@ == line_spec(
                    from,
                    cell,
                ),
                None => k == cells.len(),
            }
        }),
{
    let cells = footprint(anchor, width as usize, height as usize);
    let ghost all = footprint_spec(anchor, width as int, height as int);
    let mut k: usize = 0;
    while k < cells.len()
        invariant
            k <= cells@.len(),
            cells@ == all,
            from.in_bounds(),
            crate::grid::fits(anchor, width as int, height as int),
            all == footprint_spec(anchor, width as int, height as int),
            first_in_reach(grid@, from, all, range as int, 0) == first_in_reach(
                grid@,
                from,
                all,
                range as int,
                k as int,
            ),
        decreases cells@.len() - k,
    {
        let cell = cells[k];
        proof {
            let h = height as int;
            assert(cell == crate::grid::offset(anchor, k as int / h, k as int % h));
            assert(0 <= k as int / h < width && 0 <= k as int % h < h) by (nonlinear_arith)
                requires
                    0 <= k < width * h,
                    h > 0,
            ;
        }
        let line = line_to(from, cell, grid);
        match line {
            Some(path) => {
                if path.len() <= range as usize {
                    return Some((cell, path));
                }
            },
            None => {
                assert(line is None);
            },
        }
        k += 1;
    }
    None
}

impl Level {
    /// Pushes an enemy up to `distance` cells in a direction. The push ends
    /// before the first cell on which the enemy would leave the grid or lie
    /// on anything but an item.
    pub fn push(&mut self, enemy_id: EnemyId, direction: Direction, distance: u16)
        requires
            old(self).wf(),
            old(self)@.enemy(enemy_id) is Some,
        ensures
            final(self).wf(),
            final(self)@ == old(self)@.with_enemy(
                enemy_id,
                EnemyView {
                    position: pushed_to(
                        old(self)@.tiles,
                        old(self)@.enemy(enemy_id).unwrap().position,
                        Tile::Enemy(enemy_id),
                        old(self)@.enemy(enemy_id).unwrap().width as int,
                        old(self)@.enemy(enemy_id).unwrap().height as int,
                        direction,
                        distance as int,
                    ),
                    ..old(self)@.enemy(enemy_id).unwrap()
                },
            ),
    {
        proof {
            self.lemma_view();
        }
        let ghost before = self@;
        let mut enemy = match take_enemy(&mut self.enemies, enemy_id as usize) {
            Some(enemy) => enemy,
            None => {
                return ;
            },
        };
        proof {
            self.lemma_view();
            assert(enemy@ == before.enemy(enemy_id).unwrap());
            assert(enemy_places(before.enemies)[enemy_id as int] == enemy_place(
                before.enemy(enemy_id),
            ));
            assert(placed(before.tiles, enemy_place(before.enemy(enemy_id)).unwrap(), enemy_id as int));
        }
        let anchor = enemy.position;
        let to = push_target(
            &self.grid,
            anchor,
            Tile::Enemy(enemy_id),
            enemy.width as usize,
            enemy.height as usize,
            direction,
            distance,
        );
        enemy.position = to;
        self.put_enemy(enemy, anchor, Ghost(before));
    }

    /// The ally hits the enemy `id` on the cell `target` with its selected
    /// ability. Returns the projectile that flies, if any, and whether the
    /// enemy died.
    pub(crate) fn strike(
        &mut self,
        ally_id: AllyId,
        id: EnemyId,
        target: Position,
        damage_kind: DamageKind,
        damage: u16,
        push: u16,
    ) -> (shown: (Option<Projectile>, bool))
        requires
            old(self).wf(),
            old(self)@.ally(ally_id) matches Some(ally) && crate::unit::slot_usable(
                ally.abilities,
                ally.selected_ability as int,
            ),
            old(self)@.enemy(id) is Some,
        ensures
            final(self).wf(),
            final(self)@ == old(self)@.after_attack(ally_id, id, damage_kind, damage, push as int),
            shown.0 == ({
                let ally = old(self)@.ally(ally_id).unwrap();
                match projectile_of(ally.abilities[ally.selected_ability as int].ability) {
                    Some(kind) => Some(Projectile { kind, start: ally.position, end: target }),
                    None => None,
                }
            }),
            shown.1 == (old(self)@.enemy(id).unwrap().after_hit(damage, damage_kind).health == 0),
    {
        proof {
            self.lemma_view();
        }
        let ghost before = self@;
        let ghost was = before.ally(ally_id).unwrap();
        let mut ally = match self.take_ally(ally_id) {
            Some(ally) => ally,
            None => {
                proof {
                    assert(ally_view(None::<Ally>) is None);
                }
                return (None, false);
            },
        };
        let from = ally.position;
        let projectile = ally.use_ability(target);
        ally.has_acted = true;
        if damage_kind == DamageKind::LifeSteal {
            ally.heal(damage);
        }
        proof {
            assert(ally@ == ally_after_use(
                was,
                if damage_kind == DamageKind::LifeSteal {
                    Some(damage)
                } else {
                    None
                },
            ));
            assert(before.tiles[from] == Tile::Ally(ally_id));
        }
        self.put_ally(ally, from, Ghost(before));
        let ghost acted = self@;
        proof {
            self.lemma_view();
            assert(before.tiles.insert(from, Tile::Empty).insert(from, Tile::Ally(ally_id))
                =~= before.tiles);
            assert(acted == before.with_ally(ally_id, Some(ally_after_use(
                was,
                if damage_kind == DamageKind::LifeSteal {
                    Some(damage)
                } else {
                    None
                },
            ))));
            assert(acted.enemy(id) == before.enemy(id));
        }
        let ghost target_was = before.enemy(id).unwrap();
        let mut enemy = match take_enemy(&mut self.enemies, id as usize) {
            Some(enemy) => enemy,
            None => {
                return (projectile, false);
            },
        };
        proof {
            self.lemma_view();
            assert(enemy@ == target_was);
            assert(enemy_places(acted.enemies)[id as int] == enemy_place(Some(target_was)));
            assert(placed(acted.tiles, enemy_place(Some(target_was)).unwrap(), id as int));
        }
        let anchor = enemy.position;
        enemy.hit(damage, damage_kind);
        enemy.last_known_positions.insert(ally_id, from);
        let ghost struck = enemy@;
        if enemy.health == 0 {
            self.put_enemy(enemy, anchor, Ghost(acted));
            proof {
                assert(acted.with_enemy(id, struck).without_enemy(id) =~= acted.without_enemy(id))
                    by {
                    assert(acted.with_enemy(id, struck).tiles =~= acted.tiles);
                    assert(acted.with_enemy(id, struck).without_enemy(id).tiles
                        =~= acted.without_enemy(id).tiles);
                    assert(acted.with_enemy(id, struck).without_enemy(id).enemies
                        =~= acted.without_enemy(id).enemies);
                }
            }
            self.remove_enemy(id);
            (projectile, true)
        } else {
            proof {
                assert(acted.tiles[anchor] == Tile::Enemy(id));
                assert(acted.tiles[from] == Tile::Ally(ally_id));
            }
            let direction = from.direction_to(anchor);
            let to = push_target(
                &self.grid,
                anchor,
                Tile::Enemy(id),
                enemy.width as usize,
                enemy.height as usize,
                direction,
                push,
            );
            enemy.position = to;
            self.put_enemy(enemy, anchor, Ghost(acted));
            (projectile, false)
        }
    }

    /// The ally uses its selected ability: on the enemy `enemy_id` where
    /// the ability attacks or pushes, on the cell `position` where it
    /// places an item, on itself where it puts an effect on its user.
    pub fn use_ability(
        &mut self,
        ally_id: AllyId,
        position: Position,
        enemy_id: Option<EnemyId>,
    ) -> (result: Result<Outcome, ActionError>)
        requires
            old(self).wf(),
            old(self)@.ally(ally_id) is Some,
            position.in_bounds(),
        ensures
            final(self).wf(),
            match result {
                Ok(outcome) => {
                    let ally = old(self)@.ally(ally_id).unwrap();
                    let ability = ally.abilities[ally.selected_ability as int].ability;
                    let aim = old(self)@.aim(ally_id, position, enemy_id);
                    &&& old(self)@.ability_error(ally_id, position, enemy_id) is None
                    &&& final(self)@ == old(self)@.after_ability(ally_id, position, enemy_id)
                    &&& outcome.ability == ability
                    &&& outcome.path@ == if aim == ally.position {
                        Seq::<Position>::empty()
                    } else {
                        line_spec(ally.position, aim)
                    }
                    &&& outcome.projectile == match projectile_of(ability) {
                        Some(kind) => Some(Projectile { kind, start: ally.position, end: aim }),
                        None => None,
                    }
                    &&& outcome.killed == match ability.spec_action() {
                        Action::Attack { damage_kind, damage } | Action::Push {
                            damage_kind,
                            damage,
                            ..
                        } => old(self)@.enemy(enemy_id.unwrap()).unwrap().after_hit(
                            damage,
                            damage_kind,
                        ).health == 0,
                        _ => false,
                    }
                },
                Err(error) => old(self)@.ability_error(ally_id, position, enemy_id) == Some(error)
                    && final(self)@ == old(self)@,
            },
    {
        proof {
            self.lemma_view();
        }
        let ghost before = self@;
        let ghost was = before.ally(ally_id).unwrap();
        let (from, has_acted, in_mist, selected, slots) = match self.get_ally(ally_id) {
            Some(ally) => (
                ally.position,
                ally.has_acted,
                ally.effects.contains_key(Effect::Mist),
                ally.selected_ability,
                ally.abilities.len(),
            ),
            None => {
                return Err(ActionError::InvalidTarget);
            },
        };
        if has_acted || in_mist {
            return Err(ActionError::AlreadyActed);
        }
        if selected >= slots {
            return Err(ActionError::NoUsesRemaining);
        }
        let slot = match self.get_ally(ally_id) {
            Some(ally) => ally.abilities[selected],
            None => {
                return Err(ActionError::InvalidTarget);
            },
        };
        let ability = slot.ability;
        if ability.consumable() && slot.uses == 0 {
            return Err(ActionError::NoUsesRemaining);
        }
        let range: u16 = ability.range();
        match ability.action() {
            Action::Attack { damage_kind, damage } => self.attack(
                ally_id,
                enemy_id,
                ability,
                damage_kind,
                damage,
                0,
                Ghost(position),
            ),
            Action::Push { damage_kind, damage, distance } => self.attack(
                ally_id,
                enemy_id,
                ability,
                damage_kind,
                damage,
                distance,
                Ghost(position),
            ),
            Action::Effect { effect, stats } => {
                let mut ally = match self.take_ally(ally_id) {
                    Some(ally) => ally,
                    None => {
                        proof {
                            assert(ally_view(None::<Ally>) is None);
                        }
                        return Err(ActionError::InvalidTarget);
                    },
                };
                let projectile = ally.use_ability(from);
                ally.has_acted = true;
                ally.effects.insert(effect, stats);
                proof {
                    assert(before.tiles[from] == Tile::Ally(ally_id));
                }
                self.put_ally(ally, from, Ghost(before));
                proof {
                    assert(before.tiles.insert(from, Tile::Empty).insert(from, Tile::Ally(ally_id))
                        =~= before.tiles);
                }
                Ok(Outcome { ability, path: Vec::new(), projectile, killed: false })
            },
            Action::PlaceItem { kind } => {
                let line = line_to(from, position, &self.grid);
                let path = match line {
                    Some(path) => path,
                    None => {
                        assert(line is None);
                        return Err(ActionError::OutOfRange);
                    },
                };
                if path.len() > range as usize {
                    return Err(ActionError::OutOfRange);
                }
                match self.spawn_item(kind, position) {
                    Some(_) => {},
                    None => {
                        return Err(ActionError::InvalidTarget);
                    },
                }
                let ghost placed_item = self@;
                let mut ally = match self.take_ally(ally_id) {
                    Some(ally) => ally,
                    None => {
                        proof {
                            assert(ally_view(None::<Ally>) is None);
                        }
                        return Err(ActionError::InvalidTarget);
                    },
                };
                let projectile = ally.use_ability(position);
                ally.has_acted = true;
                proof {
                    assert(placed_item.tiles[from] == Tile::Ally(ally_id));
                }
                self.put_ally(ally, from, Ghost(placed_item));
                proof {
                    assert(placed_item.tiles.insert(from, Tile::Empty).insert(
                        from,
                        Tile::Ally(ally_id),
                    ) =~= placed_item.tiles);
                    assert(self@ == before.after_ability(ally_id, position, enemy_id));
                }
                Ok(Outcome { ability, path, projectile, killed: false })
            },
            Action::Spawn { .. } => Err(ActionError::InvalidTarget),
        }
    }

    /// The part of `use_ability` for an ability that attacks or pushes.
    fn attack(
        &mut self,
        ally_id: AllyId,
        enemy_id: Option<EnemyId>,
        ability: Ability,
        damage_kind: DamageKind,
        damage: u16,
        push: u16,
        Ghost(position): Ghost<Position>,
    ) -> (result: Result<Outcome, ActionError>)
        requires
            old(self).wf(),
            old(self)@.ally(ally_id) matches Some(ally) && !ally.has_acted && ally.effects.mist is None
                && crate::unit::slot_usable(ally.abilities, ally.selected_ability as int)
                && ally.abilities[ally.selected_ability as int].ability == ability,
            ability.spec_action() == (Action::Attack { damage_kind, damage }) && push == 0
                || ability.spec_action() == (Action::Push { damage_kind, damage, distance: push }),
        ensures
            final(self).wf(),
            match result {
                Ok(outcome) => {
                    let ally = old(self)@.ally(ally_id).unwrap();
                    let aim = old(self)@.aim(ally_id, position, enemy_id);
                    &&& old(self)@.ability_error(ally_id, position, enemy_id) is None
                    &&& final(self)@ == old(self)@.after_ability(ally_id, position, enemy_id)
                    &&& outcome.ability == ability
                    &&& aim != ally.position
                    &&& outcome.path@ == line_spec(ally.position, aim)
                    &&& outcome.projectile == match projectile_of(ability) {
                        Some(kind) => Some(Projectile { kind, start: ally.position, end: aim }),
                        None => None,
                    }
                    &&& outcome.killed == (old(self)@.enemy(enemy_id.unwrap()).unwrap().after_hit(
                        damage,
                        damage_kind,
                    ).health == 0)
                },
                Err(error) => old(self)@.ability_error(ally_id, position, enemy_id) == Some(error)
                    && final(self)@ == old(self)@,
            },
    {
        proof {
            self.lemma_view();
        }
        let ghost before = self@;
        let id = match enemy_id {
            Some(id) => id,
            None => {
                return Err(ActionError::InvalidTarget);
            },
        };
        let from = match self.get_ally(ally_id) {
            Some(ally) => ally.position,
            None => {
                return Err(ActionError::InvalidTarget);
            },
        };
        let (anchor, width, height) = match self.get_enemy(id) {
            Some(enemy) => (enemy.position, enemy.width, enemy.height),
            None => {
                return Err(ActionError::InvalidTarget);
            },
        };
        proof {
            assert(enemy_places(before.enemies)[id as int] == enemy_place(before.enemy(id)));
            assert(placed(before.tiles, enemy_place(before.enemy(id)).unwrap(), id as int));
        }
        let found = find_target(&self.grid, from, anchor, width, height, ability.range());
        let (cell, path) = match found {
            Some(hit) => hit,
            None => {
                assert(found is None);
                return Err(ActionError::OutOfRange);
            },
        };
        proof {
            lemma_first_in_reach(
                before.tiles,
                from,
                footprint_spec(anchor, width as int, height as int),
                ability.spec_range() as int,
                0,
            );
            crate::line::lemma_clear_line_apart(before.tiles, from, cell);
        }
        let (projectile, killed) = self.strike(ally_id, id, cell, damage_kind, damage, push);
        Ok(Outcome { ability, path, projectile, killed })
    }
}

/// Whether a mover of one cell can stand on `p`.
pub open spec fn traversable_cell(tiles: Map<Position, Tile>, p: Position, mover: Tile) -> bool {
    cell_open(tiles, p, 0, 0, mover)
}

} // verus!
