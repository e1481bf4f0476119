//! The planner: what an enemy does on its turn.
//!
//! The enemy looks around, lists what it could aim for (a cell to attack
//! an ally from, the cell where it last saw one, a cell to spawn on),
//! drops what it cannot walk to, and takes the best of the rest.

use crate::ability::{Ability, Action, EnemyKind};
use crate::fov::{compute_fov, fov_spec, ShadowMap};
use crate::grid::{AllyId, Tile};
use crate::level::{Level, LevelView};
use crate::line::{attack_positions, footprint_rays};
use crate::pathfind::{is_least_length, is_walk, pathfind, way_found};
use crate::position::Position;
use crate::unit::{bonus_sum, damage_bonus, AbilitySlot, Enemy, EnemyAction, EnemyView, LastKnown};
use vstd::prelude::*;

verus! {

/// Something an enemy could aim for on its turn.
#[derive(Debug, Clone, Copy, PartialEq, Eq, Structural)]
pub struct Goal {
    /// The ability to use on arrival; `None` for a mere pursuit.
    pub ability: Option<Ability>,
    /// What using it does.
    pub action: EnemyAction,
    /// The distance at which the ability is used.
    pub range: u16,
    /// The cell to walk to.
    pub destination: Position,
    /// The damage of an attack with what the traits of the target add.
    pub effective: u32,
}

/// What decides between two candidates.
#[derive(Debug, Clone, Copy, PartialEq, Eq, Structural)]
pub struct Rank {
    /// The candidate spawns rather than attacks.
    pub spawn: bool,
    /// The way is longer than the unit moves in one turn.
    pub beyond: bool,
    pub damage: u32,
    pub range: u16,
    /// The steps of the way.
    pub cost: usize,
}

/// Whether `a` is the better candidate: an attack before a spawn; of two
/// attacks the one in reach this turn, then the one with more damage,
/// then the one used from farther away, then the one with the shorter
/// way. No spawn is better than another.
pub open spec fn outranks(a: Rank, b: Rank) -> bool {
    if a.spawn || b.spawn {
        !a.spawn && b.spawn
    } else if a.beyond != b.beyond {
        !a.beyond
    } else if a.damage != b.damage {
        a.damage > b.damage
    } else if a.range != b.range {
        a.range > b.range
    } else {
        a.cost < b.cost
    }
}

/// Whether `a` is the better candidate.
pub fn is_better(a: Rank, b: Rank) -> (better: bool)
    ensures
        better == outranks(a, b),
{
    if a.spawn || b.spawn {
        !a.spawn && b.spawn
    } else if a.beyond != b.beyond {
        !a.beyond
    } else if a.damage != b.damage {
        a.damage > b.damage
    } else if a.range != b.range {
        a.range > b.range
    } else {
        a.cost < b.cost
    }
}

/// Being the better candidate is transitive, and so is being no worse.
pub proof fn lemma_outranks_transitive(a: Rank, b: Rank, c: Rank)
    ensures
        outranks(a, b) && outranks(b, c) ==> outranks(a, c),
        !outranks(a, b) && !outranks(b, c) ==> !outranks(a, c),
        outranks(a, b) && !outranks(c, b) ==> outranks(a, c),
{
}

/// Whether candidate `i` is the top of the ranking: none is better, and
/// it is better than each one before it.
pub open spec fn is_top(ranks: Seq<Rank>, i: int) -> bool {
    &&& 0 <= i < ranks.len()
    &&& forall|j: int| 0 <= j < ranks.len() ==> !outranks(#[trigger] ranks[j], ranks[i])
    &&& forall|j: int| 0 <= j < i ==> outranks(ranks[i], #[trigger] ranks[j])
}

/// The top of the ranking: the best candidate, the first of several.
pub fn best(ranks: &Vec<Rank>) -> (top: usize)
    requires
        ranks@.len() > 0,
    ensures
        is_top(ranks@, top as int),
{
    let mut top: usize = 0;
    let mut k: usize = 1;
    while k < ranks.len()
        invariant
            top < k <= ranks@.len(),
            forall|j: int| 0 <= j < k ==> !outranks(#[trigger] ranks@[j], ranks@[top as int]),
            forall|j: int| 0 <= j < top ==> outranks(ranks@[top as int], #[trigger] ranks@[j]),
        decreases ranks@.len() - k,
    {
        if is_better(ranks[k], ranks[top]) {
            proof {
                assert forall|j: int| 0 <= j < k + 1 implies !outranks(
                    #[trigger] ranks@[j],
                    ranks@[k as int],
                ) by {
                    lemma_outranks_transitive(ranks@[j], ranks@[k as int], ranks@[top as int]);
                }
                assert forall|j: int| 0 <= j < k implies outranks(
                    ranks@[k as int],
                    #[trigger] ranks@[j],
                ) by {
                    lemma_outranks_transitive(ranks@[k as int], ranks@[top as int], ranks@[j]);
                }
            }
            top = k;
        }
        k += 1;
    }
    top
}

/// The goals of attacking an ally with an ability from each of the cells
/// that the ability reaches the ally from.
pub open spec fn attack_goals(
    rays: Seq<(Position, u16)>,
    ability: Ability,
    action: EnemyAction,
    effective: u32,
) -> Seq<Goal> {
    Seq::new(
        rays.len(),
        |k: int|
            Goal {
                ability: Some(ability),
                action,
                range: rays[k].1,
                destination: rays[k].0,
                effective,
            },
    )
}

/// The damage of an attack with what the traits of the target add, as far
/// as `u32` holds it.
pub open spec fn effective_damage(damage: u16, bonus: int) -> u32 {
    if bonus <= u16::MAX {
        (damage + bonus) as u32
    } else {
        (damage + u16::MAX) as u32
    }
}

impl LevelView {
    /// The goals that the ability of an attack gives against one ally: a
    /// goal for each cell to hit the ally from where the ally is in
    /// sight, else the cell where the ally was seen last, if it was.
    pub open spec fn goals_against(
        self,
        enemy: EnemyView,
        visible: Set<Position>,
        ability: Ability,
        ally_id: AllyId,
    ) -> Seq<Goal> {
        let (damage_kind, damage) = match ability.spec_action() {
            Action::Attack { damage_kind, damage } => (damage_kind, damage),
            Action::Push { damage_kind, damage, .. } => (damage_kind, damage),
            _ => (crate::ability::DamageKind::Normal, 0u16),
        };
        let action = EnemyAction::Attack { ally_id, damage_kind, damage };
        match self.ally(ally_id) {
            Some(ally) => {
                let effective = effective_damage(damage, bonus_sum(damage_kind, ally.traits));
                if visible.contains(ally.position) {
                    attack_goals(
                        footprint_rays(
                            self.tiles,
                            ally.position,
                            ability.spec_range() as int,
                            enemy.height as int,
                            enemy.width as int,
                        ),
                        ability,
                        action,
                        effective,
                    )
                } else {
                    match enemy.last_known_positions.spec_get(ally_id) {
                        Some(seen) => seq![
                            Goal { ability: None, action, range: 1, destination: seen, effective },
                        ],
                        None => Seq::empty(),
                    }
                }
            },
            None => Seq::empty(),
        }
    }

    /// Whether an ally of the level stands on a cell of `visible`.
    pub open spec fn any_ally_in(self, visible: Set<Position>) -> bool {
        ||| self.ash_magnum matches Some(ally) && visible.contains(ally.position)
        ||| self.alukrod matches Some(ally) && visible.contains(ally.position)
    }

    /// The goals of spawning beside the first `j` cells of column `i` of
    /// the footprint of the enemy: for each such cell, each neighbour that
    /// is empty or holds only an item.
    pub open spec fn spawn_goals_column(
        self,
        enemy: EnemyView,
        ability: Ability,
        enemy_kind: EnemyKind,
        i: int,
        j: int,
    ) -> Seq<Goal>
        decreases j,
    {
        if j <= 0 {
            Seq::empty()
        } else {
            self.spawn_goals_column(enemy, ability, enemy_kind, i, j - 1) + self.spawn_goals_beside(
                enemy,
                ability,
                enemy_kind,
                Position { x: (enemy.position.x + i) as usize, y: (enemy.position.y + j - 1) as usize },
                4,
            )
        }
    }

    /// The goals of spawning on the first `n` neighbours of `cell`.
    pub open spec fn spawn_goals_beside(
        self,
        enemy: EnemyView,
        ability: Ability,
        enemy_kind: EnemyKind,
        cell: Position,
        n: int,
    ) -> Seq<Goal>
        decreases n,
    {
        if n <= 0 {
            Seq::empty()
        } else {
            let before = self.spawn_goals_beside(enemy, ability, enemy_kind, cell, n - 1);
            let around = cell.spec_adjacent();
            if n - 1 < around.len() && self.tiles[around[n - 1]].spec_is_free() {
                before.push(
                    Goal {
                        ability: Some(ability),
                        action: EnemyAction::Spawn { enemy_kind, position: around[n - 1] },
                        range: ability.spec_range(),
                        destination: enemy.position,
                        effective: 0,
                    },
                )
            } else {
                before
            }
        }
    }

    /// The goals of spawning beside the first `i` columns of the footprint
    /// of the enemy.
    pub open spec fn spawn_goals_upto(
        self,
        enemy: EnemyView,
        ability: Ability,
        enemy_kind: EnemyKind,
        i: int,
    ) -> Seq<Goal>
        decreases i,
    {
        if i <= 0 {
            Seq::empty()
        } else {
            self.spawn_goals_upto(enemy, ability, enemy_kind, i - 1) + self.spawn_goals_column(
                enemy,
                ability,
                enemy_kind,
                i - 1,
                enemy.height as int,
            )
        }
    }

    /// The goals that one ability of the enemy gives.
    pub open spec fn goals_of_slot(
        self,
        enemy: EnemyView,
        visible: Set<Position>,
        slot: AbilitySlot,
    ) -> Seq<Goal> {
        match slot.ability.spec_action() {
            Action::Attack { .. } | Action::Push { .. } => self.goals_against(
                enemy,
                visible,
                slot.ability,
                AllyId::AshMagnum,
            ) + self.goals_against(enemy, visible, slot.ability, AllyId::Alukrod),
            Action::Spawn { enemy_kind, .. } => if slot.cooldown == 0 && self.any_ally_in(visible) {
                self.spawn_goals_upto(enemy, slot.ability, enemy_kind, enemy.width as int)
            } else {
                Seq::empty()
            },
            _ => Seq::empty(),
        }
    }

    /// The goals that the first `n` abilities of the enemy give, in the
    /// order of its ability list.
    pub open spec fn goals_upto(self, enemy: EnemyView, visible: Set<Position>, n: int) -> Seq<Goal>
        decreases n,
    {
        if n <= 0 {
            Seq::empty()
        } else {
            self.goals_upto(enemy, visible, n - 1) + self.goals_of_slot(
                enemy,
                visible,
                enemy.abilities[n - 1],
            )
        }
    }

    /// What the enemy knows after it has looked around: where it sees an
    /// ally now, and where it saw the others last. An enemy without an
    /// ability that attacks takes no note.
    pub open spec fn known_after(self, enemy: EnemyView, visible: Set<Position>, n: int) -> LastKnown
        decreases n,
    {
        if n <= 0 {
            enemy.last_known_positions
        } else {
            let before = self.known_after(enemy, visible, n - 1);
            match enemy.abilities[n - 1].ability.spec_action() {
                Action::Attack { .. } | Action::Push { .. } => LastKnown {
                    ash_magnum: match self.ash_magnum {
                        Some(ally) => if visible.contains(ally.position) {
                            Some(ally.position)
                        } else {
                            before.ash_magnum
                        },
                        None => before.ash_magnum,
                    },
                    alukrod: match self.alukrod {
                        Some(ally) => if visible.contains(ally.position) {
                            Some(ally.position)
                        } else {
                            before.alukrod
                        },
                        None => before.alukrod,
                    },
                },
                _ => before,
            }
        }
    }
}

/// Adds the goals that the ability of an attack gives against one ally.
fn push_goals_against(
    goals: &mut Vec<Goal>,
    known: &mut LastKnown,
    level: &Level,
    enemy: &Enemy,
    visible: &ShadowMap,
    ability: Ability,
    ally_id: AllyId,
)
    requires
        level.wf(),
    ensures
        final(goals)@ == old(goals)@ + level@.goals_against(enemy@, visible@, ability, ally_id),
        *final(known) == match level@.ally(ally_id) {
            Some(ally) => if visible@.contains(ally.position) {
                old(known).spec_insert(ally_id, ally.position)
            } else {
                *old(known)
            },
            None => *old(known),
        },
{
    let (damage_kind, damage) = match ability.action() {
        Action::Attack { damage_kind, damage } => (damage_kind, damage),
        Action::Push { damage_kind, damage, .. } => (damage_kind, damage),
        _ => (crate::ability::DamageKind::Normal, 0),
    };
    let action = EnemyAction::Attack { ally_id, damage_kind, damage };
    let ally = match level.get_ally(ally_id) {
        Some(ally) => ally,
        None => {
            assert(goals@ =~= old(goals)@ + Seq::<Goal>::empty());
            return ;
        },
    };
    proof {
        crate::unit::lemma_bonus_sum_bounds(damage_kind, ally@.traits);
    }
    let effective: u32 = damage as u32 + damage_bonus(damage_kind, &ally.traits) as u32;
    if visible.contains(&ally.position) {
        known.insert(ally_id, ally.position);
        let rays = attack_positions(
            ally.position,
            ability.range(),
            level.grid(),
            (enemy.width as usize, enemy.height as usize),
        );
        let ghost wanted = attack_goals(rays@, ability, action, effective);
        let mut k: usize = 0;
        while k < rays.len()
            invariant
                k <= rays@.len(),
                wanted == attack_goals(rays@, ability, action, effective),
                goals@ == old(goals)@ + wanted.take(k as int),
            decreases rays@.len() - k,
        {
            let ray = rays[k];
            goals.push(
                Goal {
                    ability: Some(ability),
                    action,
                    range: ray.1,
                    destination: ray.0,
                    effective,
                },
            );
            proof {
                assert(wanted.take(k + 1) =~= wanted.take(k as int).push(wanted[k as int]));
            }
            k += 1;
        }
        proof {
            assert(wanted.take(rays@.len() as int) =~= wanted);
        }
    } else {
        match enemy.last_known_positions.get(ally_id) {
            Some(seen) => {
                goals.push(
                    Goal { ability: None, action, range: 1, destination: seen, effective },
                );
                assert(goals@ =~= old(goals)@ + seq![
                    Goal { ability: None, action, range: 1, destination: seen, effective },
                ]);
            },
            None => {
                assert(goals@ =~= old(goals)@ + Seq::<Goal>::empty());
            },
        }
    }
}

/// Adds the goals of spawning on the neighbours of one cell under the
/// enemy.
fn push_spawn_goals_beside(
    goals: &mut Vec<Goal>,
    level: &Level,
    enemy: &Enemy,
    ability: Ability,
    enemy_kind: EnemyKind,
    cell: Position,
)
    requires
        cell.in_bounds(),
    ensures
        final(goals)@ == old(goals)@ + level@.spawn_goals_beside(
            enemy@,
            ability,
            enemy_kind,
            cell,
            4,
        ),
{
    let around = cell.adjacent();
    let mut n: usize = 0;
    proof {
        assert(goals@ =~= old(goals)@ + level@.spawn_goals_beside(
            enemy@,
            ability,
            enemy_kind,
            cell,
            0,
        ));
    }
    while n < 4
        invariant
            n <= 4,
            cell.in_bounds(),
            around@ == cell.spec_adjacent(),
            goals@ == old(goals)@ + level@.spawn_goals_beside(
                enemy@,
                ability,
                enemy_kind,
                cell,
                n as int,
            ),
        decreases 4 - n,
    {
        if n < around.len() {
            let adjacent = around[n];
            let free = if adjacent.x < crate::position::LEVEL_WIDTH && adjacent.y
                < crate::position::LEVEL_HEIGHT {
                level.at(adjacent).is_free()
            } else {
                false
            };
            proof {
                assert(cell.spec_adjacent().contains(around@[n as int]));
                crate::position::lemma_adjacent_touches(cell, adjacent);
            }
            if free {
                goals.push(
                    Goal {
                        ability: Some(ability),
                        action: EnemyAction::Spawn { enemy_kind, position: adjacent },
                        range: ability.range(),
                        destination: enemy.position,
                        effective: 0,
                    },
                );
            }
        }
        proof {
            assert(goals@ =~= old(goals)@ + level@.spawn_goals_beside(
                enemy@,
                ability,
                enemy_kind,
                cell,
                n + 1,
            ));
        }
        n += 1;
    }
}

/// Adds the goals of spawning beside the enemy.
fn push_spawn_goals(
    goals: &mut Vec<Goal>,
    level: &Level,
    enemy: &Enemy,
    ability: Ability,
    enemy_kind: EnemyKind,
)
    requires
        crate::grid::fits(enemy.position, enemy.width as int, enemy.height as int),
    ensures
        final(goals)@ == old(goals)@ + level@.spawn_goals_upto(
            enemy@,
            ability,
            enemy_kind,
            enemy.width as int,
        ),
{
    let mut i: u16 = 0;
    proof {
        assert(goals@ =~= old(goals)@ + level@.spawn_goals_upto(enemy@, ability, enemy_kind, 0));
    }
    while i < enemy.width
        invariant
            i <= enemy.width,
            crate::grid::fits(enemy.position, enemy.width as int, enemy.height as int),
            goals@ == old(goals)@ + level@.spawn_goals_upto(enemy@, ability, enemy_kind, i as int),
        decreases enemy.width - i,
    {
        let ghost done = goals@;
        let mut j: u16 = 0;
        proof {
            assert(goals@ =~= done + level@.spawn_goals_column(
                enemy@,
                ability,
                enemy_kind,
                i as int,
                0,
            ));
        }
        while j < enemy.height
            invariant
                i < enemy.width,
                j <= enemy.height,
                crate::grid::fits(enemy.position, enemy.width as int, enemy.height as int),
                goals@ == done + level@.spawn_goals_column(
                    enemy@,
                    ability,
                    enemy_kind,
                    i as int,
                    j as int,
                ),
            decreases enemy.height - j,
        {
            let cell = Position {
                x: enemy.position.x + i as usize,
                y: enemy.position.y + j as usize,
            };
            let ghost so_far = goals@;
            push_spawn_goals_beside(goals, level, enemy, ability, enemy_kind, cell);
            proof {
                assert(goals@ =~= done + level@.spawn_goals_column(
                    enemy@,
                    ability,
                    enemy_kind,
                    i as int,
                    j + 1,
                ));
            }
            j += 1;
        }
        proof {
            assert(goals@ =~= old(goals)@ + level@.spawn_goals_upto(
                enemy@,
                ability,
                enemy_kind,
                i + 1,
            ));
        }
        i += 1;
    }
}

/// Whether an ally of the level stands on a cell in sight.
fn any_ally_visible(level: &Level, visible: &ShadowMap) -> (any: bool)
    ensures
        any == level@.any_ally_in(visible@),
{
    let ash = match level.get_ally(AllyId::AshMagnum) {
        Some(ally) => visible.contains(&ally.position),
        None => false,
    };
    let alu = match level.get_ally(AllyId::Alukrod) {
        Some(ally) => visible.contains(&ally.position),
        None => false,
    };
    ash || alu
}

/// Lists what the enemy could aim for, in the order of its abilities, and
/// notes where it sees the allies.
pub fn list_goals(level: &Level, enemy: &Enemy, visible: &ShadowMap) -> (listed: (
    Vec<Goal>,
    LastKnown,
))
    requires
        level.wf(),
        crate::grid::fits(enemy.position, enemy.width as int, enemy.height as int),
    ensures
        listed.0@ == level@.goals_upto(enemy@, visible@, enemy@.abilities.len() as int),
        listed.1 == level@.known_after(enemy@, visible@, enemy@.abilities.len() as int),
{
    let mut goals: Vec<Goal> = Vec::new();
    let mut known = enemy.last_known_positions;
    let mut n: usize = 0;
    proof {
        assert(goals@ =~= level@.goals_upto(enemy@, visible@, 0));
    }
    while n < enemy.abilities.len()
        invariant
            n <= enemy@.abilities.len(),
            level.wf(),
            crate::grid::fits(enemy.position, enemy.width as int, enemy.height as int),
            goals@ == level@.goals_upto(enemy@, visible@, n as int),
            known == level@.known_after(enemy@, visible@, n as int),
        decreases enemy@.abilities.len() - n,
    {
        let slot = enemy.abilities[n];
        let ghost before = goals@;
        match slot.ability.action() {
            Action::Attack { .. } | Action::Push { .. } => {
                push_goals_against(
                    &mut goals,
                    &mut known,
                    level,
                    enemy,
                    visible,
                    slot.ability,
                    AllyId::AshMagnum,
                );
                push_goals_against(
                    &mut goals,
                    &mut known,
                    level,
                    enemy,
                    visible,
                    slot.ability,
                    AllyId::Alukrod,
                );
                proof {
                    assert(goals@ =~= before + level@.goals_of_slot(enemy@, visible@, slot));
                }
            },
            Action::Spawn { enemy_kind, .. } => {
                if slot.cooldown == 0 && any_ally_visible(level, visible) {
                    push_spawn_goals(&mut goals, level, enemy, slot.ability, enemy_kind);
                } else {
                    proof {
                        assert(goals@ =~= before + level@.goals_of_slot(enemy@, visible@, slot));
                    }
                }
            },
            _ => {
                proof {
                    assert(goals@ =~= before + level@.goals_of_slot(enemy@, visible@, slot));
                }
            },
        }
        n += 1;
    }
    (goals, known)
}

/// Whether a way of `n` steps leads from `from` to `to`.
pub open spec fn has_walk_of(
    tiles: Map<Position, Tile>,
    from: Position,
    to: Position,
    mover: Tile,
    width: int,
    height: int,
    n: int,
) -> bool {
    exists|path: Seq<Position>| #[trigger]
        is_walk(tiles, from, to, mover, width, height, path) && path.len() == n
}

/// The number of steps of a shortest way from `from` to `to`, if there is
/// a way.
pub open spec fn walk_length(
    tiles: Map<Position, Tile>,
    from: Position,
    to: Position,
    mover: Tile,
    width: int,
    height: int,
) -> Option<int> {
    if exists|n: int| has_walk_of(tiles, from, to, mover, width, height, n) {
        Some(
            choose|n: int|
                has_walk_of(tiles, from, to, mover, width, height, n) && is_least_length(
                    tiles,
                    from,
                    to,
                    mover,
                    width,
                    height,
                    n,
                ),
        )
    } else {
        None
    }
}

/// A shortest way has the length of the shortest ways.
pub proof fn lemma_walk_length(
    tiles: Map<Position, Tile>,
    from: Position,
    to: Position,
    mover: Tile,
    width: int,
    height: int,
    path: Seq<Position>,
)
    requires
        is_walk(tiles, from, to, mover, width, height, path),
        is_least_length(tiles, from, to, mover, width, height, path.len() as int),
    ensures
        walk_length(tiles, from, to, mover, width, height) == Some(path.len() as int),
{
    assert(has_walk_of(tiles, from, to, mover, width, height, path.len() as int));
    let n = choose|n: int|
        has_walk_of(tiles, from, to, mover, width, height, n) && is_least_length(
            tiles,
            from,
            to,
            mover,
            width,
            height,
            n,
        );
    let other = choose|other: Seq<Position>| #[trigger]
        is_walk(tiles, from, to, mover, width, height, other) && other.len() == n;
    assert(is_walk(tiles, from, to, mover, width, height, other));
}

/// Where no way exists, there is no length of a shortest way.
pub proof fn lemma_no_walk_length(
    tiles: Map<Position, Tile>,
    from: Position,
    to: Position,
    mover: Tile,
    width: int,
    height: int,
)
    requires
        forall|any: Seq<Position>| !#[trigger] is_walk(tiles, from, to, mover, width, height, any),
    ensures
        walk_length(tiles, from, to, mover, width, height) is None,
{
}

/// The steps that a goal costs the enemy: one for a spawn, which needs no
/// way, else the length of a shortest way to the destination; `None` where
/// no way leads there.
pub open spec fn goal_cost(tiles: Map<Position, Tile>, enemy: EnemyView, goal: Goal) -> Option<int> {
    if goal.action is Spawn {
        Some(1)
    } else {
        walk_length(
            tiles,
            enemy.position,
            goal.destination,
            Tile::Enemy(enemy.id),
            enemy.width as int,
            enemy.height as int,
        )
    }
}

/// The way that the enemy takes to a goal: its own cell for a spawn, which
/// needs no way, else the way that the search finds to the destination;
/// `None` where the destination is off the grid or the search finds
/// none.
pub open spec fn goal_way(tiles: Map<Position, Tile>, enemy: EnemyView, goal: Goal) -> Option<
    Seq<Position>,
> {
    if goal.action is Spawn {
        Some(seq![enemy.position])
    } else if !goal.destination.in_bounds() {
        None
    } else {
        way_found(
            tiles,
            enemy.position,
            goal.destination,
            Tile::Enemy(enemy.id),
            enemy.width as int,
            enemy.height as int,
        )
    }
}

/// What decides about a goal that costs `cost` steps.
pub open spec fn goal_rank(goal: Goal, cost: int, speed: u16) -> Rank {
    Rank {
        spawn: goal.action is Spawn,
        beyond: cost > speed,
        damage: goal.effective,
        range: goal.range,
        cost: cost as usize,
    }
}

/// Whether goal `i` is the one to take: it can be reached, no goal that
/// can be reached is better, and it is better than each one before it
/// that can be reached.
pub open spec fn is_chosen(
    tiles: Map<Position, Tile>,
    enemy: EnemyView,
    goals: Seq<Goal>,
    i: int,
) -> bool {
    &&& 0 <= i < goals.len()
    &&& goal_cost(tiles, enemy, goals[i]) is Some
    &&& forall|j: int|
        0 <= j < goals.len() && goal_cost(tiles, enemy, #[trigger] goals[j]) is Some ==> !outranks(
            goal_rank(goals[j], goal_cost(tiles, enemy, goals[j]).unwrap(), enemy.speed),
            goal_rank(goals[i], goal_cost(tiles, enemy, goals[i]).unwrap(), enemy.speed),
        )
    &&& forall|j: int|
        0 <= j < i && goal_cost(tiles, enemy, #[trigger] goals[j]) is Some ==> outranks(
            goal_rank(goals[i], goal_cost(tiles, enemy, goals[i]).unwrap(), enemy.speed),
            goal_rank(goals[j], goal_cost(tiles, enemy, goals[j]).unwrap(), enemy.speed),
        )
}

/// A goal with a way to it.
#[derive(Debug)]
pub struct Candidate {
    /// The place of the goal in the list of goals.
    pub index: usize,
    pub goal: Goal,
    /// The way: the cell of the enemy itself for a spawn, else a shortest
    /// way to the destination.
    pub path: Vec<Position>,
    pub rank: Rank,
}

/// Whether a candidate is goal `goal` with a way as the goal asks for.
pub open spec fn candidate_ok(
    tiles: Map<Position, Tile>,
    enemy: EnemyView,
    goals: Seq<Goal>,
    candidate: Candidate,
) -> bool {
    &&& candidate.index < goals.len()
    &&& candidate.goal == goals[candidate.index as int]
    &&& goal_cost(tiles, enemy, candidate.goal) == Some(candidate.path@.len() as int)
    &&& goal_way(tiles, enemy, candidate.goal) == Some(candidate.path@)
    &&& candidate.rank == goal_rank(candidate.goal, candidate.path@.len() as int, enemy.speed)
    &&& if candidate.goal.action is Spawn {
        candidate.path@ == seq![enemy.position]
    } else {
        is_walk(
            tiles,
            enemy.position,
            candidate.goal.destination,
            Tile::Enemy(enemy.id),
            enemy.width as int,
            enemy.height as int,
            candidate.path@,
        )
    }
}

/// Finds a way for each goal and keeps the goals that have one.
pub fn evaluate(level: &Level, enemy: &Enemy, goals: &Vec<Goal>) -> (candidates: Vec<Candidate>)
    requires
        enemy.position.in_bounds(),
    ensures
        forall|c: int|
            0 <= c < candidates@.len() ==> candidate_ok(
                level@.tiles,
                enemy@,
                goals@,
                #[trigger] candidates@[c],
            ),
        forall|c: int, d: int|
            0 <= c < d < candidates@.len() ==> (#[trigger] candidates@[c]).index < (
            #[trigger] candidates@[d]).index,
        forall|k: int|
            0 <= k < goals@.len() && goal_cost(level@.tiles, enemy@, #[trigger] goals@[k]) is Some
                ==> exists|c: int| 0 <= c < candidates@.len() && (#[trigger] candidates@[c]).index == k,
{
    let mut candidates: Vec<Candidate> = Vec::new();
    let mover = Tile::Enemy(enemy.id);
    let dimensions: (usize, usize) = (enemy.width as usize, enemy.height as usize);
    let ghost tiles = level@.tiles;
    let ghost w = enemy.width as int;
    let ghost h = enemy.height as int;
    assert(dimensions.0 as int == w && dimensions.1 as int == h);
    let mut k: usize = 0;
    while k < goals.len()
        invariant
            k <= goals@.len(),
            enemy.position.in_bounds(),
            mover == Tile::Enemy(enemy.id),
            dimensions.0 as int == w && dimensions.1 as int == h,
            w == enemy.width as int,
            h == enemy.height as int,
            tiles == level@.tiles,
            forall|c: int|
                0 <= c < candidates@.len() ==> candidate_ok(
                    tiles,
                    enemy@,
                    goals@,
                    #[trigger] candidates@[c],
                ) && candidates@[c].index < k,
            forall|c: int, d: int|
                0 <= c < d < candidates@.len() ==> (#[trigger] candidates@[c]).index < (
                #[trigger] candidates@[d]).index,
            forall|j: int|
                0 <= j < k && goal_cost(tiles, enemy@, #[trigger] goals@[j]) is Some ==> exists|
                    c: int,
                | 0 <= c < candidates@.len() && (#[trigger] candidates@[c]).index == j,
        decreases goals@.len() - k,
    {
        let goal = goals[k];
        let ghost kept = candidates@;
        let found: Option<Vec<Position>> = match goal.action {
            EnemyAction::Spawn { .. } => {
                let mut stay: Vec<Position> = Vec::new();
                stay.push(enemy.position);
                assert(stay@ =~= seq![enemy.position]);
                Some(stay)
            },
            EnemyAction::Attack { .. } => {
                let way = if goal.destination.x < crate::position::LEVEL_WIDTH
                    && goal.destination.y < crate::position::LEVEL_HEIGHT {
                    pathfind(enemy.position, goal.destination, level.grid(), mover, dimensions)
                } else {
                    proof {
                        assert forall|any: Seq<Position>|
                            !#[trigger] is_walk(
                                tiles,
                                enemy.position,
                                goal.destination,
                                mover,
                                w,
                                h,
                                any,
                            ) by {
                            if is_walk(tiles, enemy.position, goal.destination, mover, w, h, any) {
                                if any.len() > 0 {
                                    assert(any[any.len() - 1].in_bounds());
                                }
                            }
                        }
                    }
                    None
                };
                proof {
                    if way is Some {
                        lemma_walk_length(
                            tiles,
                            enemy.position,
                            goal.destination,
                            mover,
                            w,
                            h,
                            way->0@,
                        );
                    } else {
                        assert(way is None);
                        lemma_no_walk_length(
                            tiles,
                            enemy.position,
                            goal.destination,
                            mover,
                            w,
                            h,
                        );
                    }
                }
                way
            },
        };
        match found {
            Some(path) => {
                let cost: usize = path.len();
                let rank = Rank {
                    spawn: match goal.action {
                        EnemyAction::Spawn { .. } => true,
                        EnemyAction::Attack { .. } => false,
                    },
                    beyond: cost > enemy.speed as usize,
                    damage: goal.effective,
                    range: goal.range,
                    cost,
                };
                candidates.push(Candidate { index: k, goal, path, rank });
                proof {
                    assert(candidates@[kept.len() as int].index == k);
                    assert forall|c: int| 0 <= c < candidates@.len() implies candidate_ok(
                        tiles,
                        enemy@,
                        goals@,
                        #[trigger] candidates@[c],
                    ) && candidates@[c].index < k + 1 by {
                        if c < kept.len() {
                            assert(candidates@[c] == kept[c]);
                        }
                    }
                    assert forall|j: int|
                        0 <= j < k + 1 && goal_cost(
                            tiles,
                            enemy@,
                            #[trigger] goals@[j],
                        ) is Some implies exists|c: int|
                        0 <= c < candidates@.len() && (#[trigger] candidates@[c]).index == j by {
                        if j < k {
                            let c = choose|c: int|
                                0 <= c < kept.len() && (#[trigger] kept[c]).index == j;
                            assert(candidates@[c] == kept[c]);
                        }
                    }
                }
            },
            None => {
                assert(found is None);
            },
        }
        k += 1;
    }
    candidates
}

/// What an enemy has decided to do on its turn.
#[derive(Debug)]
pub struct Plan {
    /// The cells to walk, the last one where the walk of this turn ends;
    /// `None` where the enemy stays and does nothing.
    pub path: Option<Vec<Position>>,
    /// The ability to use after the walk, with what it does.
    pub action: Option<(Ability, EnemyAction)>,
    /// Where the enemy has seen each ally last, the look of this turn
    /// counted in.
    pub last_known_positions: LastKnown,
}

/// Whether a plan takes the goal `goal` that costs `cost` steps: where
/// the goal is within the speed of the enemy, the whole way to it and its
/// action; else the first steps of the way, as many as the speed allows,
/// and no action.
pub open spec fn plan_takes(
    tiles: Map<Position, Tile>,
    enemy: EnemyView,
    path: Option<Seq<Position>>,
    action: Option<(Ability, EnemyAction)>,
    goal: Goal,
    cost: int,
) -> bool {
    &&& goal_way(tiles, enemy, goal) matches Some(full) && full.len() == cost && path == Some(
        if cost <= enemy.speed {
            full
        } else {
            full.take(enemy.speed as int)
        },
    )
    &&& action == if cost <= enemy.speed {
        match goal.ability {
            Some(ability) => Some((ability, goal.action)),
            None => None,
        }
    } else {
        None
    }
}

/// Whether a path, an action and a note of what was seen are the plan of
/// an enemy: the note is what the look around gives; path and action take
/// the goal to take where a goal can be reached, else there is neither.
pub open spec fn is_plan(
    level: LevelView,
    enemy: EnemyView,
    path: Option<Seq<Position>>,
    action: Option<(Ability, EnemyAction)>,
    known: LastKnown,
) -> bool {
    let visible = fov_spec(level, enemy.position, enemy.view_distance as nat);
    let goals = level.goals_upto(enemy, visible, enemy.abilities.len() as int);
    &&& known == level.known_after(enemy, visible, enemy.abilities.len() as int)
    &&& if exists|j: int|
        0 <= j < goals.len() && goal_cost(level.tiles, enemy, #[trigger] goals[j]) is Some {
        exists|i: int|
            #[trigger] is_chosen(level.tiles, enemy, goals, i) && plan_takes(
                level.tiles,
                enemy,
                path,
                action,
                goals[i],
                goal_cost(level.tiles, enemy, goals[i]).unwrap(),
            )
    } else {
        path is None && action is None
    }
}

/// The path of a plan, as a sequence.
pub open spec fn path_view(path: Option<Vec<Position>>) -> Option<Seq<Position>> {
    match path {
        Some(path) => Some(path@),
        None => None,
    }
}

/// A copy of a path.
pub fn copy_path(path: &Vec<Position>) -> (copy: Vec<Position>)
    ensures
        copy@ == path@,
{
    let copy = first_steps(path, path.len());
    proof {
        assert(path@.take(path@.len() as int) =~= path@);
    }
    copy
}

/// The first `n` cells of a path.
fn first_steps(path: &Vec<Position>, n: usize) -> (steps: Vec<Position>)
    requires
        n <= path@.len(),
    ensures
        steps@ == path@.take(n as int),
{
    let mut steps: Vec<Position> = Vec::new();
    let mut k: usize = 0;
    while k < n
        invariant
            k <= n <= path@.len(),
            steps@ == path@.take(k as int),
        decreases n - k,
    {
        steps.push(path[k]);
        proof {
            assert(steps@ =~= path@.take(k + 1));
        }
        k += 1;
    }
    steps
}

impl Enemy {
    /// Decides what the enemy does on its turn.
    ///
    /// The enemy looks around from where it stands. For each of its
    /// abilities, in their order, it lists its goals; among the goals that
    /// it can walk to it takes the best, the first of several. Where no
    /// goal can be reached it stays and does nothing.
    pub fn plan(&self, level: &Level) -> (plan: Plan)
        requires
            level.wf(),
            level@.enemy(self.id) == Some(self@),
        ensures
            is_plan(
                level@,
                self@,
                path_view(plan.path),
                plan.action,
                plan.last_known_positions,
            ),
    {
        proof {
            assert(crate::level::enemy_places(level@.enemies)[self.id as int]
                == crate::level::enemy_place(Some(self@)));
            assert(crate::layout::placed(
                level@.tiles,
                crate::level::enemy_place(Some(self@)).unwrap(),
                self.id as int,
            ));
        }
        let visible = compute_fov(self.position, self.view_distance, level);
        let (goals, known) = list_goals(level, self, &visible);
        let mut candidates = evaluate(level, self, &goals);
        if candidates.len() == 0 {
            return Plan { path: None, action: None, last_known_positions: known };
        }
        let mut ranks: Vec<Rank> = Vec::new();
        let mut c: usize = 0;
        while c < candidates.len()
            invariant
                c <= candidates@.len(),
                ranks@.len() == c,
                forall|k: int| 0 <= k < c ==> ranks@[k] == (#[trigger] candidates@[k]).rank,
            decreases candidates@.len() - c,
        {
            ranks.push(candidates[c].rank);
            c += 1;
        }
        let top = best(&ranks);
        let ghost all = candidates@;
        let chosen = candidates.swap_remove(top);
        let ghost tiles = level@.tiles;
        proof {
            assert(chosen == all[top as int]);
            assert(candidate_ok(tiles, self@, goals@, chosen));
            let i = chosen.index as int;
            assert forall|j: int|
                0 <= j < goals@.len() && goal_cost(
                    tiles,
                    self@,
                    #[trigger] goals@[j],
                ) is Some implies !outranks(
                goal_rank(goals@[j], goal_cost(tiles, self@, goals@[j]).unwrap(), self.speed),
                goal_rank(goals@[i], goal_cost(tiles, self@, goals@[i]).unwrap(), self.speed),
            ) by {
                let d = choose|d: int| 0 <= d < all.len() && (#[trigger] all[d]).index == j;
                assert(candidate_ok(tiles, self@, goals@, all[d]));
                assert(ranks@[d] == all[d].rank);
            }
            assert forall|j: int|
                0 <= j < i && goal_cost(tiles, self@, #[trigger] goals@[j]) is Some implies outranks(
                goal_rank(goals@[i], goal_cost(tiles, self@, goals@[i]).unwrap(), self.speed),
                goal_rank(goals@[j], goal_cost(tiles, self@, goals@[j]).unwrap(), self.speed),
            ) by {
                let d = choose|d: int| 0 <= d < all.len() && (#[trigger] all[d]).index == j;
                assert(candidate_ok(tiles, self@, goals@, all[d]));
                assert(ranks@[d] == all[d].rank);
                if d >= top {
                    if d > top {
                        assert(all[top as int].index < all[d].index);
                    }
                }
            }
            assert(is_chosen(tiles, self@, goals@, i));
        }
        let goal = chosen.goal;
        let plan = if chosen.path.len() <= self.speed as usize {
            Plan {
                path: Some(chosen.path),
                action: match goal.ability {
                    Some(ability) => Some((ability, goal.action)),
                    None => None,
                },
                last_known_positions: known,
            }
        } else {
            Plan {
                path: Some(first_steps(&chosen.path, self.speed as usize)),
                action: None,
                last_known_positions: known,
            }
        };
        proof {
            assert(plan_takes(
                tiles,
                self@,
                path_view(plan.path),
                plan.action,
                goals@[chosen.index as int],
                goal_cost(tiles, self@, goals@[chosen.index as int]).unwrap(),
            ));
        }
        plan
    }
}

/// At most one goal is the one to take.
pub proof fn lemma_chosen_unique(
    tiles: Map<Position, Tile>,
    enemy: EnemyView,
    goals: Seq<Goal>,
    i: int,
    j: int,
)
    requires
        is_chosen(tiles, enemy, goals, i),
        is_chosen(tiles, enemy, goals, j),
    ensures
        i == j,
{
    if i < j {
        assert(goal_cost(tiles, enemy, goals[i]) is Some);
    } else if j < i {
        assert(goal_cost(tiles, enemy, goals[j]) is Some);
    }
}

/// The plan of an enemy is determined by the state of the level: two
/// plans for one state are the same plan.
pub proof fn lemma_plan_determined(
    level: LevelView,
    enemy: EnemyView,
    path: Option<Seq<Position>>,
    action: Option<(Ability, EnemyAction)>,
    known: LastKnown,
    other_path: Option<Seq<Position>>,
    other_action: Option<(Ability, EnemyAction)>,
    other_known: LastKnown,
)
    requires
        is_plan(level, enemy, path, action, known),
        is_plan(level, enemy, other_path, other_action, other_known),
    ensures
        known == other_known,
        action == other_action,
        path == other_path,
{
    let visible = fov_spec(level, enemy.position, enemy.view_distance as nat);
    let goals = level.goals_upto(enemy, visible, enemy.abilities.len() as int);
    let tiles = level.tiles;
    if exists|j: int| 0 <= j < goals.len() && goal_cost(tiles, enemy, #[trigger] goals[j]) is Some {
        let i = choose|i: int|
            #[trigger] is_chosen(tiles, enemy, goals, i) && plan_takes(
                tiles,
                enemy,
                path,
                action,
                goals[i],
                goal_cost(tiles, enemy, goals[i]).unwrap(),
            );
        let k = choose|k: int|
            #[trigger] is_chosen(tiles, enemy, goals, k) && plan_takes(
                tiles,
                enemy,
                other_path,
                other_action,
                goals[k],
                goal_cost(tiles, enemy, goals[k]).unwrap(),
            );
        lemma_chosen_unique(tiles, enemy, goals, i, k);
    }
}

} // verus!
