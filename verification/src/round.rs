//! The scheduler tick: one step of a round.
//!
//! In the ally phase the player moves the allies. When each ally has acted,
//! or the player skips, the enemies act one by one in the turn order. When
//! the last one has acted the round ends: timed effects tick, spawned
//! enemies join the turn order, and the allies are free to act again.

use crate::ability::{Ability, Action, DamageKind, EnemyKind};
use crate::grid::{free_for, AllyId, EnemyId, Tile};
use crate::layout::placed;
use crate::level::{enemy_place, enemy_places, enemy_views, take_enemy, Level, LevelView};
use crate::planner::{is_plan, path_view, Plan};
use crate::position::Position;
use crate::scheduler::{is_turn_order_of, sort_turn_order, Signal, Turn};
use crate::unit::{
    find_slot, health_after_heal, slot_of, slot_usable, slots_after_move, slots_after_use,
    ticked, AbilitySlot, Ally, AllyView, Effects, Enemy, EnemyAction, EnemyView, LastKnown,
};
use vstd::prelude::*;

verus! {

/// What a step of the scheduler did, for the layer that shows it.
#[derive(Debug)]
pub enum TurnEvent {
    /// It is the turn of the allies, and one of them has yet to act.
    AllyPhaseBegan,
    /// An enemy took its turn.
    EnemyActed { unit_id: EnemyId, path: Option<Vec<Position>>, outcome: Option<(Ability, EnemyAction)> },
    /// The last enemy has acted and the round is over.
    RoundEnded,
}

/// The ability list with the cooldown of slot `i` set.
pub open spec fn slots_with_cooldown(slots: Seq<AbilitySlot>, i: int, cooldown: u16) -> Seq<
    AbilitySlot,
> {
    slots.update(i, AbilitySlot { cooldown, ..slots[i] })
}

/// The cooldown that the use of an ability starts.
pub open spec fn cooldown_of(ability: Ability) -> u16 {
    match ability.spec_action() {
        Action::Spawn { cooldown, .. } => cooldown,
        _ => 0,
    }
}

/// A unit after the effects of a round's end: a burn hits with its
/// magnitude, unless mist keeps the hit off, and each effect lasts one
/// round less.
pub open spec fn ally_after_round(ally: AllyView) -> AllyView {
    let burnt = match ally.effects.burn {
        Some(burn) => ally.after_hit(burn.magnitude, DamageKind::Normal),
        None => ally,
    };
    AllyView {
        has_moved: false,
        has_acted: false,
        effects: Effects { burn: ticked(burnt.effects.burn), mist: ticked(burnt.effects.mist) },
        ..burnt
    }
}

/// An enemy after the effects of a round's end.
pub open spec fn enemy_after_round(enemy: EnemyView) -> EnemyView {
    let burnt = match enemy.effects.burn {
        Some(burn) => enemy.after_hit(burn.magnitude, DamageKind::Normal),
        None => enemy,
    };
    EnemyView {
        effects: Effects { burn: ticked(burnt.effects.burn), mist: ticked(burnt.effects.mist) },
        ..burnt
    }
}

impl LevelView {
    /// Whether each ally of the level has acted this round.
    pub open spec fn all_acted(self) -> bool {
        &&& self.ash_magnum matches Some(ally) ==> ally.has_acted
        &&& self.alukrod matches Some(ally) ==> ally.has_acted
    }

    /// The level after the enemy `id`, standing where it is, used
    /// `ability` to hit an ally: the ally takes the hit and leaves the
    /// level without health; the enemy has the damage back as health
    /// where the damage steals life, and has used the ability once.
    pub open spec fn after_enemy_attack(
        self,
        id: EnemyId,
        slot: int,
        ally_id: AllyId,
        damage_kind: DamageKind,
        damage: u16,
    ) -> LevelView {
        match self.ally(ally_id) {
            Some(ally) => {
                let struck = ally.after_hit(damage, damage_kind);
                let enemy = self.enemy(id).unwrap();
                let used = EnemyView {
                    abilities: slots_after_use(enemy.abilities, slot),
                    health: if damage_kind == DamageKind::LifeSteal {
                        health_after_heal(enemy.health, enemy.max_health, damage)
                    } else {
                        enemy.health
                    },
                    ..enemy
                };
                let hit = LevelView { enemies: self.enemies.update(id as int, Some(used)), ..self };
                if struck.health == 0 {
                    hit.without_ally(ally_id)
                } else {
                    hit.with_ally(ally_id, Some(struck))
                }
            },
            None => self,
        }
    }

    /// The level after the enemy `id` used `ability` to spawn an enemy of
    /// a kind at `position`: the cooldown of the ability starts, the
    /// ability is used once, and the new enemy, where it can be put there,
    /// waits in the spawn queue.
    pub open spec fn after_enemy_spawn(
        self,
        id: EnemyId,
        slot: int,
        enemy_kind: EnemyKind,
        position: Position,
    ) -> LevelView {
        let enemy = self.enemy(id).unwrap();
        let used = EnemyView {
            abilities: slots_after_use(
                slots_with_cooldown(
                    enemy.abilities,
                    slot,
                    cooldown_of(enemy.abilities[slot].ability),
                ),
                slot,
            ),
            ..enemy
        };
        let done = LevelView { enemies: self.enemies.update(id as int, Some(used)), ..self };
        let stats = self.bestiary.spec_stats(enemy_kind);
        if done.can_place(position, stats) {
            done.with_new_enemy(enemy_kind, position, stats, true)
        } else {
            done
        }
    }

    /// Where the enemy `id` stands after it walked `path`: on the last
    /// cell of the path where that is a place free for it, else where it
    /// stood.
    pub open spec fn walked_to(self, id: EnemyId, path: Seq<Position>) -> Position {
        let enemy = self.enemy(id).unwrap();
        if path.len() > 0 && path.last().in_bounds() && free_for(
            self.tiles,
            path.last(),
            Tile::Enemy(id),
            enemy.width as int,
            enemy.height as int,
        ) {
            path.last()
        } else {
            enemy.position
        }
    }

    /// The level after the enemy `id` carried out a plan. Without a path
    /// the enemy only takes note of what it saw. With one it walks to the
    /// end of the path, its cooldowns tick, and it uses the ability of the
    /// plan if it has it and can use it.
    pub open spec fn after_plan(
        self,
        id: EnemyId,
        path: Option<Seq<Position>>,
        action: Option<(Ability, EnemyAction)>,
        known: LastKnown,
    ) -> LevelView {
        let enemy = self.enemy(id).unwrap();
        match path {
            None => LevelView {
                enemies: self.enemies.update(
                    id as int,
                    Some(EnemyView { last_known_positions: known, ..enemy }),
                ),
                ..self
            },
            Some(path) => {
                let moved = EnemyView {
                    position: self.walked_to(id, path),
                    last_known_positions: known,
                    abilities: slots_after_move(enemy.abilities),
                    ..enemy
                };
                let walked = self.with_enemy(id, moved);
                match action {
                    Some((ability, act)) => match slot_of(moved.abilities, ability) {
                        Some(slot) => if slot_usable(moved.abilities, slot) {
                            match act {
                                EnemyAction::Attack {
                                    ally_id,
                                    damage_kind,
                                    damage,
                                } => walked.after_enemy_attack(
                                    id,
                                    slot,
                                    ally_id,
                                    damage_kind,
                                    damage,
                                ),
                                EnemyAction::Spawn {
                                    enemy_kind,
                                    position,
                                } => walked.after_enemy_spawn(id, slot, enemy_kind, position),
                            }
                        } else {
                            walked
                        },
                        None => walked,
                    },
                    None => walked,
                }
            },
        }
    }
}

impl Level {
    /// Whether each ally of the level has acted this round.
    pub fn all_acted(&self) -> (done: bool)
        ensures
            done == self@.all_acted(),
    {
        let ash = match self.get_ally(AllyId::AshMagnum) {
            Some(ally) => ally.has_acted,
            None => true,
        };
        let alu = match self.get_ally(AllyId::Alukrod) {
            Some(ally) => ally.has_acted,
            None => true,
        };
        ash && alu
    }

    /// The enemy `id`, standing where it is, uses the ability in `slot`
    /// to hit an ally.
    fn enemy_attack(
        &mut self,
        id: EnemyId,
        slot: usize,
        ally_id: AllyId,
        damage_kind: DamageKind,
        damage: u16,
    )
        requires
            old(self).wf(),
            old(self)@.enemy(id) matches Some(enemy) && slot_usable(enemy.abilities, slot as int),
        ensures
            final(self).wf(),
            final(self)@ == old(self)@.after_enemy_attack(
                id,
                slot as int,
                ally_id,
                damage_kind,
                damage,
            ),
    {
        proof {
            self.lemma_view();
        }
        let ghost before = self@;
        let mut ally = match self.take_ally(ally_id) {
            Some(ally) => ally,
            None => {
                proof {
                    self.lemma_view();
                    assert(before.with_ally(ally_id, None) =~= before);
                }
                return ;
            },
        };
        let from = ally.position;
        ally.hit(damage, damage_kind);
        let dead = ally.health == 0;
        proof {
            assert(before.tiles[from] == Tile::Ally(ally_id));
        }
        self.put_ally(ally, from, Ghost(before));
        let ghost struck = before.ally(ally_id).unwrap().after_hit(damage, damage_kind);
        proof {
            self.lemma_view();
            assert(before.tiles.insert(from, Tile::Empty).insert(from, Tile::Ally(ally_id))
                =~= before.tiles);
            assert(self@ == before.with_ally(ally_id, Some(struck)));
            assert(self@.enemy(id) == before.enemy(id));
            assert(enemy_views(self.enemies@).len() == self.enemies@.len());
        }
        let ghost hurt = self@;
        let mut enemy = match take_enemy(&mut self.enemies, id as usize) {
            Some(enemy) => enemy,
            None => {
                return ;
            },
        };
        proof {
            self.lemma_view();
            assert(enemy@ == hurt.enemy(id).unwrap());
        }
        let anchor = enemy.position;
        if damage_kind == DamageKind::LifeSteal {
            enemy.heal(damage);
        }
        crate::unit::spend_use(&mut enemy.abilities, slot);
        proof {
            assert(enemy_places(hurt.enemies)[id as int] == enemy_place(hurt.enemy(id)));
        }
        self.put_enemy(enemy, anchor, Ghost(hurt));
        proof {
            let used = EnemyView {
                abilities: slots_after_use(before.enemy(id).unwrap().abilities, slot as int),
                health: if damage_kind == DamageKind::LifeSteal {
                    health_after_heal(
                        before.enemy(id).unwrap().health,
                        before.enemy(id).unwrap().max_health,
                        damage,
                    )
                } else {
                    before.enemy(id).unwrap().health
                },
                ..before.enemy(id).unwrap()
            };
            assert(placed(hurt.tiles, enemy_place(hurt.enemy(id)).unwrap(), id as int));
            assert(hurt.with_enemy(id, used).tiles =~= hurt.tiles);
            assert(self@ == (LevelView {
                enemies: hurt.enemies.update(id as int, Some(used)),
                ..hurt
            }));
        }
        if dead {
            let ghost both = self@;
            self.remove_ally(ally_id);
            proof {
                let hit = LevelView {
                    enemies: before.enemies.update(
                        id as int,
                        Some(both.enemy(id).unwrap()),
                    ),
                    ..before
                };
                assert(both.without_ally(ally_id) =~= hit.without_ally(ally_id));
            }
        }
    }
}

impl LevelView {
    /// The level after the effects of a round's end on one ally: the ally
    /// is free to move and act again; one without health leaves the
    /// level.
    pub open spec fn round_ally(self, id: AllyId) -> LevelView {
        match self.ally(id) {
            Some(ally) => if ally_after_round(ally).health == 0 {
                self.without_ally(id)
            } else {
                self.with_ally(id, Some(ally_after_round(ally)))
            },
            None => self,
        }
    }

    /// The level after the effects of a round's end on one enemy; one
    /// without health leaves the level.
    pub open spec fn round_enemy(self, id: EnemyId) -> LevelView {
        match self.enemy(id) {
            Some(enemy) => if enemy_after_round(enemy).health == 0 {
                self.without_enemy(id)
            } else {
                LevelView {
                    enemies: self.enemies.update(id as int, Some(enemy_after_round(enemy))),
                    ..self
                }
            },
            None => self,
        }
    }

    /// The level after the effects of a round's end on the enemies with
    /// an id below `n`.
    pub open spec fn round_enemies(self, n: int) -> LevelView
        decreases n,
    {
        if n <= 0 {
            self
        } else {
            self.round_enemies(n - 1).round_enemy((n - 1) as EnemyId)
        }
    }

    /// The turn order with the first `n` enemies of the spawn queue that
    /// are alive at its end, each with its speed.
    pub open spec fn order_joined(self, n: int) -> Seq<(EnemyId, u16)>
        decreases n,
    {
        if n <= 0 {
            self.turn_order
        } else {
            let before = self.order_joined(n - 1);
            match self.enemy(self.spawn_queue[n - 1]) {
                Some(enemy) => before.push((self.spawn_queue[n - 1], enemy.speed)),
                None => before,
            }
        }
    }

    /// The level after the effects of a round's end on every unit, the
    /// allies first, the enemies in the order of their ids.
    pub open spec fn round_ticked(self) -> LevelView {
        self.round_ally(AllyId::AshMagnum).round_ally(AllyId::Alukrod).round_enemies(
            self.enemies.len() as int,
        )
    }
}

impl Level {
    /// The enemy `id`, standing where it is, uses the ability in `slot`
    /// to spawn an enemy.
    fn enemy_spawn(&mut self, id: EnemyId, slot: usize, enemy_kind: EnemyKind, position: Position)
        requires
            old(self).wf(),
            old(self)@.enemy(id) matches Some(enemy) && slot_usable(enemy.abilities, slot as int),
        ensures
            final(self).wf(),
            final(self)@ == old(self)@.after_enemy_spawn(id, slot as int, enemy_kind, position),
    {
        proof {
            self.lemma_view();
        }
        let ghost before = self@;
        let mut enemy = match take_enemy(&mut self.enemies, id as usize) {
            Some(enemy) => enemy,
            None => {
                return ;
            },
        };
        proof {
            self.lemma_view();
            assert(enemy@ == before.enemy(id).unwrap());
            assert(enemy_places(before.enemies)[id as int] == enemy_place(before.enemy(id)));
            assert(placed(before.tiles, enemy_place(before.enemy(id)).unwrap(), id as int));
        }
        let anchor = enemy.position;
        let held = enemy.abilities[slot];
        let cooldown: u16 = match held.ability.action() {
            Action::Spawn { cooldown, .. } => cooldown,
            _ => 0,
        };
        enemy.abilities.set(
            slot,
            AbilitySlot { ability: held.ability, uses: held.uses, cooldown },
        );
        crate::unit::spend_use(&mut enemy.abilities, slot);
        let ghost used = enemy@;
        self.put_enemy(enemy, anchor, Ghost(before));
        proof {
            assert(before.with_enemy(id, used).tiles =~= before.tiles);
        }
        let _ = self.spawn_enemy(enemy_kind, position);
    }

    /// Carries out the plan of the enemy `id`.
    pub fn apply_plan(&mut self, id: EnemyId, plan: Plan)
        requires
            old(self).wf(),
            old(self)@.enemy(id) is Some,
        ensures
            final(self).wf(),
            final(self)@ == old(self)@.after_plan(
                id,
                path_view(plan.path),
                plan.action,
                plan.last_known_positions,
            ),
    {
        proof {
            self.lemma_view();
        }
        let ghost before = self@;
        let mut enemy = match take_enemy(&mut self.enemies, id as usize) {
            Some(enemy) => enemy,
            None => {
                return ;
            },
        };
        proof {
            self.lemma_view();
            assert(enemy@ == before.enemy(id).unwrap());
            assert(enemy_places(before.enemies)[id as int] == enemy_place(before.enemy(id)));
            assert(placed(before.tiles, enemy_place(before.enemy(id)).unwrap(), id as int));
        }
        let anchor = enemy.position;
        enemy.last_known_positions = plan.last_known_positions;
        let path = match plan.path {
            Some(path) => path,
            None => {
                let ghost noted = enemy@;
                self.put_enemy(enemy, anchor, Ghost(before));
                proof {
                    assert(before.with_enemy(id, noted).tiles =~= before.tiles);
                }
                return ;
            },
        };
        if path.len() > 0 {
            let last = path[path.len() - 1];
            if last.x < crate::position::LEVEL_WIDTH && last.y < crate::position::LEVEL_HEIGHT {
                if self.grid.is_free_for(
                    last,
                    Tile::Enemy(id),
                    enemy.width as usize,
                    enemy.height as usize,
                ) {
                    enemy.position = last;
                }
            }
        }
        enemy.tick_cooldowns();
        let ghost moved = enemy@;
        self.put_enemy(enemy, anchor, Ghost(before));
        let ghost walked = self@;
        proof {
            assert(moved.position == before.walked_to(id, path@));
            assert(walked == before.with_enemy(id, moved));
        }
        let (ability, act) = match plan.action {
            Some(action) => action,
            None => {
                return ;
            },
        };
        let found = match self.get_enemy(id) {
            Some(enemy) => match find_slot(&enemy.abilities, ability) {
                Some(slot) => {
                    let held = enemy.abilities[slot];
                    if held.ability.consumable() && held.uses == 0 {
                        None
                    } else {
                        Some(slot)
                    }
                },
                None => None,
            },
            None => None,
        };
        match found {
            Some(slot) => {
                match act {
                    EnemyAction::Attack { ally_id, damage_kind, damage } => {
                        self.enemy_attack(id, slot, ally_id, damage_kind, damage);
                    },
                    EnemyAction::Spawn { enemy_kind, position } => {
                        self.enemy_spawn(id, slot, enemy_kind, position);
                    },
                }
            },
            None => {},
        }
    }

    /// Ends the ally phase before each ally has acted.
    pub fn skip(&mut self)
        ensures
            final(self)@ == (LevelView {
                turn: old(self)@.turn.spec_after(Signal::AlliesDone, 0),
                ..old(self)@
            }),
            old(self).wf() ==> final(self).wf(),
    {
        proof {
            self.lemma_view();
        }
        self.turn = self.turn.after(Signal::AlliesDone, 0);
        proof {
            self.lemma_view();
        }
    }
}

impl LevelView {
    /// The place in the turn order of the enemy whose turn it is, or would
    /// be first.
    pub open spec fn acting_index(self) -> int {
        match self.turn {
            Turn::Ally => 0,
            Turn::Enemy(i, _) => i as int,
        }
    }

    /// Whether the enemies are to act: it is their phase, or each ally has
    /// acted.
    pub open spec fn enemies_act(self) -> bool {
        self.turn != Turn::Ally || self.all_acted()
    }

    /// Whether `after` is the level after the end of the round: the
    /// effects have ticked, the spawned enemies that live have joined the
    /// turn order, which is sorted by falling speed, and it is the turn
    /// of the allies.
    pub open spec fn round_ended(self, after: LevelView) -> bool {
        let ticked = self.round_ticked();
        &&& after == (LevelView {
            turn: Turn::Ally,
            spawn_queue: Seq::empty(),
            turn_order: after.turn_order,
            ..ticked
        })
        &&& is_turn_order_of(
            after.turn_order,
            ticked.order_joined(ticked.spawn_queue.len() as int),
        )
    }
}

/// The effects of a round's end on the enemies leave their number as it
/// is.
pub proof fn lemma_round_enemies_len(level: LevelView, n: int)
    ensures
        level.round_enemies(n).enemies.len() == level.enemies.len(),
    decreases n,
{
    if n > 0 {
        lemma_round_enemies_len(level, n - 1);
    }
}

impl Level {
    /// The effects of a round's end on one ally.
    fn tick_ally(&mut self, id: AllyId)
        requires
            old(self).wf(),
        ensures
            final(self).wf(),
            final(self)@ == old(self)@.round_ally(id),
    {
        proof {
            self.lemma_view();
        }
        let ghost before = self@;
        let mut ally = match self.take_ally(id) {
            Some(ally) => ally,
            None => {
                proof {
                    self.lemma_view();
                    assert(before.with_ally(id, None) =~= before);
                }
                return ;
            },
        };
        let from = ally.position;
        match ally.effects.burn {
            Some(burn) => {
                ally.hit(burn.magnitude, DamageKind::Normal);
            },
            None => {},
        }
        ally.effects.tick();
        ally.has_moved = false;
        ally.has_acted = false;
        let dead = ally.health == 0;
        proof {
            assert(ally@ == ally_after_round(before.ally(id).unwrap()));
            assert(before.tiles[from] == Tile::Ally(id));
        }
        self.put_ally(ally, from, Ghost(before));
        proof {
            assert(before.tiles.insert(from, Tile::Empty).insert(from, Tile::Ally(id))
                =~= before.tiles);
        }
        if dead {
            let ghost put = self@;
            self.remove_ally(id);
            proof {
                assert(put.without_ally(id) =~= before.without_ally(id));
            }
        }
    }

    /// The effects of a round's end on one enemy.
    fn tick_enemy(&mut self, id: EnemyId)
        requires
            old(self).wf(),
        ensures
            final(self).wf(),
            final(self)@ == old(self)@.round_enemy(id),
    {
        proof {
            self.lemma_view();
        }
        let ghost before = self@;
        if id as usize >= self.enemies.len() {
            return ;
        }
        let mut enemy = match take_enemy(&mut self.enemies, id as usize) {
            Some(enemy) => enemy,
            None => {
                proof {
                    self.lemma_view();
                    assert(self@.enemies =~= before.enemies);
                }
                return ;
            },
        };
        proof {
            self.lemma_view();
            assert(enemy@ == before.enemy(id).unwrap());
            assert(enemy_places(before.enemies)[id as int] == enemy_place(before.enemy(id)));
            assert(placed(before.tiles, enemy_place(before.enemy(id)).unwrap(), id as int));
        }
        let anchor = enemy.position;
        match enemy.effects.burn {
            Some(burn) => {
                enemy.hit(burn.magnitude, DamageKind::Normal);
            },
            None => {},
        }
        enemy.effects.tick();
        let dead = enemy.health == 0;
        let ghost after = enemy@;
        proof {
            assert(after == enemy_after_round(before.enemy(id).unwrap()));
        }
        self.put_enemy(enemy, anchor, Ghost(before));
        proof {
            assert(before.with_enemy(id, after).tiles =~= before.tiles);
        }
        if dead {
            let ghost put = self@;
            self.remove_enemy(id);
            proof {
                assert(put.without_enemy(id).tiles =~= before.without_enemy(id).tiles);
                assert(put.without_enemy(id).enemies =~= before.without_enemy(id).enemies);
                assert(put.without_enemy(id) =~= before.without_enemy(id));
            }
        }
    }

    /// Ends the round: the effects tick on each unit, the spawned enemies
    /// join the turn order, and the allies are free to act again.
    pub fn end_round(&mut self)
        requires
            old(self).wf(),
        ensures
            final(self).wf(),
            old(self)@.round_ended(final(self)@),
    {
        let ghost before = self@;
        self.tick_ally(AllyId::AshMagnum);
        self.tick_ally(AllyId::Alukrod);
        let ghost allies_done = self@;
        proof {
            self.lemma_view();
            assert(allies_done.enemies.len() == before.enemies.len());
        }
        let count: usize = self.enemies.len();
        let mut n: usize = 0;
        while n < count
            invariant
                n <= count,
                count == before.enemies.len(),
                count <= u16::MAX,
                self.wf(),
                self@ == allies_done.round_enemies(n as int),
                allies_done.enemies.len() == count,
            decreases count - n,
        {
            self.tick_enemy(n as EnemyId);
            n += 1;
        }
        let ghost ticked = self@;
        proof {
            self.lemma_view();
            assert(ticked == before.round_ticked());
        }
        let mut k: usize = 0;
        while k < self.spawn_queue.len()
            invariant
                k <= self.spawn_queue@.len(),
                ticked.wf(),
                self@ == (LevelView { turn_order: ticked.order_joined(k as int), ..ticked }),
                crate::level::alive_all(crate::level::order_ids(self.turn_order@), self@.enemies),
            decreases self.spawn_queue@.len() - k,
        {
            proof {
                self.lemma_view();
            }
            let id = self.spawn_queue[k];
            let speed = match self.get_enemy(id) {
                Some(enemy) => Some(enemy.speed),
                None => None,
            };
            let ghost order = self.turn_order@;
            match speed {
                Some(speed) => {
                    self.turn_order.push((id, speed));
                    proof {
                        self.lemma_view();
                        assert forall|j: int|
                            0 <= j < crate::level::order_ids(
                                self.turn_order@,
                            ).len() implies (#[trigger] crate::level::order_ids(
                            self.turn_order@,
                        )[j]) < self@.enemies.len() && self@.enemies[crate::level::order_ids(
                            self.turn_order@,
                        )[j] as int] is Some by {
                            if j < order.len() {
                                assert(crate::level::order_ids(order)[j]
                                    == crate::level::order_ids(self.turn_order@)[j]);
                            }
                        }
                    }
                },
                None => {},
            }
            proof {
                self.lemma_view();
            }
            k += 1;
        }
        let ghost joined = self.turn_order@;
        let ghost at_exit = self@;
        proof {
            self.lemma_view();
            assert(joined == ticked.order_joined(ticked.spawn_queue.len() as int));
        }
        sort_turn_order(&mut self.turn_order);
        self.spawn_queue.clear();
        self.turn = Turn::Ally;
        proof {
            self.lemma_view();
            assert(self@.enemies == at_exit.enemies);
            assert forall|j: int|
                0 <= j < crate::level::order_ids(self.turn_order@).len() implies (
            #[trigger] crate::level::order_ids(self.turn_order@)[j]) < self@.enemies.len()
                && self@.enemies[crate::level::order_ids(self.turn_order@)[j] as int] is Some by {
                let entry = self.turn_order@[j];
                assert(joined.contains(entry));
                let m = choose|m: int| 0 <= m < joined.len() && joined[m] == entry;
                assert(crate::level::order_ids(joined)[m] == entry.0);
            }
            assert(self@.spawn_queue =~= Seq::empty());
        }
    }

    /// One step of the scheduler.
    ///
    /// In the ally phase, while an ally has yet to act, nothing happens.
    /// Else the enemy whose turn it is plans and acts, and the turn passes
    /// to the next one; after the last one the round ends.
    pub fn advance_turn(&mut self) -> (event: TurnEvent)
        requires
            old(self).wf(),
        ensures
            final(self).wf(),
            match event {
                TurnEvent::AllyPhaseBegan => !old(self)@.enemies_act() && final(self)@ == old(
                    self,
                )@,
                TurnEvent::EnemyActed { unit_id, path, outcome } => {
                    let i = old(self)@.acting_index();
                    &&& old(self)@.enemies_act()
                    &&& i < old(self)@.turn_order.len()
                    &&& unit_id == old(self)@.turn_order[i].0
                    &&& old(self)@.enemy(unit_id) is Some
                    &&& exists|known: LastKnown| #[trigger]
                        is_plan(
                            old(self)@,
                            old(self)@.enemy(unit_id).unwrap(),
                            path_view(path),
                            outcome,
                            known,
                        ) && final(self)@ == (LevelView {
                            turn: Turn::Enemy((i + 1) as usize, false),
                            ..old(self)@.after_plan(unit_id, path_view(path), outcome, known)
                        })
                },
                TurnEvent::RoundEnded => {
                    &&& old(self)@.enemies_act()
                    &&& old(self)@.acting_index() >= old(self)@.turn_order.len()
                    &&& old(self)@.round_ended(final(self)@)
                },
            },
    {
        proof {
            self.lemma_view();
        }
        let ghost before = self@;
        let i: usize = match self.turn {
            Turn::Ally => {
                if !self.all_acted() {
                    return TurnEvent::AllyPhaseBegan;
                }
                0
            },
            Turn::Enemy(i, _) => i,
        };
        if i >= self.turn_order.len() {
            self.end_round();
            return TurnEvent::RoundEnded;
        }
        let unit_id = self.turn_order[i].0;
        proof {
            assert(crate::level::order_ids(before.turn_order)[i as int] == unit_id);
        }
        let plan = match self.get_enemy(unit_id) {
            Some(enemy) => enemy.plan(&*self),
            None => {
                return TurnEvent::RoundEnded;
            },
        };
        let path = match &plan.path {
            Some(path) => Some(crate::planner::copy_path(path)),
            None => None,
        };
        let outcome = plan.action;
        let ghost known = plan.last_known_positions;
        proof {
            assert(path_view(path) == path_view(plan.path));
        }
        self.apply_plan(unit_id, plan);
        let ghost acted = self@;
        proof {
            self.lemma_view();
        }
        self.turn = Turn::Enemy(i + 1, false);
        proof {
            self.lemma_view();
            assert(self@ == (LevelView { turn: Turn::Enemy((i + 1) as usize, false), ..acted }));
            assert(acted == before.after_plan(unit_id, path_view(path), outcome, known));
            assert(is_plan(
                before,
                before.enemy(unit_id).unwrap(),
                path_view(path),
                outcome,
                known,
            ));
        }
        TurnEvent::EnemyActed { unit_id, path, outcome }
    }
}

} // verus!
