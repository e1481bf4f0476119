//! Units and what happens to them: damage, healing, timed effects and the
//! accounting of ability uses.

use crate::ability::{
    ability_lists_spec, init_ability_lists, Ability, DamageKind, Effect, EffectStats, EnemyKind,
    ItemKind,
};
use crate::grid::{AllyId, EnemyId, ItemId, ObstacleId};
use crate::position::Position;
use crate::traits::{init_trait_lists, trait_lists_spec, Trait};
use vstd::prelude::*;

verus! {

/// An ability in a unit's list, with its use counter and its cooldown.
#[derive(Debug, Clone, Copy, PartialEq, Eq, Structural)]
pub struct AbilitySlot {
    pub ability: Ability,
    /// Uses that are left. Only a consumable ability spends them.
    pub uses: u16,
    /// Moves of the unit that have to pass before the ability is ready.
    pub cooldown: u16,
}

/// The timed effects that rest on a unit, one slot for each kind.
#[derive(Debug, Clone, Copy, PartialEq, Eq, Structural)]
pub struct Effects {
    pub burn: Option<EffectStats>,
    pub mist: Option<EffectStats>,
}

/// An effect after one more round: one round shorter, and gone where no
/// round was left.
pub open spec fn ticked(stats: Option<EffectStats>) -> Option<EffectStats> {
    match stats {
        Some(s) => if s.duration <= 1 {
            None
        } else {
            Some(EffectStats { magnitude: s.magnitude, duration: (s.duration - 1) as u16 })
        },
        None => None,
    }
}

fn tick_one(stats: Option<EffectStats>) -> (after: Option<EffectStats>)
    ensures
        after == ticked(stats),
{
    match stats {
        Some(s) => {
            if s.duration <= 1 {
                None
            } else {
                Some(EffectStats { magnitude: s.magnitude, duration: s.duration - 1 })
            }
        },
        None => None,
    }
}

impl Effects {
    pub open spec fn spec_get(self, effect: Effect) -> Option<EffectStats> {
        match effect {
            Effect::Burn => self.burn,
            Effect::Mist => self.mist,
        }
    }

    /// No effect at all.
    pub fn new() -> (effects: Effects)
        ensures
            effects == (Effects { burn: None, mist: None }),
    {
        Effects { burn: None, mist: None }
    }

    pub fn get(&self, effect: Effect) -> (stats: Option<EffectStats>)
        ensures
            stats == self.spec_get(effect),
    {
        match effect {
            Effect::Burn => self.burn,
            Effect::Mist => self.mist,
        }
    }

    pub fn contains_key(&self, effect: Effect) -> (active: bool)
        ensures
            active == self.spec_get(effect).is_some(),
    {
        self.get(effect).is_some()
    }

    /// The effects with `effect` put on; one of the same kind is replaced.
    pub open spec fn spec_insert(self, effect: Effect, stats: EffectStats) -> Effects {
        match effect {
            Effect::Burn => Effects { burn: Some(stats), ..self },
            Effect::Mist => Effects { mist: Some(stats), ..self },
        }
    }

    /// Puts an effect on the unit; one of the same kind is replaced.
    pub fn insert(&mut self, effect: Effect, stats: EffectStats)
        ensures
            *final(self) == old(self).spec_insert(effect, stats),
    {
        match effect {
            Effect::Burn => {
                self.burn = Some(stats);
            },
            Effect::Mist => {
                self.mist = Some(stats);
            },
        }
    }

    /// Takes an effect off the unit.
    pub fn remove(&mut self, effect: Effect)
        ensures
            final(self).spec_get(effect) is None,
            forall|other: Effect|
                other != effect ==> final(self).spec_get(other) == old(self).spec_get(other),
    {
        match effect {
            Effect::Burn => {
                self.burn = None;
            },
            Effect::Mist => {
                self.mist = None;
            },
        }
    }

    /// One round passes: each effect lasts one round less and leaves when
    /// none is left.
    pub fn tick(&mut self)
        ensures
            *final(self) == (Effects { burn: ticked(old(self).burn), mist: ticked(old(self).mist) }),
    {
        self.burn = tick_one(self.burn);
        self.mist = tick_one(self.mist);
    }
}

/// What one trait adds to damage of one kind.
pub open spec fn trait_bonus(damage_kind: DamageKind, t: Trait) -> int {
    match (damage_kind, t) {
        (DamageKind::Silver, Trait::SilverVulnerable) => 1,
        (DamageKind::Holy, Trait::HolyVulnerable) => 2,
        (DamageKind::Stake, Trait::StakeVulnerable) => 1000,
        (DamageKind::Sunlight, Trait::SunlightVulnerable) => 1000,
        (DamageKind::Sunlight, Trait::HolyFromSunlight) => 2,
        _ => 0,
    }
}

/// What a unit's traits add to damage of one kind: the sum over its traits.
pub open spec fn bonus_sum(damage_kind: DamageKind, traits: Seq<Trait>) -> int
    decreases traits.len(),
{
    if traits.len() == 0 {
        0
    } else {
        bonus_sum(damage_kind, traits.drop_last()) + trait_bonus(damage_kind, traits.last())
    }
}

pub proof fn lemma_bonus_sum_bounds(damage_kind: DamageKind, traits: Seq<Trait>)
    ensures
        0 <= bonus_sum(damage_kind, traits) <= 1000 * traits.len(),
    decreases traits.len(),
{
    if traits.len() > 0 {
        lemma_bonus_sum_bounds(damage_kind, traits.drop_last());
    }
}

fn bonus_of(damage_kind: DamageKind, t: Trait) -> (bonus: u16)
    ensures
        bonus == trait_bonus(damage_kind, t),
{
    match (damage_kind, t) {
        (DamageKind::Silver, Trait::SilverVulnerable) => 1,
        (DamageKind::Holy, Trait::HolyVulnerable) => 2,
        (DamageKind::Stake, Trait::StakeVulnerable) => 1000,
        (DamageKind::Sunlight, Trait::SunlightVulnerable) => 1000,
        (DamageKind::Sunlight, Trait::HolyFromSunlight) => 2,
        _ => 0,
    }
}

/// The damage that a target's traits add to a hit of `damage_kind`. A sum
/// past `u16::MAX` is returned as `u16::MAX`.
pub fn damage_bonus(damage_kind: DamageKind, traits: &Vec<Trait>) -> (bonus: u16)
    ensures
        bonus == if bonus_sum(damage_kind, traits@) <= u16::MAX {
            bonus_sum(damage_kind, traits@)
        } else {
            u16::MAX as int
        },
{
    let mut bonus: u16 = 0;
    let mut i: usize = 0;
    proof {
        assert(traits@.take(0) =~= Seq::empty());
    }
    while i < traits.len()
        invariant
            i <= traits@.len(),
            bonus == if bonus_sum(damage_kind, traits@.take(i as int)) <= u16::MAX {
                bonus_sum(damage_kind, traits@.take(i as int))
            } else {
                u16::MAX as int
            },
        decreases traits@.len() - i,
    {
        proof {
            assert(traits@.take(i + 1).drop_last() =~= traits@.take(i as int));
            lemma_bonus_sum_bounds(damage_kind, traits@.take(i as int));
        }
        bonus = bonus.saturating_add(bonus_of(damage_kind, traits[i]));
        i += 1;
    }
    proof {
        assert(traits@.take(traits@.len() as int) =~= traits@);
    }
    bonus
}

/// The health that is left after a hit of `damage` with `bonus` on top:
/// never below 0.
pub open spec fn health_after_hit(health: u16, damage: u16, bonus: int) -> u16 {
    if health - damage - bonus <= 0 {
        0
    } else {
        (health - damage - bonus) as u16
    }
}

/// The effects after a hit: fire adds a burn of magnitude 1 that lasts 3
/// rounds, or makes a burn that is there one stronger.
pub open spec fn effects_after_hit(effects: Effects, damage_kind: DamageKind) -> Effects {
    if damage_kind == DamageKind::Fire {
        Effects {
            burn: Some(
                match effects.burn {
                    Some(s) => EffectStats {
                        magnitude: if s.magnitude < u16::MAX {
                            (s.magnitude + 1) as u16
                        } else {
                            s.magnitude
                        },
                        duration: s.duration,
                    },
                    None => EffectStats { magnitude: 1, duration: 3 },
                },
            ),
            mist: effects.mist,
        }
    } else {
        effects
    }
}

/// The health after healing by `amount`: never above `max_health`.
pub open spec fn health_after_heal(health: u16, max_health: u16, amount: u16) -> u16 {
    if health + amount <= max_health {
        (health + amount) as u16
    } else {
        max_health
    }
}

/// Resolves one hit on a unit that is not in mist.
fn resolve_hit(
    health: u16,
    effects: Effects,
    traits: &Vec<Trait>,
    damage: u16,
    damage_kind: DamageKind,
) -> (after: (u16, Effects))
    ensures
        after.0 == health_after_hit(health, damage, bonus_sum(damage_kind, traits@)),
        after.1 == effects_after_hit(effects, damage_kind),
{
    proof {
        lemma_bonus_sum_bounds(damage_kind, traits@);
    }
    let bonus: u16 = damage_bonus(damage_kind, traits);
    let total: u32 = damage as u32 + bonus as u32;
    let left: u16 = if total >= health as u32 {
        0
    } else {
        health - (total as u16)
    };
    let mut effects = effects;
    if damage_kind == DamageKind::Fire {
        match effects.burn {
            Some(stats) => {
                effects.burn = Some(
                    EffectStats {
                        magnitude: stats.magnitude.saturating_add(1),
                        duration: stats.duration,
                    },
                );
            },
            None => {
                effects.burn = Some(EffectStats { magnitude: 1, duration: 3 });
            },
        }
    }
    (left, effects)
}

fn resolve_heal(health: u16, max_health: u16, amount: u16) -> (after: u16)
    ensures
        after == health_after_heal(health, max_health, amount),
{
    let sum: u32 = health as u32 + amount as u32;
    if sum <= max_health as u32 {
        sum as u16
    } else {
        max_health
    }
}

/// The ability list after the ability in slot `i` was used once: a
/// consumable ability has one use less, and leaves the list when none is
/// left and it was picked up rather than innate.
pub open spec fn slots_after_use(slots: Seq<AbilitySlot>, i: int) -> Seq<AbilitySlot> {
    let slot = slots[i];
    if !slot.ability.spec_consumable() {
        slots
    } else if slot.uses <= 1 && slot.ability.spec_acquirable() {
        slots.remove(i)
    } else {
        slots.update(
            i,
            AbilitySlot {
                ability: slot.ability,
                uses: if slot.uses == 0 {
                    0
                } else {
                    (slot.uses - 1) as u16
                },
                cooldown: slot.cooldown,
            },
        )
    }
}

/// Whether the ability in slot `i` can be used: a consumable one needs a
/// use that is left.
pub open spec fn slot_usable(slots: Seq<AbilitySlot>, i: int) -> bool {
    0 <= i < slots.len() && (slots[i].ability.spec_consumable() ==> slots[i].uses > 0)
}

/// Accounts for one use of the ability in slot `i`.
pub fn spend_use(slots: &mut Vec<AbilitySlot>, i: usize)
    requires
        slot_usable(old(slots)@, i as int),
    ensures
        final(slots)@ == slots_after_use(old(slots)@, i as int),
{
    let slot = slots[i];
    if slot.ability.consumable() {
        let uses: u16 = slot.uses - 1;
        if uses == 0 && slot.ability.acquirable() {
            slots.remove(i);
        } else {
            slots.set(i, AbilitySlot { ability: slot.ability, uses, cooldown: slot.cooldown });
        }
    }
}

/// The first slot that holds `ability`, if any.
pub open spec fn slot_of(slots: Seq<AbilitySlot>, ability: Ability) -> Option<int> {
    if exists|i: int| 0 <= i < slots.len() && (#[trigger] slots[i]).ability == ability {
        Some(first_slot(slots, ability, 0))
    } else {
        None
    }
}

/// The least index from `from` on whose slot holds `ability`, or the length
/// of the list.
pub open spec fn first_slot(slots: Seq<AbilitySlot>, ability: Ability, from: int) -> int
    decreases slots.len() - from,
{
    if from < 0 || from >= slots.len() {
        slots.len() as int
    } else if slots[from].ability == ability {
        from
    } else {
        first_slot(slots, ability, from + 1)
    }
}

proof fn lemma_first_slot(slots: Seq<AbilitySlot>, ability: Ability, from: int)
    requires
        0 <= from <= slots.len(),
    ensures
        from <= first_slot(slots, ability, from) <= slots.len(),
        first_slot(slots, ability, from) < slots.len() ==> slots[first_slot(
            slots,
            ability,
            from,
        )].ability == ability,
        forall|k: int|
            from <= k < first_slot(slots, ability, from) ==> (#[trigger] slots[k]).ability
                != ability,
    decreases slots.len() - from,
{
    if from < slots.len() && slots[from].ability != ability {
        lemma_first_slot(slots, ability, from + 1);
    }
}

/// Finds the first slot that holds `ability`.
pub fn find_slot(slots: &Vec<AbilitySlot>, ability: Ability) -> (found: Option<usize>)
    ensures
        match found {
            Some(i) => slot_of(slots@, ability) == Some(i as int) && i < slots@.len() && slots@[i as int].ability
                == ability,
            None => slot_of(slots@, ability) is None,
        },
{
    let mut i: usize = 0;
    proof {
        lemma_first_slot(slots@, ability, 0);
    }
    while i < slots.len()
        invariant
            i <= slots@.len(),
            first_slot(slots@, ability, 0) == first_slot(slots@, ability, i as int),
            forall|k: int| 0 <= k < i ==> (#[trigger] slots@[k]).ability != ability,
        decreases slots@.len() - i,
    {
        if slots[i].ability == ability {
            return Some(i);
        }
        i += 1;
    }
    None
}

/// The slots of an ability list: each ability with its initial uses and no
/// cooldown.
pub open spec fn slots_of_list(list: Seq<(Ability, u16)>) -> Seq<AbilitySlot> {
    Seq::new(
        list.len(),
        |i: int| AbilitySlot { ability: list[i].0, uses: list[i].1, cooldown: 0 },
    )
}

fn slots_from_list(list: &Vec<(Ability, u16)>) -> (slots: Vec<AbilitySlot>)
    ensures
        slots@ == slots_of_list(list@),
{
    let mut slots: Vec<AbilitySlot> = Vec::new();
    let mut i: usize = 0;
    while i < list.len()
        invariant
            i <= list@.len(),
            slots@.len() == i,
            forall|k: int|
                0 <= k < i ==> slots@[k] == (AbilitySlot {
                    ability: list@[k].0,
                    uses: list@[k].1,
                    cooldown: 0,
                }),
        decreases list@.len() - i,
    {
        let entry = list[i];
        slots.push(AbilitySlot { ability: entry.0, uses: entry.1, cooldown: 0 });
        i += 1;
    }
    assert(slots@ =~= slots_of_list(list@));
    slots
}

fn copy_traits(list: &Vec<Trait>) -> (traits: Vec<Trait>)
    ensures
        traits@ == list@,
{
    let mut traits: Vec<Trait> = Vec::new();
    let mut i: usize = 0;
    while i < list.len()
        invariant
            i <= list@.len(),
            traits@ == list@.take(i as int),
        decreases list@.len() - i,
    {
        traits.push(list[i]);
        proof {
            assert(traits@ =~= list@.take(i + 1));
        }
        i += 1;
    }
    assert(list@.take(list@.len() as int) =~= list@);
    traits
}

/// What flies from the user of a ranged ability to its target.
#[derive(Debug, Clone, Copy, PartialEq, Eq, Structural)]
pub enum ProjectileKind {
    IronBolt,
    SilverBolt,
    Fireball,
}

/// A projectile to be shown, from `start` to `end`.
#[derive(Debug, Clone, Copy, PartialEq, Eq, Structural)]
pub struct Projectile {
    pub kind: ProjectileKind,
    pub start: Position,
    pub end: Position,
}

impl Projectile {
    pub fn new(kind: ProjectileKind, start: Position, end: Position) -> (projectile: Projectile)
        ensures
            projectile == (Projectile { kind, start, end }),
    {
        Projectile { kind, start, end }
    }
}

/// The projectile that an ability sends, if it sends one.
pub open spec fn projectile_of(ability: Ability) -> Option<ProjectileKind> {
    match ability {
        Ability::CrossbowIronBolt => Some(ProjectileKind::IronBolt),
        Ability::CrossbowSilverBolt => Some(ProjectileKind::SilverBolt),
        Ability::Hellfire => Some(ProjectileKind::Fireball),
        _ => None,
    }
}

/// A unit of the player.
#[derive(Debug)]
pub struct Ally {
    pub id: AllyId,
    pub position: Position,
    pub max_health: u16,
    pub health: u16,
    /// Tiles per turn.
    pub speed: u16,
    pub view_distance: u16,
    pub abilities: Vec<AbilitySlot>,
    pub traits: Vec<Trait>,
    /// The slot of the ability that the next use takes.
    pub selected_ability: usize,
    pub has_moved: bool,
    pub has_acted: bool,
    pub effects: Effects,
}

/// What an ally record holds.
pub struct AllyView {
    pub id: AllyId,
    pub position: Position,
    pub max_health: u16,
    pub health: u16,
    pub speed: u16,
    pub view_distance: u16,
    pub abilities: Seq<AbilitySlot>,
    pub traits: Seq<Trait>,
    pub selected_ability: usize,
    pub has_moved: bool,
    pub has_acted: bool,
    pub effects: Effects,
}

impl View for Ally {
    type V = AllyView;

    open spec fn view(&self) -> AllyView {
        AllyView {
            id: self.id,
            position: self.position,
            max_health: self.max_health,
            health: self.health,
            speed: self.speed,
            view_distance: self.view_distance,
            abilities: self.abilities@,
            traits: self.traits@,
            selected_ability: self.selected_ability,
            has_moved: self.has_moved,
            has_acted: self.has_acted,
            effects: self.effects,
        }
    }
}

/// The slot that is selected after the selected ability was used: the
/// same, or the last one where the list has become shorter.
pub open spec fn selected_after_use(selected: usize, slots: Seq<AbilitySlot>) -> usize {
    if selected < slots.len() {
        selected
    } else if slots.len() == 0 {
        0
    } else {
        (slots.len() - 1) as usize
    }
}

/// The ability list after an item that gives `ability` was picked up:
/// one use more where the unit has the ability, else the ability as a new
/// last entry with one use.
pub open spec fn slots_after_pickup(slots: Seq<AbilitySlot>, ability: Ability) -> Seq<AbilitySlot> {
    match slot_of(slots, ability) {
        Some(i) => slots.update(
            i,
            AbilitySlot {
                ability,
                uses: if slots[i].uses < u16::MAX {
                    (slots[i].uses + 1) as u16
                } else {
                    u16::MAX
                },
                cooldown: slots[i].cooldown,
            },
        ),
        None => slots.push(AbilitySlot { ability, uses: 1, cooldown: 0 }),
    }
}

/// What an ally takes along to the next level: each ability with the uses
/// that are left.
pub open spec fn inventory_of(slots: Seq<AbilitySlot>) -> Seq<(Ability, u16)> {
    Seq::new(slots.len(), |i: int| (slots[i].ability, slots[i].uses))
}

/// The ability list after one entry of an inventory was taken over: an
/// ability that persists has the uses of the entry, as a new last ability
/// where the list did not hold it; any other entry is dropped.
pub open spec fn slots_with_entry(slots: Seq<AbilitySlot>, entry: (Ability, u16)) -> Seq<
    AbilitySlot,
> {
    if !entry.0.spec_persistent() {
        slots
    } else {
        match slot_of(slots, entry.0) {
            Some(i) => slots.update(i, AbilitySlot { uses: entry.1, ..slots[i] }),
            None => slots.push(AbilitySlot { ability: entry.0, uses: entry.1, cooldown: 0 }),
        }
    }
}

/// The ability list after the first `n` entries of an inventory were
/// taken over.
pub open spec fn slots_restored(
    slots: Seq<AbilitySlot>,
    inventory: Seq<(Ability, u16)>,
    n: int,
) -> Seq<AbilitySlot>
    decreases n,
{
    if n <= 0 {
        slots
    } else {
        slots_with_entry(slots_restored(slots, inventory, n - 1), inventory[n - 1])
    }
}

impl Ally {
    /// What the ally takes along to the next level.
    pub fn inventory(&self) -> (inventory: Vec<(Ability, u16)>)
        ensures
            inventory@ == inventory_of(self@.abilities),
    {
        let mut inventory: Vec<(Ability, u16)> = Vec::new();
        let mut i: usize = 0;
        while i < self.abilities.len()
            invariant
                i <= self.abilities@.len(),
                inventory@.len() == i,
                forall|k: int|
                    0 <= k < i ==> inventory@[k] == (
                        self.abilities@[k].ability,
                        self.abilities@[k].uses,
                    ),
            decreases self.abilities@.len() - i,
        {
            let slot = self.abilities[i];
            inventory.push((slot.ability, slot.uses));
            i += 1;
        }
        assert(inventory@ =~= inventory_of(self@.abilities));
        inventory
    }

    /// Takes over what the ally brought along from the level before: the
    /// abilities that persist, with the uses that were left.
    pub fn restore(&mut self, inventory: &Vec<(Ability, u16)>)
        ensures
            final(self)@ == (AllyView {
                abilities: slots_restored(
                    old(self)@.abilities,
                    inventory@,
                    inventory@.len() as int,
                ),
                ..old(self)@
            }),
    {
        let mut n: usize = 0;
        while n < inventory.len()
            invariant
                n <= inventory@.len(),
                self@ == (AllyView {
                    abilities: slots_restored(old(self)@.abilities, inventory@, n as int),
                    ..old(self)@
                }),
            decreases inventory@.len() - n,
        {
            let entry = inventory[n];
            if entry.0.persistent() {
                match find_slot(&self.abilities, entry.0) {
                    Some(i) => {
                        let slot = self.abilities[i];
                        self.abilities.set(
                            i,
                            AbilitySlot {
                                ability: slot.ability,
                                uses: entry.1,
                                cooldown: slot.cooldown,
                            },
                        );
                    },
                    None => {
                        self.abilities.push(
                            AbilitySlot { ability: entry.0, uses: entry.1, cooldown: 0 },
                        );
                    },
                }
            }
            n += 1;
        }
    }

    /// An ally at full health with the abilities and traits of the lists
    /// with the given numbers.
    pub fn new(
        id: AllyId,
        position: Position,
        max_health: u16,
        speed: u16,
        view_distance: u16,
        ability_list: u8,
        trait_list: u8,
    ) -> (ally: Ally)
        requires
            ability_list < ability_lists_spec().len(),
            trait_list < trait_lists_spec().len(),
        ensures
            ally@ == (AllyView {
                id,
                position,
                max_health,
                health: max_health,
                speed,
                view_distance,
                abilities: slots_of_list(ability_lists_spec()[ability_list as int]),
                traits: trait_lists_spec()[trait_list as int],
                selected_ability: 0,
                has_moved: false,
                has_acted: false,
                effects: Effects { burn: None, mist: None },
            }),
    {
        let ability_lists = init_ability_lists();
        let trait_lists = init_trait_lists();
        Ally {
            id,
            position,
            max_health,
            health: max_health,
            speed,
            view_distance,
            abilities: slots_from_list(&ability_lists[ability_list as usize]),
            traits: copy_traits(&trait_lists[trait_list as usize]),
            selected_ability: 0,
            has_moved: false,
            has_acted: false,
            effects: Effects::new(),
        }
    }

    pub fn name(&self) -> (name: String)
        ensures
            name@ == self.id.spec_name(),
    {
        self.id.name()
    }

    /// The ability that the next use takes.
    pub fn current_ability(&self) -> (ability: &Ability)
        requires
            self.selected_ability < self.abilities@.len(),
        ensures
            *ability == self.abilities@[self.selected_ability as int].ability,
    {
        &self.abilities[self.selected_ability].ability
    }

    /// Accounts for one use of the selected ability on `position` and says
    /// which projectile, if any, flies there.
    pub fn use_ability(&mut self, position: Position) -> (projectile: Option<Projectile>)
        requires
            slot_usable(old(self).abilities@, old(self).selected_ability as int),
        ensures
            final(self)@ == (AllyView {
                abilities: slots_after_use(old(self)@.abilities, old(self).selected_ability as int),
                selected_ability: selected_after_use(
                    old(self).selected_ability,
                    slots_after_use(old(self)@.abilities, old(self).selected_ability as int),
                ),
                ..old(self)@
            }),
            projectile == match projectile_of(
                old(self).abilities@[old(self).selected_ability as int].ability,
            ) {
                Some(kind) => Some(Projectile { kind, start: old(self).position, end: position }),
                None => None,
            },
    {
        let ability = self.abilities[self.selected_ability].ability;
        spend_use(&mut self.abilities, self.selected_ability);
        if self.selected_ability >= self.abilities.len() {
            self.selected_ability = if self.abilities.len() == 0 {
                0
            } else {
                self.abilities.len() - 1
            };
        }
        match ability {
            Ability::CrossbowIronBolt => Some(
                Projectile::new(ProjectileKind::IronBolt, self.position, position),
            ),
            Ability::CrossbowSilverBolt => Some(
                Projectile::new(ProjectileKind::SilverBolt, self.position, position),
            ),
            Ability::Hellfire => Some(
                Projectile::new(ProjectileKind::Fireball, self.position, position),
            ),
            _ => None,
        }
    }

    /// Gives back health, up to the maximum.
    pub fn heal(&mut self, amount: u16)
        ensures
            final(self)@ == (AllyView {
                health: health_after_heal(old(self).health, old(self).max_health, amount),
                ..old(self)@
            }),
    {
        self.health = resolve_heal(self.health, self.max_health, amount);
    }

    /// Takes a hit. A unit in mist takes none.
    pub fn hit(&mut self, damage: u16, damage_kind: DamageKind)
        ensures
            final(self)@ == old(self)@.after_hit(damage, damage_kind),
    {
        if !self.effects.contains_key(Effect::Mist) {
            let (health, effects) = resolve_hit(
                self.health,
                self.effects,
                &self.traits,
                damage,
                damage_kind,
            );
            self.health = health;
            self.effects = effects;
        }
    }

    /// Picks up the ability that an item gives: an ability that can be
    /// acquired, or one that the ally has, gains one use. Returns whether
    /// the item was taken.
    pub fn acquire(&mut self, ability: Ability) -> (taken: bool)
        ensures
            taken == (ability.spec_acquirable() || slot_of(old(self).abilities@, ability) is Some),
            final(self)@ == if taken {
                AllyView {
                    abilities: slots_after_pickup(old(self)@.abilities, ability),
                    ..old(self)@
                }
            } else {
                old(self)@
            },
    {
        match find_slot(&self.abilities, ability) {
            Some(i) => {
                let slot = self.abilities[i];
                self.abilities.set(
                    i,
                    AbilitySlot {
                        ability: slot.ability,
                        uses: slot.uses.saturating_add(1),
                        cooldown: slot.cooldown,
                    },
                );
                true
            },
            None => {
                if ability.acquirable() {
                    self.abilities.push(AbilitySlot { ability, uses: 1, cooldown: 0 });
                    true
                } else {
                    false
                }
            },
        }
    }
}

/// What an enemy has decided to do once it has moved.
#[derive(Debug, Clone, Copy, PartialEq, Eq, Structural)]
pub enum EnemyAction {
    Attack { ally_id: AllyId, damage_kind: DamageKind, damage: u16 },
    Spawn { enemy_kind: EnemyKind, position: Position },
}

impl EnemyKind {
    pub open spec fn spec_name(self) -> Seq<char> {
        match self {
            EnemyKind::Bat => "Bat"@,
            EnemyKind::Vampire => "Vampire"@,
            EnemyKind::BigBatty => "BigBatty"@,
        }
    }

    pub fn name(&self) -> (name: String)
        ensures
            name@ == self.spec_name(),
    {
        match self {
            EnemyKind::Bat => "Bat".to_owned(),
            EnemyKind::Vampire => "Vampire".to_owned(),
            EnemyKind::BigBatty => "BigBatty".to_owned(),
        }
    }
}

/// Where an enemy last saw each ally.
#[derive(Debug, Clone, Copy, PartialEq, Eq, Structural)]
pub struct LastKnown {
    pub ash_magnum: Option<Position>,
    pub alukrod: Option<Position>,
}

impl LastKnown {
    pub open spec fn spec_get(self, id: AllyId) -> Option<Position> {
        match id {
            AllyId::AshMagnum => self.ash_magnum,
            AllyId::Alukrod => self.alukrod,
        }
    }

    pub fn new() -> (known: LastKnown)
        ensures
            known == (LastKnown { ash_magnum: None, alukrod: None }),
    {
        LastKnown { ash_magnum: None, alukrod: None }
    }

    pub fn get(&self, id: AllyId) -> (position: Option<Position>)
        ensures
            position == self.spec_get(id),
    {
        match id {
            AllyId::AshMagnum => self.ash_magnum,
            AllyId::Alukrod => self.alukrod,
        }
    }

    /// What is known after `id` was seen at `position`.
    pub open spec fn spec_insert(self, id: AllyId, position: Position) -> LastKnown {
        match id {
            AllyId::AshMagnum => LastKnown { ash_magnum: Some(position), ..self },
            AllyId::Alukrod => LastKnown { alukrod: Some(position), ..self },
        }
    }

    pub fn insert(&mut self, id: AllyId, position: Position)
        ensures
            *final(self) == old(self).spec_insert(id, position),
    {
        match id {
            AllyId::AshMagnum => {
                self.ash_magnum = Some(position);
            },
            AllyId::Alukrod => {
                self.alukrod = Some(position);
            },
        }
    }
}

/// A unit that the planner moves.
#[derive(Debug)]
pub struct Enemy {
    pub id: EnemyId,
    /// The top-left cell of the footprint.
    pub position: Position,
    pub kind: EnemyKind,
    pub max_health: u16,
    pub health: u16,
    /// Tiles per turn.
    pub speed: u16,
    pub view_distance: u16,
    pub width: u16,
    pub height: u16,
    pub abilities: Vec<AbilitySlot>,
    pub traits: Vec<Trait>,
    pub effects: Effects,
    pub last_known_positions: LastKnown,
}

/// What an enemy record holds.
pub struct EnemyView {
    pub id: EnemyId,
    pub position: Position,
    pub kind: EnemyKind,
    pub max_health: u16,
    pub health: u16,
    pub speed: u16,
    pub view_distance: u16,
    pub width: u16,
    pub height: u16,
    pub abilities: Seq<AbilitySlot>,
    pub traits: Seq<Trait>,
    pub effects: Effects,
    pub last_known_positions: LastKnown,
}

impl View for Enemy {
    type V = EnemyView;

    open spec fn view(&self) -> EnemyView {
        EnemyView {
            id: self.id,
            position: self.position,
            kind: self.kind,
            max_health: self.max_health,
            health: self.health,
            speed: self.speed,
            view_distance: self.view_distance,
            width: self.width,
            height: self.height,
            abilities: self.abilities@,
            traits: self.traits@,
            effects: self.effects,
            last_known_positions: self.last_known_positions,
        }
    }
}

impl AllyView {
    /// The ally after a hit. An ally in mist takes none.
    pub open spec fn after_hit(self, damage: u16, damage_kind: DamageKind) -> AllyView {
        if self.effects.mist is Some {
            self
        } else {
            AllyView {
                health: health_after_hit(self.health, damage, bonus_sum(damage_kind, self.traits)),
                effects: effects_after_hit(self.effects, damage_kind),
                ..self
            }
        }
    }
}

impl EnemyView {
    /// The enemy after a hit. An enemy in mist takes none.
    pub open spec fn after_hit(self, damage: u16, damage_kind: DamageKind) -> EnemyView {
        if self.effects.mist is Some {
            self
        } else {
            EnemyView {
                health: health_after_hit(self.health, damage, bonus_sum(damage_kind, self.traits)),
                effects: effects_after_hit(self.effects, damage_kind),
                ..self
            }
        }
    }
}

/// The cooldowns after one more move of the unit: each one less, none
/// below 0.
pub open spec fn slots_after_move(slots: Seq<AbilitySlot>) -> Seq<AbilitySlot> {
    Seq::new(
        slots.len(),
        |i: int|
            AbilitySlot {
                ability: slots[i].ability,
                uses: slots[i].uses,
                cooldown: if slots[i].cooldown > 0 {
                    (slots[i].cooldown - 1) as u16
                } else {
                    0
                },
            },
    )
}

impl Enemy {
    /// An enemy at full health with the abilities and traits of the lists
    /// with the given numbers.
    pub fn new(
        id: EnemyId,
        position: Position,
        kind: EnemyKind,
        max_health: u16,
        speed: u16,
        view_distance: u16,
        dimensions: (u16, u16),
        ability_list: u8,
        trait_list: u8,
    ) -> (enemy: Enemy)
        requires
            ability_list < ability_lists_spec().len(),
            trait_list < trait_lists_spec().len(),
        ensures
            enemy@ == (EnemyView {
                id,
                position,
                kind,
                max_health,
                health: max_health,
                speed,
                view_distance,
                width: dimensions.0,
                height: dimensions.1,
                abilities: slots_of_list(ability_lists_spec()[ability_list as int]),
                traits: trait_lists_spec()[trait_list as int],
                effects: Effects { burn: None, mist: None },
                last_known_positions: LastKnown { ash_magnum: None, alukrod: None },
            }),
    {
        let ability_lists = init_ability_lists();
        let trait_lists = init_trait_lists();
        Enemy {
            id,
            position,
            kind,
            max_health,
            health: max_health,
            speed,
            view_distance,
            width: dimensions.0,
            height: dimensions.1,
            abilities: slots_from_list(&ability_lists[ability_list as usize]),
            traits: copy_traits(&trait_lists[trait_list as usize]),
            effects: Effects::new(),
            last_known_positions: LastKnown::new(),
        }
    }

    pub fn name(&self) -> (name: String)
        ensures
            name@ == self.kind.spec_name(),
    {
        self.kind.name()
    }

    /// Accounts for one use of `ability`.
    pub fn use_ability(&mut self, ability: Ability, position: Position)
        requires
            slot_of(old(self).abilities@, ability) matches Some(i) && slot_usable(
                old(self).abilities@,
                i,
            ),
        ensures
            final(self)@ == (EnemyView {
                abilities: slots_after_use(
                    old(self)@.abilities,
                    slot_of(old(self)@.abilities, ability).unwrap(),
                ),
                ..old(self)@
            }),
    {
        match find_slot(&self.abilities, ability) {
            Some(i) => {
                spend_use(&mut self.abilities, i);
            },
            None => {},
        }
    }

    /// Gives back health, up to the maximum.
    pub fn heal(&mut self, amount: u16)
        ensures
            final(self)@ == (EnemyView {
                health: health_after_heal(old(self).health, old(self).max_health, amount),
                ..old(self)@
            }),
    {
        self.health = resolve_heal(self.health, self.max_health, amount);
    }

    /// Takes a hit. A unit in mist takes none.
    pub fn hit(&mut self, damage: u16, damage_kind: DamageKind)
        ensures
            final(self)@ == old(self)@.after_hit(damage, damage_kind),
    {
        if !self.effects.contains_key(Effect::Mist) {
            let (health, effects) = resolve_hit(
                self.health,
                self.effects,
                &self.traits,
                damage,
                damage_kind,
            );
            self.health = health;
            self.effects = effects;
        }
    }

    /// The unit has completed a move: each cooldown is one less.
    pub fn tick_cooldowns(&mut self)
        ensures
            final(self)@ == (EnemyView {
                abilities: slots_after_move(old(self)@.abilities),
                ..old(self)@
            }),
    {
        let mut i: usize = 0;
        while i < self.abilities.len()
            invariant
                i <= self.abilities@.len(),
                self.abilities@.len() == old(self).abilities@.len(),
                forall|k: int|
                    0 <= k < i ==> self.abilities@[k] == slots_after_move(old(self).abilities@)[k],
                forall|k: int|
                    i <= k < self.abilities@.len() ==> self.abilities@[k] == old(self).abilities@[k],
                self.id == old(self).id,
                self.position == old(self).position,
                self.kind == old(self).kind,
                self.max_health == old(self).max_health,
                self.health == old(self).health,
                self.speed == old(self).speed,
                self.view_distance == old(self).view_distance,
                self.width == old(self).width,
                self.height == old(self).height,
                self.traits == old(self).traits,
                self.effects == old(self).effects,
                self.last_known_positions == old(self).last_known_positions,
            decreases self.abilities@.len() - i,
        {
            let slot = self.abilities[i];
            if slot.cooldown > 0 {
                self.abilities.set(
                    i,
                    AbilitySlot {
                        ability: slot.ability,
                        uses: slot.uses,
                        cooldown: slot.cooldown - 1,
                    },
                );
            }
            i += 1;
        }
        assert(self.abilities@ =~= slots_after_move(old(self).abilities@));
    }
}

/// How an obstacle blocks.
#[derive(Debug, Clone, Copy, PartialEq, Eq, Hash, Structural)]
pub enum ObstacleKind {
    /// Blocks movement and sight.
    Wall,
    /// Blocks movement, lets sight pass.
    LowWall,
    /// Blocks movement and sight.
    Barrel,
}

impl ObstacleKind {
    /// Whether sight stops at an obstacle of this kind.
    pub open spec fn spec_is_opaque(self) -> bool {
        self != ObstacleKind::LowWall
    }

    pub fn is_opaque(&self) -> (opaque: bool)
        ensures
            opaque == self.spec_is_opaque(),
    {
        match self {
            ObstacleKind::Wall | ObstacleKind::Barrel => true,
            ObstacleKind::LowWall => false,
        }
    }
}

/// Something that stands in the way.
#[derive(Debug, Clone, Copy, PartialEq, Eq, Structural)]
pub struct Obstacle {
    pub id: ObstacleId,
    pub position: Position,
    pub kind: ObstacleKind,
    pub width: u16,
    pub height: u16,
}

/// Something to pick up.
#[derive(Debug, Clone, Copy, PartialEq, Eq, Structural)]
pub struct Item {
    pub id: ItemId,
    pub position: Position,
    pub kind: ItemKind,
}

impl ItemKind {
    /// The ability that picking up an item of this kind gives a use of.
    pub open spec fn spec_ability(self) -> Option<Ability> {
        match self {
            ItemKind::IronBolt => Some(Ability::CrossbowIronBolt),
            ItemKind::SilverBolt => Some(Ability::CrossbowSilverBolt),
            ItemKind::WoodenStake => Some(Ability::WoodenStake),
            ItemKind::Garlic => None,
            ItemKind::HolyWater => None,
        }
    }

    pub open spec fn spec_name(self) -> Seq<char> {
        match self {
            ItemKind::IronBolt => "Iron Bolt"@,
            ItemKind::SilverBolt => "Silver Bolt"@,
            ItemKind::WoodenStake => "Wooden Stake"@,
            ItemKind::Garlic => "Garlic"@,
            ItemKind::HolyWater => "Holy Water"@,
        }
    }
}

impl Item {
    pub fn name(&self) -> (name: String)
        ensures
            name@ == self.kind.spec_name(),
    {
        match self.kind {
            ItemKind::IronBolt => "Iron Bolt".to_owned(),
            ItemKind::SilverBolt => "Silver Bolt".to_owned(),
            ItemKind::WoodenStake => "Wooden Stake".to_owned(),
            ItemKind::Garlic => "Garlic".to_owned(),
            ItemKind::HolyWater => "Holy Water".to_owned(),
        }
    }

    /// The ability that picking up the item gives a use of. Garlic and holy
    /// water give none: the catalog has no ability for them.
    pub fn ability(&self) -> (ability: Option<Ability>)
        ensures
            ability == self.kind.spec_ability(),
    {
        match self.kind {
            ItemKind::IronBolt => Some(Ability::CrossbowIronBolt),
            ItemKind::SilverBolt => Some(Ability::CrossbowSilverBolt),
            ItemKind::WoodenStake => Some(Ability::WoodenStake),
            ItemKind::Garlic => None,
            ItemKind::HolyWater => None,
        }
    }
}

} // verus!
