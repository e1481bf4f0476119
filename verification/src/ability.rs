//! The ability catalog: what each ability does, how far it reaches and how
//! its uses are accounted for.

use vstd::prelude::*;

verus! {

/// A timed status that can rest on a unit.
#[derive(Debug, Clone, Copy, PartialEq, Eq, Hash, Structural)]
pub enum Effect {
    /// Periodic damage, once per round.
    Burn,
    /// The unit cannot be seen and takes no damage.
    Mist,
}

/// Strength and remaining rounds of an active effect.
#[derive(Debug, Clone, Copy, PartialEq, Eq, Structural)]
pub struct EffectStats {
    pub magnitude: u16,
    pub duration: u16,
}

/// The kinds of enemy unit.
#[derive(Debug, Clone, Copy, PartialEq, Eq, Hash, Structural)]
pub enum EnemyKind {
    Bat,
    Vampire,
    BigBatty,
}

/// The kinds of item that can lie on a tile.
#[derive(Debug, Clone, Copy, PartialEq, Eq, Hash, Structural)]
pub enum ItemKind {
    IronBolt,
    SilverBolt,
    WoodenStake,
    Garlic,
    HolyWater,
}

#[derive(Debug, Clone, Copy, PartialEq, Eq, Hash, Structural)]
pub enum Ability {
    Whip,
    CrossbowIronBolt,
    CrossbowSilverBolt,
    Thwack,
    Sword,
    Hellfire,
    VampireBite,
    Mist,
    WoodenStake,
    BatBite,
    VampireScratch,
    BigBatBite,
    SpawnBat,
}

#[derive(Debug, Clone, Copy, PartialEq, Eq, Structural)]
pub enum DamageKind {
    Normal,
    Silver,
    Holy,
    Fire,
    LifeSteal,
    Stake,
    Sunlight,
}

/// What using an ability does.
#[derive(Debug, Clone, Copy, PartialEq, Eq, Structural)]
pub enum Action {
    Attack { damage_kind: DamageKind, damage: u16 },
    Push { damage_kind: DamageKind, damage: u16, distance: u16 },
    Effect { effect: Effect, stats: EffectStats },
    Spawn { enemy_kind: EnemyKind, cooldown: u16 },
    PlaceItem { kind: ItemKind },
}

/// One entry of the catalog.
#[derive(Debug, Clone)]
pub struct AbilityStats {
    pub name: String,
    pub action: Action,
    pub range: u16,
    pub acquirable: bool,
    pub consumable: bool,
    pub persistent: bool,
}

impl Ability {
    /// The action of each ability.
    pub open spec fn spec_action(self) -> Action {
        match self {
            Ability::Whip => Action::Attack { damage_kind: DamageKind::Silver, damage: 2 },
            Ability::CrossbowIronBolt => Action::Attack {
                damage_kind: DamageKind::Normal,
                damage: 2,
            },
            Ability::CrossbowSilverBolt => Action::Attack {
                damage_kind: DamageKind::Silver,
                damage: 2,
            },
            Ability::Thwack => Action::Push {
                damage_kind: DamageKind::Silver,
                damage: 2,
                distance: 4,
            },
            Ability::Sword => Action::Attack { damage_kind: DamageKind::Normal, damage: 2 },
            Ability::Hellfire => Action::Attack { damage_kind: DamageKind::Fire, damage: 2 },
            Ability::VampireBite => Action::Attack {
                damage_kind: DamageKind::LifeSteal,
                damage: 1,
            },
            Ability::Mist => Action::Effect {
                effect: Effect::Mist,
                stats: EffectStats { magnitude: 0, duration: 2 },
            },
            Ability::WoodenStake => Action::Attack { damage_kind: DamageKind::Stake, damage: 1 },
            Ability::BatBite => Action::Attack { damage_kind: DamageKind::Normal, damage: 1 },
            Ability::VampireScratch => Action::Attack {
                damage_kind: DamageKind::Normal,
                damage: 2,
            },
            Ability::BigBatBite => Action::Attack { damage_kind: DamageKind::Normal, damage: 2 },
            Ability::SpawnBat => Action::Spawn { enemy_kind: EnemyKind::Bat, cooldown: 3 },
        }
    }

    /// The reach of each ability, in tiles.
    pub open spec fn spec_range(self) -> u16 {
        match self {
            Ability::Whip | Ability::Thwack => 2,
            Ability::CrossbowIronBolt | Ability::CrossbowSilverBolt | Ability::Hellfire => 6,
            Ability::Mist => 0,
            _ => 1,
        }
    }

    /// Whether a unit can gain the ability by picking up an item.
    pub open spec fn spec_acquirable(self) -> bool {
        self == Ability::WoodenStake
    }

    /// Whether each use spends one of a limited number of uses.
    pub open spec fn spec_consumable(self) -> bool {
        match self {
            Ability::CrossbowIronBolt
            | Ability::CrossbowSilverBolt
            | Ability::Thwack
            | Ability::Hellfire
            | Ability::Mist
            | Ability::WoodenStake => true,
            _ => false,
        }
    }

    /// Whether the remaining uses carry over to the next level.
    pub open spec fn spec_persistent(self) -> bool {
        match self {
            Ability::CrossbowIronBolt
            | Ability::CrossbowSilverBolt
            | Ability::WoodenStake => true,
            _ => false,
        }
    }

    /// The display name of each ability.
    pub open spec fn spec_name(self) -> Seq<char> {
        match self {
            Ability::Whip => "Whip"@,
            Ability::CrossbowIronBolt => "Crossbow (Iron Bolts)"@,
            Ability::CrossbowSilverBolt => "Crossbow (Silver Bolts)"@,
            Ability::Thwack => "Thwack"@,
            Ability::Sword => "Sword"@,
            Ability::Hellfire => "Hellfire"@,
            Ability::VampireBite => "Vampire Bite"@,
            Ability::Mist => "Mist"@,
            Ability::WoodenStake => "Wooden Stake"@,
            Ability::BatBite => "Bat Bite"@,
            Ability::VampireScratch => "Vampire Scratch"@,
            Ability::BigBatBite => "Big Bat Bite"@,
            Ability::SpawnBat => "Spawn Bat"@,
        }
    }

    pub fn action(self) -> (action: Action)
        ensures
            action == self.spec_action(),
    {
        match self {
            Ability::Whip => Action::Attack { damage_kind: DamageKind::Silver, damage: 2 },
            Ability::CrossbowIronBolt => Action::Attack {
                damage_kind: DamageKind::Normal,
                damage: 2,
            },
            Ability::CrossbowSilverBolt => Action::Attack {
                damage_kind: DamageKind::Silver,
                damage: 2,
            },
            Ability::Thwack => Action::Push {
                damage_kind: DamageKind::Silver,
                damage: 2,
                distance: 4,
            },
            Ability::Sword => Action::Attack { damage_kind: DamageKind::Normal, damage: 2 },
            Ability::Hellfire => Action::Attack { damage_kind: DamageKind::Fire, damage: 2 },
            Ability::VampireBite => Action::Attack {
                damage_kind: DamageKind::LifeSteal,
                damage: 1,
            },
            Ability::Mist => Action::Effect {
                effect: Effect::Mist,
                stats: EffectStats { magnitude: 0, duration: 2 },
            },
            Ability::WoodenStake => Action::Attack { damage_kind: DamageKind::Stake, damage: 1 },
            Ability::BatBite => Action::Attack { damage_kind: DamageKind::Normal, damage: 1 },
            Ability::VampireScratch => Action::Attack {
                damage_kind: DamageKind::Normal,
                damage: 2,
            },
            Ability::BigBatBite => Action::Attack { damage_kind: DamageKind::Normal, damage: 2 },
            Ability::SpawnBat => Action::Spawn { enemy_kind: EnemyKind::Bat, cooldown: 3 },
        }
    }

    pub fn range(self) -> (range: u16)
        ensures
            range == self.spec_range(),
    {
        match self {
            Ability::Whip | Ability::Thwack => 2,
            Ability::CrossbowIronBolt | Ability::CrossbowSilverBolt | Ability::Hellfire => 6,
            Ability::Mist => 0,
            _ => 1,
        }
    }

    pub fn acquirable(self) -> (acquirable: bool)
        ensures
            acquirable == self.spec_acquirable(),
    {
        match self {
            Ability::WoodenStake => true,
            _ => false,
        }
    }

    pub fn consumable(self) -> (consumable: bool)
        ensures
            consumable == self.spec_consumable(),
    {
        match self {
            Ability::CrossbowIronBolt
            | Ability::CrossbowSilverBolt
            | Ability::Thwack
            | Ability::Hellfire
            | Ability::Mist
            | Ability::WoodenStake => true,
            _ => false,
        }
    }

    pub fn persistent(self) -> (persistent: bool)
        ensures
            persistent == self.spec_persistent(),
    {
        match self {
            Ability::CrossbowIronBolt
            | Ability::CrossbowSilverBolt
            | Ability::WoodenStake => true,
            _ => false,
        }
    }

    pub fn name(self) -> (name: String)
        ensures
            name@ == self.spec_name(),
    {
        match self {
            Ability::Whip => "Whip".to_owned(),
            Ability::CrossbowIronBolt => "Crossbow (Iron Bolts)".to_owned(),
            Ability::CrossbowSilverBolt => "Crossbow (Silver Bolts)".to_owned(),
            Ability::Thwack => "Thwack".to_owned(),
            Ability::Sword => "Sword".to_owned(),
            Ability::Hellfire => "Hellfire".to_owned(),
            Ability::VampireBite => "Vampire Bite".to_owned(),
            Ability::Mist => "Mist".to_owned(),
            Ability::WoodenStake => "Wooden Stake".to_owned(),
            Ability::BatBite => "Bat Bite".to_owned(),
            Ability::VampireScratch => "Vampire Scratch".to_owned(),
            Ability::BigBatBite => "Big Bat Bite".to_owned(),
            Ability::SpawnBat => "Spawn Bat".to_owned(),
        }
    }

    /// The catalog entry of the ability.
    pub fn stats(self) -> (stats: AbilityStats)
        ensures
            stats.describes(self),
    {
        AbilityStats {
            name: self.name(),
            action: self.action(),
            range: self.range(),
            acquirable: self.acquirable(),
            consumable: self.consumable(),
            persistent: self.persistent(),
        }
    }
}

impl AbilityStats {
    /// Whether this entry is the catalog's entry for `ability`.
    pub open spec fn describes(self, ability: Ability) -> bool {
        &&& self.name@ == ability.spec_name()
        &&& self.action == ability.spec_action()
        &&& self.range == ability.spec_range()
        &&& self.acquirable == ability.spec_acquirable()
        &&& self.consumable == ability.spec_consumable()
        &&& self.persistent == ability.spec_persistent()
    }
}

/// Every ability, in catalog order.
pub open spec fn all_abilities() -> Seq<Ability> {
    seq![
        Ability::Whip,
        Ability::CrossbowIronBolt,
        Ability::CrossbowSilverBolt,
        Ability::Thwack,
        Ability::Sword,
        Ability::Hellfire,
        Ability::VampireBite,
        Ability::Mist,
        Ability::WoodenStake,
        Ability::BatBite,
        Ability::VampireScratch,
        Ability::BigBatBite,
        Ability::SpawnBat,
    ]
}

/// Whether `table` holds one entry for each ability, in catalog order.
pub open spec fn is_catalog(table: Seq<(Ability, AbilityStats)>) -> bool {
    &&& table.len() == all_abilities().len()
    &&& forall|i: int|
        0 <= i < table.len() ==> {
            &&& (#[trigger] table[i]).0 == all_abilities()[i]
            &&& table[i].1.describes(table[i].0)
        }
}

/// Builds the catalog.
pub fn init_abilities() -> (table: Vec<(Ability, AbilityStats)>)
    ensures
        is_catalog(table@),
{
    let mut table: Vec<(Ability, AbilityStats)> = Vec::new();
    table.push((Ability::Whip, Ability::Whip.stats()));
    table.push((Ability::CrossbowIronBolt, Ability::CrossbowIronBolt.stats()));
    table.push((Ability::CrossbowSilverBolt, Ability::CrossbowSilverBolt.stats()));
    table.push((Ability::Thwack, Ability::Thwack.stats()));
    table.push((Ability::Sword, Ability::Sword.stats()));
    table.push((Ability::Hellfire, Ability::Hellfire.stats()));
    table.push((Ability::VampireBite, Ability::VampireBite.stats()));
    table.push((Ability::Mist, Ability::Mist.stats()));
    table.push((Ability::WoodenStake, Ability::WoodenStake.stats()));
    table.push((Ability::BatBite, Ability::BatBite.stats()));
    table.push((Ability::VampireScratch, Ability::VampireScratch.stats()));
    table.push((Ability::BigBatBite, Ability::BigBatBite.stats()));
    table.push((Ability::SpawnBat, Ability::SpawnBat.stats()));
    table
}

/// The catalog.
pub fn abilities() -> (table: Vec<(Ability, AbilityStats)>)
    ensures
        is_catalog(table@),
{
    init_abilities()
}

/// The ability lists a unit record can point to, by index, each ability
/// with its initial number of uses.
pub open spec fn ability_lists_spec() -> Seq<Seq<(Ability, u16)>> {
    seq![
        seq![
            (Ability::Whip, 1u16),
            (Ability::CrossbowIronBolt, 5u16),
            (Ability::CrossbowSilverBolt, 2u16),
            (Ability::Thwack, 2u16),
        ],
        seq![
            (Ability::Sword, 1u16),
            (Ability::Hellfire, 3u16),
            (Ability::VampireBite, 1u16),
            (Ability::Mist, 1u16),
        ],
        seq![(Ability::BatBite, 1u16)],
        seq![(Ability::VampireScratch, 1u16), (Ability::VampireBite, 1u16)],
        seq![(Ability::BigBatBite, 1u16), (Ability::SpawnBat, 1u16)],
    ]
}

/// Whether `lists`, as nested vectors, holds exactly `model`.
pub open spec fn ability_lists_match(
    lists: Seq<Vec<(Ability, u16)>>,
    model: Seq<Seq<(Ability, u16)>>,
) -> bool {
    &&& lists.len() == model.len()
    &&& forall|i: int| 0 <= i < lists.len() ==> (#[trigger] lists[i])@ == model[i]
}

/// Builds the table of ability lists.
pub fn init_ability_lists() -> (lists: Vec<Vec<(Ability, u16)>>)
    ensures
        ability_lists_match(lists@, ability_lists_spec()),
{
    let mut hunter: Vec<(Ability, u16)> = Vec::new();
    hunter.push((Ability::Whip, 1));
    hunter.push((Ability::CrossbowIronBolt, 5));
    hunter.push((Ability::CrossbowSilverBolt, 2));
    hunter.push((Ability::Thwack, 2));
    let mut dhampir: Vec<(Ability, u16)> = Vec::new();
    dhampir.push((Ability::Sword, 1));
    dhampir.push((Ability::Hellfire, 3));
    dhampir.push((Ability::VampireBite, 1));
    dhampir.push((Ability::Mist, 1));
    let mut bat: Vec<(Ability, u16)> = Vec::new();
    bat.push((Ability::BatBite, 1));
    let mut vampire: Vec<(Ability, u16)> = Vec::new();
    vampire.push((Ability::VampireScratch, 1));
    vampire.push((Ability::VampireBite, 1));
    let mut big_bat: Vec<(Ability, u16)> = Vec::new();
    big_bat.push((Ability::BigBatBite, 1));
    big_bat.push((Ability::SpawnBat, 1));
    let mut lists: Vec<Vec<(Ability, u16)>> = Vec::new();
    lists.push(hunter);
    lists.push(dhampir);
    lists.push(bat);
    lists.push(vampire);
    lists.push(big_bat);
    proof {
        assert(lists@[0]@ =~= ability_lists_spec()[0]);
        assert(lists@[1]@ =~= ability_lists_spec()[1]);
        assert(lists@[2]@ =~= ability_lists_spec()[2]);
        assert(lists@[3]@ =~= ability_lists_spec()[3]);
        assert(lists@[4]@ =~= ability_lists_spec()[4]);
    }
    lists
}

/// The table of ability lists.
pub fn ability_lists() -> (lists: Vec<Vec<(Ability, u16)>>)
    ensures
        ability_lists_match(lists@, ability_lists_spec()),
{
    init_ability_lists()
}

} // verus!
