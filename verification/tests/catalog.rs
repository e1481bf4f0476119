use tactics::ability::{
    abilities, ability_lists, init_abilities, init_ability_lists, Ability, Action, DamageKind,
    Effect, EffectStats, EnemyKind,
};
use tactics::traits::{init_trait_lists, trait_lists, Trait};

#[test]
fn catalog_has_thirteen_abilities_in_order() {
    let table = abilities();
    assert_eq!(table.len(), 13);
    assert_eq!(table[0].0, Ability::Whip);
    assert_eq!(table[3].0, Ability::Thwack);
    assert_eq!(table[12].0, Ability::SpawnBat);
    for (ability, stats) in &table {
        assert_eq!(stats.name, ability.name());
        assert_eq!(stats.action, ability.action());
        assert_eq!(stats.range, ability.range());
    }
    assert_eq!(init_abilities().len(), 13);
}

#[test]
fn whip_is_a_silver_attack() {
    let stats = Ability::Whip.stats();
    assert_eq!(stats.name, "Whip");
    assert_eq!(stats.action, Action::Attack { damage_kind: DamageKind::Silver, damage: 2 });
    assert_eq!(stats.range, 2);
    assert!(!stats.acquirable);
    assert!(!stats.consumable);
    assert!(!stats.persistent);
}

#[test]
fn crossbow_bolts_are_spent_and_carried_over() {
    let iron = Ability::CrossbowIronBolt.stats();
    assert_eq!(iron.name, "Crossbow (Iron Bolts)");
    assert_eq!(iron.action, Action::Attack { damage_kind: DamageKind::Normal, damage: 2 });
    assert_eq!(iron.range, 6);
    assert!(iron.consumable && iron.persistent && !iron.acquirable);
    let silver = Ability::CrossbowSilverBolt.stats();
    assert_eq!(silver.name, "Crossbow (Silver Bolts)");
    assert_eq!(silver.action, Action::Attack { damage_kind: DamageKind::Silver, damage: 2 });
    assert!(silver.consumable && silver.persistent && !silver.acquirable);
}

#[test]
fn thwack_pushes_four_tiles() {
    let stats = Ability::Thwack.stats();
    assert_eq!(
        stats.action,
        Action::Push { damage_kind: DamageKind::Silver, damage: 2, distance: 4 }
    );
    assert_eq!(stats.range, 2);
    assert!(stats.consumable && !stats.persistent && !stats.acquirable);
}

#[test]
fn mist_is_an_effect_on_the_user() {
    let stats = Ability::Mist.stats();
    assert_eq!(
        stats.action,
        Action::Effect { effect: Effect::Mist, stats: EffectStats { magnitude: 0, duration: 2 } }
    );
    assert_eq!(stats.range, 0);
    assert!(stats.consumable);
}

#[test]
fn wooden_stake_is_the_only_acquirable_ability() {
    for (ability, stats) in abilities() {
        assert_eq!(stats.acquirable, ability == Ability::WoodenStake);
    }
    let stake = Ability::WoodenStake.stats();
    assert_eq!(stake.action, Action::Attack { damage_kind: DamageKind::Stake, damage: 1 });
    assert!(stake.consumable && stake.persistent);
}

#[test]
fn enemy_abilities_are_melee() {
    assert_eq!(
        Ability::BatBite.action(),
        Action::Attack { damage_kind: DamageKind::Normal, damage: 1 }
    );
    assert_eq!(
        Ability::VampireScratch.action(),
        Action::Attack { damage_kind: DamageKind::Normal, damage: 2 }
    );
    assert_eq!(
        Ability::VampireBite.action(),
        Action::Attack { damage_kind: DamageKind::LifeSteal, damage: 1 }
    );
    assert_eq!(
        Ability::BigBatBite.action(),
        Action::Attack { damage_kind: DamageKind::Normal, damage: 2 }
    );
    assert_eq!(
        Ability::SpawnBat.action(),
        Action::Spawn { enemy_kind: EnemyKind::Bat, cooldown: 3 }
    );
    for ability in [
        Ability::BatBite,
        Ability::VampireScratch,
        Ability::VampireBite,
        Ability::BigBatBite,
        Ability::SpawnBat,
        Ability::Sword,
    ] {
        assert_eq!(ability.range(), 1);
        assert!(!ability.consumable());
    }
    assert_eq!(Ability::Hellfire.range(), 6);
    assert_eq!(
        Ability::Hellfire.action(),
        Action::Attack { damage_kind: DamageKind::Fire, damage: 2 }
    );
    assert_eq!(Ability::Sword.name(), "Sword");
    assert_eq!(Ability::BigBatBite.name(), "Big Bat Bite");
}

#[test]
fn ability_lists_give_abilities_with_uses() {
    let lists = ability_lists();
    assert_eq!(lists.len(), 5);
    assert_eq!(
        lists[0],
        vec![
            (Ability::Whip, 1),
            (Ability::CrossbowIronBolt, 5),
            (Ability::CrossbowSilverBolt, 2),
            (Ability::Thwack, 2),
        ]
    );
    assert_eq!(
        lists[1],
        vec![
            (Ability::Sword, 1),
            (Ability::Hellfire, 3),
            (Ability::VampireBite, 1),
            (Ability::Mist, 1),
        ]
    );
    assert_eq!(lists[2], vec![(Ability::BatBite, 1)]);
    assert_eq!(lists[3], vec![(Ability::VampireScratch, 1), (Ability::VampireBite, 1)]);
    assert_eq!(lists[4], vec![(Ability::BigBatBite, 1), (Ability::SpawnBat, 1)]);
    assert_eq!(init_ability_lists(), lists);
}

#[test]
fn trait_lists_are_none_and_vampire() {
    let lists = trait_lists();
    assert_eq!(lists.len(), 2);
    assert_eq!(lists[0], vec![]);
    assert_eq!(
        lists[1],
        vec![
            Trait::SilverVulnerable,
            Trait::HolyVulnerable,
            Trait::StakeVulnerable,
            Trait::SunlightVulnerable,
        ]
    );
    assert_eq!(init_trait_lists(), lists);
}
