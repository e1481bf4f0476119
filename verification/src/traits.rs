//! Unit traits: tags that change the damage a unit takes from a damage kind.

use vstd::prelude::*;

verus! {

/// A vulnerability carried by a unit.
#[derive(Debug, Clone, Copy, PartialEq, Eq, Hash, Structural)]
pub enum Trait {
    SilverVulnerable,
    HolyVulnerable,
    StakeVulnerable,
    SunlightVulnerable,
    HolyFromSunlight,
}

/// The trait lists a unit record can point to, by index.
///
/// List 0 is empty; list 1 holds the four classic vulnerabilities.
pub open spec fn trait_lists_spec() -> Seq<Seq<Trait>> {
    seq![
        Seq::<Trait>::empty(),
        seq![
            Trait::SilverVulnerable,
            Trait::HolyVulnerable,
            Trait::StakeVulnerable,
            Trait::SunlightVulnerable,
        ],
    ]
}

/// Whether `lists`, as nested vectors, holds exactly `model`.
pub open spec fn trait_lists_match(lists: Seq<Vec<Trait>>, model: Seq<Seq<Trait>>) -> bool {
    &&& lists.len() == model.len()
    &&& forall|i: int| 0 <= i < lists.len() ==> (#[trigger] lists[i])@ == model[i]
}

/// Builds the table of trait lists.
pub fn init_trait_lists() -> (lists: Vec<Vec<Trait>>)
    ensures
        trait_lists_match(lists@, trait_lists_spec()),
{
    let none: Vec<Trait> = Vec::new();
    let mut vampire: Vec<Trait> = Vec::new();
    vampire.push(Trait::SilverVulnerable);
    vampire.push(Trait::HolyVulnerable);
    vampire.push(Trait::StakeVulnerable);
    vampire.push(Trait::SunlightVulnerable);
    let mut lists: Vec<Vec<Trait>> = Vec::new();
    lists.push(none);
    lists.push(vampire);
    proof {
        assert(lists@[0]@ =~= trait_lists_spec()[0]);
        assert(lists@[1]@ =~= trait_lists_spec()[1]);
    }
    lists
}

/// The table of trait lists.
pub fn trait_lists() -> (lists: Vec<Vec<Trait>>)
    ensures
        trait_lists_match(lists@, trait_lists_spec()),
{
    init_trait_lists()
}

} // verus!
