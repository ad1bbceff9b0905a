use rand::Rng;
use vstd::prelude::*;

verus! {

/// The outcome of one melee swing.
#[derive(Debug, Clone, Copy, PartialEq, Eq, Structural)]
pub struct CombatResult {
    pub hit: bool,
    pub damage: i32,
    pub critical: bool,
    pub roll: i32,
}

/// What a swing with a given d20 roll does: a 20 is a critical hit for double damage,
/// a roll plus attack of at least the defence is a hit for base damage, otherwise a miss.
pub open spec fn attack_outcome(atk: int, def: int, base: int, roll: int) -> (bool, int, bool) {
    let critical = roll == 20;
    let hit = critical || roll + atk >= def;
    let damage = if critical {
        base * 2
    } else if hit {
        base
    } else {
        0
    };
    (hit, damage, critical)
}

/// The arithmetic of a swing stays within i32 for every roll from 1 to 20.
pub open spec fn attack_fits(atk: int, base: int) -> bool {
    &&& atk + 20 <= i32::MAX
    &&& i32::MIN <= base * 2 <= i32::MAX
}

/// Roll a twenty-sided die with the thread-local generator.
///
/// Calls `rand::Rng::gen_range(1..=20)` on `rand::thread_rng()`; the contract claims
/// only that the value lies in 1..=20, as rand documents for an inclusive range. Which
/// value comes out is chance and is not stated.
#[verifier::external_body]
fn roll_d20() -> (r: i32)
    ensures
        1 <= r <= 20,
{
    let mut rng = rand::thread_rng();
    rng.gen_range(1..=20)
}

/// Resolve a swing for a given roll of the die.
pub fn resolve_attack(attacker_atk: i32, defender_def: i32, base_damage: i32, roll: i32) -> (r:
    CombatResult)
    requires
        1 <= roll <= 20,
        attack_fits(attacker_atk as int, base_damage as int),
    ensures
        r.roll == roll,
        (r.hit, r.damage as int, r.critical) == attack_outcome(
            attacker_atk as int,
            defender_def as int,
            base_damage as int,
            roll as int,
        ),
{
    let critical = roll == 20;
    let hit = critical || roll + attacker_atk >= defender_def;
    let damage = if critical {
        base_damage * 2
    } else if hit {
        base_damage
    } else {
        0
    };
    CombatResult { hit, damage, critical, roll }
}

/// Swing at a defender: roll a d20 and resolve the swing for that roll.
pub fn melee_attack(attacker_atk: i32, defender_def: i32, base_damage: i32) -> (r: CombatResult)
    requires
        attack_fits(attacker_atk as int, base_damage as int),
    ensures
        1 <= r.roll <= 20,
        (r.hit, r.damage as int, r.critical) == attack_outcome(
            attacker_atk as int,
            defender_def as int,
            base_damage as int,
            r.roll as int,
        ),
{
    let roll = roll_d20();
    resolve_attack(attacker_atk, defender_def, base_damage, roll)
}

/// (attack, defence, base damage) of each entity kind code.
pub open spec fn stats_for(entity_type: u8) -> (i32, i32, i32) {
    if entity_type == 0 {
        (3, 2, 5)
    } else if entity_type == 1 {
        (1, 1, 4)
    } else if entity_type == 2 {
        (2, 2, 5)
    } else if entity_type == 3 {
        (2, 1, 3)
    } else if entity_type == 4 {
        (1, 0, 2)
    } else {
        (1, 1, 3)
    }
}

/// Entity stat lookup: (attack, defence, base damage) of an entity kind code.
pub fn get_entity_stats(entity_type: u8) -> (r: (i32, i32, i32))
    ensures
        r == stats_for(entity_type),
{
    match entity_type {
        0 => (3, 2, 5),
        1 => (1, 1, 4),
        2 => (2, 2, 5),
        3 => (2, 1, 3),
        4 => (1, 0, 2),
        _ => (1, 1, 3),
    }
}

/// A swing whose attack plus one already meets the defence always hits, and a
/// critical always does double damage.
pub proof fn lemma_attack_outcome_facts(atk: int, def: int, base: int, roll: int)
    requires
        1 <= roll <= 20,
    ensures
        atk + 1 >= def ==> attack_outcome(atk, def, base, roll).0,
        attack_outcome(atk, def, base, roll).2 ==> attack_outcome(atk, def, base, roll).1 == 2
            * base,
        !attack_outcome(atk, def, base, roll).0 ==> attack_outcome(atk, def, base, roll).1 == 0,
{
}

} // verus!
