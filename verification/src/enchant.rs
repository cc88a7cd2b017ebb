//! Enchanting odds: the success ladder for weapons and armor.
use vstd::prelude::*;
use crate::bag::{consume_one, draw_from_bag, draw_plan, lemma_empty_draw_keeps_bag, position_of, take_from, ItemInstance};
use crate::chance::{random_in_range, random_u64};

verus! {

/// Enchant odds are expressed in basis points (1/100 of a percent) out of
/// this scale; the roll must use the same bound.
pub const ENCHANT_BP_SCALE: u32 = 10_000;

/// The weapon ladder: guaranteed through +4, then 75/50/25% at +5/+6/+7,
/// halving each level from +8 until the 1% floor at +12.
pub open spec fn weapon_ladder(enchant: int) -> u32 {
    if enchant <= 4 {
        10_000
    } else if enchant == 5 {
        7_500
    } else if enchant == 6 {
        5_000
    } else if enchant == 7 {
        2_500
    } else if enchant == 8 {
        1_250
    } else if enchant == 9 {
        625
    } else if enchant == 10 {
        312
    } else if enchant == 11 {
        156
    } else {
        100
    }
}

/// Success chance, in basis points, of enchanting an item currently at
/// `enchant`.
pub fn enchant_success_bp(enchant: i32) -> (bp: u32)
    ensures
        bp == weapon_ladder(enchant as int),
{
    if enchant <= 4 {
        ENCHANT_BP_SCALE
    } else if enchant == 5 {
        7_500
    } else if enchant == 6 {
        5_000
    } else if enchant == 7 {
        2_500
    } else if enchant == 8 {
        1_250
    } else if enchant == 9 {
        625
    } else if enchant == 10 {
        312
    } else if enchant == 11 {
        156
    } else {
        100
    }
}

/// The armor ladder is the weapon one shifted two levels down, with the
/// shift saturating at `i32::MAX`.
pub fn armor_enchant_success_bp(enchant: i32) -> (bp: u32)
    ensures
        bp == weapon_ladder(if enchant as int + 2 > i32::MAX as int { i32::MAX as int } else { enchant as int + 2 }),
{
    let shifted = if enchant > i32::MAX - 2 { i32::MAX } else { enchant + 2 };
    enchant_success_bp(shifted)
}

/// The reagent every enchant scroll needs: one is spent per reading.
pub const WHETSTONE_OIL_ITEM_ID: &'static str = "whetstone_oil";

/// The success chance of an enchant on `enchant`, by the armor or the weapon
/// ladder.
pub open spec fn ladder_bp(enchant: i32, armor: bool) -> u32 {
    if armor {
        weapon_ladder(if enchant as int + 2 > i32::MAX as int { i32::MAX as int } else { enchant as int + 2 })
    } else {
        weapon_ladder(enchant as int)
    }
}

/// A roll of `roll_bp` (drawn below `ENCHANT_BP_SCALE`) takes on an item at
/// `enchant` when it falls below the ladder's chance.
pub fn enchant_succeeds(roll_bp: u32, enchant: i32, armor: bool) -> (ok: bool)
    ensures
        ok == (roll_bp < ladder_bp(enchant, armor)),
{
    let chance = if armor { armor_enchant_success_bp(enchant) } else { enchant_success_bp(enchant) };
    roll_bp < chance
}

/// A roll for an enchant: below `ENCHANT_BP_SCALE`, any value.
pub fn roll_enchant_bp() -> (roll_bp: u32)
    ensures
        roll_bp < ENCHANT_BP_SCALE,
{
    let r = random_in_range(0, ENCHANT_BP_SCALE as i64 - 1);
    r as u32
}

/// Which of `count` worn armor pieces an armor scroll picks, from a random
/// `pick`.
pub fn armor_pick(count: usize, pick: u64) -> (i: usize)
    requires
        count > 0,
    ensures
        i == pick % (count as u64),
        i < count,
{
    (pick % (count as u64)) as usize
}

/// A random pick for `armor_pick`.
pub fn roll_armor_pick() -> (pick: u64) {
    random_u64()
}

/// How reading an enchant scroll on a piece of gear went.
pub enum EnchantOutcome {
    /// No whetstone oil: nothing was spent and the scroll stays.
    NoOil,
    /// The runes flared out of control: the piece is gone.
    Destroyed,
    /// The piece took the enchant, now at this level.
    Honed(i32),
}

/// Read scroll `scroll_instance_id` from `bag` on `target` (the piece the
/// scroll selected), with a roll of `roll_bp`: one whetstone oil is needed,
/// locked oil included; oil and scroll are spent whether the enchant takes
/// or the piece breaks. On success `target` goes up one level; on failure
/// the caller removes it.
pub fn read_enchant_scroll(bag: &mut Vec<ItemInstance>, target: &mut ItemInstance, scroll_instance_id: u64, roll_bp: u32, armor: bool)
    -> (outcome: EnchantOutcome)
    requires
        old(target).enchant < i32::MAX,
    ensures
        ({
            let oil = draw_plan(old(bag)@, WHETSTONE_OIL_ITEM_ID@, 1, true);
            if oil.1.len() == 0 {
                &&& outcome is NoOil
                &&& final(bag)@ == old(bag)@
                &&& *final(target) == *old(target)
            } else {
                &&& final(bag)@ == match position_of(oil.0, scroll_instance_id) {
                    Some(i) => take_from(oil.0, i, 1),
                    None => oil.0,
                }
                &&& if roll_bp < ladder_bp(old(target).enchant, armor) {
                    &&& outcome == EnchantOutcome::Honed((old(target).enchant + 1) as i32)
                    &&& *final(target) == ItemInstance { enchant: (old(target).enchant + 1) as i32, ..*old(target) }
                } else {
                    &&& outcome is Destroyed
                    &&& *final(target) == *old(target)
                }
            }
        }),
{
    let draws = draw_from_bag(bag, WHETSTONE_OIL_ITEM_ID, 1, true);
    if draws.len() == 0 {
        proof {
            lemma_empty_draw_keeps_bag(old(bag)@, WHETSTONE_OIL_ITEM_ID@, 1, true);
        }
        return EnchantOutcome::NoOil;
    }
    consume_one(bag, scroll_instance_id);
    if enchant_succeeds(roll_bp, target.enchant, armor) {
        target.enchant = target.enchant + 1;
        EnchantOutcome::Honed(target.enchant)
    } else {
        EnchantOutcome::Destroyed
    }
}

} // verus!
