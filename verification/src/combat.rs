//! Combat bookkeeping that needs no geometry: a player's effective guard and
//! charisma, the attack cadence gate, the dagger skill's cooldown and strike
//! outcomes, natural regeneration, and the hit points a level gained or lost
//! leaves.
use vstd::prelude::*;
use vstd::string::*;
use crate::abilities::{running, timer_of, Abilities};
use crate::combat_audit::PlayerAttackWindow;
use crate::consent::PlayerId;
use crate::keyed::IdMap;

verus! {

/// The stats a client shows: guard (what an attacker must beat) and
/// charisma (haggling).
#[derive(Clone, Copy)]
pub struct EffectiveStats {
    pub guard: i32,
    pub cha: i32,
}

/// One worn piece as guard reads it: its definition's guard, whether it is
/// armor, and its enchant.
pub struct GearPiece {
    pub guard: i32,
    pub is_armor: bool,
    pub enchant: i32,
}

/// What a piece adds to guard: its guard, plus its enchant when it is armor
/// (a weapon's enchant stays on attack and damage rolls).
pub open spec fn piece_guard(p: GearPiece) -> int {
    p.guard + if p.is_armor { p.enchant as int } else { 0 }
}

/// The guard all pieces add.
pub open spec fn gear_guard(pieces: Seq<GearPiece>) -> int
    decreases pieces.len(),
{
    if pieces.len() == 0 { 0 } else { gear_guard(pieces.drop_last()) + piece_guard(pieces.last()) }
}

/// Guard from worn gear: each piece's guard plus worn armor's enchant.
pub fn equipped_guard(pieces: &Vec<GearPiece>) -> (g: i64)
    requires
        pieces@.len() <= 0x4000_0000,
    ensures
        g == gear_guard(pieces@),
{
    let mut total: i64 = 0;
    let mut i: usize = 0;
    while i < pieces.len()
        invariant
            i <= pieces@.len(),
            pieces@.len() <= 0x4000_0000,
            total == gear_guard(pieces@.subrange(0, i as int)),
            -(i * 0x1_0000_0000) <= total <= i * 0x1_0000_0000,
        decreases pieces@.len() - i,
    {
        proof {
            let next = pieces@.subrange(0, i + 1);
            assert(next.drop_last() =~= pieces@.subrange(0, i as int));
            assert((i + 1) * 0x1_0000_0000 == i * 0x1_0000_0000 + 0x1_0000_0000) by (nonlinear_arith);
            assert((i + 1) * 0x1_0000_0000 <= 0x4000_0000 * 0x1_0000_0000) by (nonlinear_arith)
                requires i + 1 <= 0x4000_0000;
        }
        let p = &pieces[i];
        let add: i64 = p.guard as i64 + if p.is_armor { p.enchant as i64 } else { 0 };
        total = total + add;
        i = i + 1;
    }
    proof {
        assert(pieces@.subrange(0, pieces@.len() as int) =~= pieces@);
    }
    total
}

/// A player's effective stats: the character's base guard and charisma
/// (10 each without a character), plus worn gear, and guard raised by a
/// guardian ward while one covers them.
pub fn effective_stats(abilities: &Abilities, player: PlayerId, base: Option<(i32, i32)>, gear_guard_bonus: i32,
    gear_cha_bonus: i32, now: u64) -> (s: EffectiveStats)
    requires
        abilities.wf(),
        ({
            let g = match base { Some(b) => b.0 as int, None => 10 } + gear_guard_bonus;
            &&& i32::MIN <= g
            &&& g + (if g > 0 { g / 10 } else { 0 }) <= i32::MAX
        }),
        i32::MIN <= match base { Some(b) => b.1 as int, None => 10 } + gear_cha_bonus <= i32::MAX,
    ensures
        ({
            let g = match base { Some(b) => b.0 as int, None => 10 } + gear_guard_bonus;
            &&& s.guard == if running(timer_of(abilities.wards@, player), now) { g + if g > 0 { g / 10 } else { 0 } } else { g }
            &&& s.cha == match base { Some(b) => b.1 as int, None => 10 } + gear_cha_bonus
        }),
{
    let (guard, cha) = match base {
        Some(b) => b,
        None => (10, 10),
    };
    EffectiveStats { guard: abilities.guard(player, guard + gear_guard_bonus, now), cha: cha + gear_cha_bonus }
}

/// When each player's last accepted attack was.
pub struct AttackClock {
    pub last: IdMap<u64>,
}

impl AttackClock {
    pub open spec fn wf(&self) -> bool {
        self.last.wf()
    }

    pub fn new() -> (c: Self)
        ensures
            c.wf(),
            c.last@ == Map::<PlayerId, u64>::empty(),
    {
        AttackClock { last: IdMap::new() }
    }

    /// Claim an attack at `now`. Inside the base interval since the last
    /// accepted one it is refused at once; otherwise it must be
    /// `required_interval_ms` (the base one lengthened by hunger) past it,
    /// and a first attack always is. An accepted attack becomes the last.
    pub fn claim(&mut self, player: PlayerId, now: u64, base_interval_ms: u64, required_interval_ms: u64)
        -> (w: PlayerAttackWindow)
        requires
            old(self).wf(),
        ensures
            final(self).wf(),
            w.accepted == attack_accepted(timer_of(old(self).last@, player), now, base_interval_ms, required_interval_ms),
            ({
                let last = if old(self).last@.contains_key(player) { old(self).last@[player] } else { 0 };
                let since = if now >= last { (now - last) as u64 } else { 0 };
                if old(self).last@.contains_key(player) && since < base_interval_ms {
                    &&& w == PlayerAttackWindow {
                        checked_at_ms: now,
                        since_accepted_ms: Some(since),
                        checked_interval_ms: base_interval_ms,
                        accepted: false,
                    }
                    &&& final(self).last@ == old(self).last@
                } else {
                    &&& w == PlayerAttackWindow {
                        checked_at_ms: now,
                        since_accepted_ms: if last != 0 { Some(since) } else { None },
                        checked_interval_ms: required_interval_ms,
                        accepted: since >= required_interval_ms,
                    }
                    &&& final(self).last@ == old(self).last@.insert(player, if since >= required_interval_ms { now } else { last })
                }
            }),
    {
        let found = match self.last.get(player) {
            Some(l) => Some(*l),
            None => None,
        };
        if let Some(l) = found {
            let since = now.saturating_sub(l);
            if since < base_interval_ms {
                return PlayerAttackWindow {
                    checked_at_ms: now,
                    since_accepted_ms: Some(since),
                    checked_interval_ms: base_interval_ms,
                    accepted: false,
                };
            }
        }
        let last = match found {
            Some(l) => l,
            None => 0,
        };
        let since = now.saturating_sub(last);
        let accepted = since >= required_interval_ms;
        self.last.insert(player, if accepted { now } else { last });
        PlayerAttackWindow {
            checked_at_ms: now,
            since_accepted_ms: if last != 0 { Some(since) } else { None },
            checked_interval_ms: required_interval_ms,
            accepted,
        }
    }
}

/// Whether an attack at `now` is accepted after the last accepted one (if
/// any): past the base interval, and past the required one.
pub open spec fn attack_accepted(last: Option<u64>, now: u64, base_interval_ms: u64, required_interval_ms: u64) -> bool {
    let l = match last { Some(l) => l, None => 0 };
    let since = if now >= l { now - l } else { 0 };
    (last is None || since >= base_interval_ms) && since >= required_interval_ms
}

/// Two attacks are never accepted closer together than the interval
/// required at the second: an attack within it of the last accepted one is
/// refused.
pub proof fn law_attack_interval_holds(last: u64, now: u64, base_interval_ms: u64, required_interval_ms: u64)
    requires
        now >= last,
        now - last < required_interval_ms,
    ensures
        !attack_accepted(Some(last), now, base_interval_ms, required_interval_ms),
{
}

/// How long the dagger skill still cools down at `now`, used last at
/// `last` (if ever).
pub fn dagger_remaining(last: Option<u64>, now: u64, cooldown_ms: u64) -> (ms: u64)
    ensures
        ms == match last {
            None => 0,
            Some(l) => {
                let since = if now >= l { now - l } else { 0 };
                if cooldown_ms >= since { (cooldown_ms - since) as u64 } else { 0 }
            },
        },
{
    match last {
        None => 0,
        Some(l) => cooldown_ms.saturating_sub(now.saturating_sub(l)),
    }
}

/// A monster's default attack cooldown, when its definition gives none.
pub const DEFAULT_MONSTER_ATTACK_COOLDOWN_MS: u64 = 1_500;

/// Claim a monster's attack at `now`: allowed once `cooldown_ms` (the
/// default without one) has passed since its last attack, which then
/// becomes `now`.
pub fn claim_monster_attack(last_attack_at: &mut u64, now: u64, cooldown_ms: Option<u32>) -> (claimed: bool)
    ensures
        ({
            let cd: int = match cooldown_ms { Some(c) => c as int, None => DEFAULT_MONSTER_ATTACK_COOLDOWN_MS as int };
            let since: int = if now >= *old(last_attack_at) { now - *old(last_attack_at) } else { 0 };
            &&& claimed == (since >= cd)
            &&& *final(last_attack_at) == if claimed { now } else { *old(last_attack_at) }
        }),
{
    let cd: u64 = match cooldown_ms {
        Some(c) => c as u64,
        None => DEFAULT_MONSTER_ATTACK_COOLDOWN_MS,
    };
    if now.saturating_sub(*last_attack_at) >= cd {
        *last_attack_at = now;
        true
    } else {
        false
    }
}

/// Where a monster's attack on a player stops, as the combat audit names
/// it: the checks run in order (the monster exists, may attack, is off
/// cooldown; the target can be damaged, shares a floor, is in range, and
/// no wall stands between) and the first that fails names the stop. `None`
/// when the attack goes ahead.
pub open spec fn monster_attack_stop(present: bool, controllable: bool, cooled_down: bool, damageable: bool,
    reachable: bool, in_range: bool, walled: bool) -> Option<Seq<char>>
{
    if !present {
        Some("missing_monster"@)
    } else if !controllable {
        Some("not_controllable"@)
    } else if !cooled_down {
        Some("cooldown"@)
    } else if !damageable {
        Some("target_not_damageable"@)
    } else if !reachable {
        Some("unreachable_floor"@)
    } else if !in_range {
        Some("out_of_range"@)
    } else if walled {
        Some("wall"@)
    } else {
        None
    }
}

/// The audit reason a monster attack stops at; see `monster_attack_stop`.
pub fn monster_attack_refusal(present: bool, controllable: bool, cooled_down: bool, damageable: bool,
    reachable: bool, in_range: bool, walled: bool) -> (r: Option<&'static str>)
    ensures
        match r {
            Some(s) => monster_attack_stop(present, controllable, cooled_down, damageable, reachable, in_range, walled) == Some(s@),
            None => monster_attack_stop(present, controllable, cooled_down, damageable, reachable, in_range, walled) is None,
        },
{
    if !present {
        Some("missing_monster")
    } else if !controllable {
        Some("not_controllable")
    } else if !cooled_down {
        Some("cooldown")
    } else if !damageable {
        Some("target_not_damageable")
    } else if !reachable {
        Some("unreachable_floor")
    } else if !in_range {
        Some("out_of_range")
    } else if walled {
        Some("wall")
    } else {
        None
    }
}

/// Why a player's attack request is refused, as acked to the attacker.
#[derive(PartialEq, Eq, Structural, Clone, Copy, Debug)]
pub enum AttackRejectReason {
    /// The monster is gone, dead or out of reach of the attacker's floor.
    InvalidTarget,
    /// The attacker is not (yet) in the game.
    NotInGame,
    /// The attacker is dead.
    AttackerDead,
    /// The monster is too far, or a wall stands between.
    OutOfRange,
    /// The weapon shoots ammunition and none is usable.
    OutOfAmmo,
}

/// What the checks of a player's attack request see. Distances are judged
/// at the position the request is judged at (the registry's, or the
/// monster brain's where the registry's is out of range).
#[derive(Clone, Copy)]
pub struct PlayerAttackChecks {
    /// The monster is in the registry.
    pub monster_present: bool,
    /// The monster is a corpse.
    pub monster_dead: bool,
    /// The attacker is in the game and done loading.
    pub player_ready: bool,
    /// The attacker has hit points.
    pub player_alive: bool,
    /// The monster's floor can be reached from the attacker's.
    pub reachable: bool,
    /// Within the weapon's attack range (with its tolerance).
    pub in_range: bool,
    /// Within the range at which a missed swing provokes the monster.
    pub in_provoke_range: bool,
    /// A wall stands between attacker and monster.
    pub walled: bool,
    /// The weapon shoots ammunition.
    pub needs_ammo: bool,
    /// Ammunition of its kind is in the bag.
    pub has_ammo: bool,
    /// That ammunition is reserved for a trade.
    pub ammo_reserved: bool,
}

/// The check a player's attack request stops at, checked in order: a live
/// monster present, the attacker in the game and alive, the floor
/// reachable, in range, no wall, then ammunition. `None`: it goes ahead.
pub open spec fn player_attack_stop(c: PlayerAttackChecks) -> Option<AttackRejectReason> {
    if !c.monster_present || c.monster_dead {
        Some(AttackRejectReason::InvalidTarget)
    } else if !c.player_ready {
        Some(AttackRejectReason::NotInGame)
    } else if !c.player_alive {
        Some(AttackRejectReason::AttackerDead)
    } else if !c.reachable {
        Some(AttackRejectReason::InvalidTarget)
    } else if !c.in_range || c.walled {
        Some(AttackRejectReason::OutOfRange)
    } else if c.needs_ammo && (!c.has_ammo || c.ammo_reserved) {
        Some(AttackRejectReason::OutOfAmmo)
    } else {
        None
    }
}

/// The check a player's attack request stops at; see `player_attack_stop`.
pub fn player_attack_refusal(c: &PlayerAttackChecks) -> (r: Option<AttackRejectReason>)
    ensures
        r == player_attack_stop(*c),
{
    if !c.monster_present || c.monster_dead {
        Some(AttackRejectReason::InvalidTarget)
    } else if !c.player_ready {
        Some(AttackRejectReason::NotInGame)
    } else if !c.player_alive {
        Some(AttackRejectReason::AttackerDead)
    } else if !c.reachable {
        Some(AttackRejectReason::InvalidTarget)
    } else if !c.in_range || c.walled {
        Some(AttackRejectReason::OutOfRange)
    } else if c.needs_ammo && (!c.has_ammo || c.ammo_reserved) {
        Some(AttackRejectReason::OutOfAmmo)
    } else {
        None
    }
}

/// Whether a refused swing still provokes the monster onto the attacker:
/// it got as far as the range check, missed the range, and stood within
/// provoke range with no wall between.
pub fn player_attack_provokes(c: &PlayerAttackChecks) -> (r: bool)
    ensures
        r == (c.monster_present && !c.monster_dead && c.player_ready && c.player_alive && c.reachable
            && !c.in_range && c.in_provoke_range && !c.walled),
        r ==> player_attack_stop(*c) == Some(AttackRejectReason::OutOfRange),
{
    c.monster_present && !c.monster_dead && c.player_ready && c.player_alive && c.reachable
        && !c.in_range && c.in_provoke_range && !c.walled
}

/// A monster's blow landing on a player at `health`: nothing when the
/// player is already dead; otherwise the health left (a hit takes
/// `damage`, never below zero) and whether the hit killed.
pub fn monster_blow(health: u32, hit: bool, damage: u32) -> (r: Option<(u32, bool)>)
    ensures
        health == 0 ==> r is None,
        health > 0 ==> r == Some(if hit {
            let left: u32 = if damage >= health { 0 } else { (health - damage) as u32 };
            (left, left == 0)
        } else {
            (health, false)
        }),
{
    if health == 0 {
        return None;
    }
    if hit {
        let left = health.saturating_sub(damage);
        Some((left, left == 0))
    } else {
        Some((health, false))
    }
}

/// A player's landed blow of `damage` on a monster at `health`: nothing
/// when the monster is already dead; otherwise the health left (never
/// below zero), the damage it actually took, and whether it died of it.
pub fn player_blow(dead: bool, health: u32, damage: u32) -> (r: Option<(u32, u32, bool)>)
    ensures
        dead ==> r is None,
        !dead ==> r == Some(if damage >= health {
            (0u32, health, true)
        } else {
            ((health - damage) as u32, damage, false)
        }),
{
    if dead {
        return None;
    }
    let dealt = if damage < health { damage } else { health };
    let left = health.saturating_sub(damage);
    Some((left, dealt, left == 0))
}

/// How long kill loot waits for the blow to land: a dagger strike's at
/// once, a ranged shot's after its flight, a swing's at its impact.
pub fn kill_loot_delay_ms(dagger_strike: bool, ranged: bool, ranged_ms: u64, melee_ms: u64) -> (ms: u64)
    ensures
        ms == if dagger_strike { 0 } else if ranged { ranged_ms } else { melee_ms },
{
    if dagger_strike { 0 } else if ranged { ranged_ms } else { melee_ms }
}

/// Why a dagger strike was skipped.
#[derive(PartialEq, Eq, Structural)]
pub enum StrikeSkip {
    Interrupted,
    WeaponChanged,
    TargetDefeated,
    OutOfRange,
    InvalidTarget,
}

/// How one strike of the double slash goes: once interrupted (the player
/// fell, mounted, used something, changed floor or moved) every later strike
/// is skipped; a swapped dagger interrupts; a dead target is skipped; and
/// otherwise the attack's own checks decide (`attack_check`: `None` for a
/// valid attack with the same dagger, `Some(true)` for out of range,
/// `Some(false)` for any other refusal). Returns the skip, if any, and
/// whether the skill is now interrupted.
pub fn dagger_strike(interrupted: bool, ready: bool, moved: bool, same_dagger: bool, target_dead: bool,
    attack_check: Option<bool>) -> (r: (Option<StrikeSkip>, bool))
    ensures
        ({
            let stop = interrupted || !ready || moved;
            r == if stop {
                (Some(StrikeSkip::Interrupted), true)
            } else if !same_dagger {
                (Some(StrikeSkip::WeaponChanged), true)
            } else if target_dead {
                (Some(StrikeSkip::TargetDefeated), false)
            } else {
                match attack_check {
                    None => (None::<StrikeSkip>, false),
                    Some(true) => (Some(StrikeSkip::OutOfRange), false),
                    Some(false) => (Some(StrikeSkip::InvalidTarget), false),
                }
            }
        }),
{
    let stop = interrupted || !ready || moved;
    if stop {
        (Some(StrikeSkip::Interrupted), true)
    } else if !same_dagger {
        (Some(StrikeSkip::WeaponChanged), true)
    } else if target_dead {
        (Some(StrikeSkip::TargetDefeated), false)
    } else {
        match attack_check {
            None => (None, false),
            Some(true) => (Some(StrikeSkip::OutOfRange), false),
            Some(false) => (Some(StrikeSkip::InvalidTarget), false),
        }
    }
}

/// The constitution modifier, rounding toward zero as integer division
/// does: (con - 10) / 2.
pub open spec fn con_modifier(con: u8) -> int {
    if con >= 10 { (con - 10) / 2 } else { -((10 - con) / 2) }
}

/// A level read as the signed 32-bit integer it is stored in by the
/// regeneration rule: levels past `i32::MAX` wrap to negative.
pub open spec fn signed_level(level: u32) -> int {
    if level <= i32::MAX { level as int } else { level - 0x1_0000_0000 }
}

/// `signed_level(level) / 5`, rounded toward zero.
pub open spec fn level_fifth(level: u32) -> int {
    let lv = signed_level(level);
    if lv >= 0 { lv / 5 } else { -((-lv) / 5) }
}

/// Hit points regained per tick: 1 + level/5 + the constitution modifier,
/// at least 1.
pub open spec fn regen_per_tick(level: u32, con: u8) -> int {
    let amount = 1 + level_fifth(level) + con_modifier(con);
    if amount < 1 { 1 } else { amount }
}

/// How much a player regenerates per tick.
pub fn regen_amount(level: u32, con: u8) -> (amount: u32)
    ensures
        amount == regen_per_tick(level, con),
{
    let con_mod: i32 = if con >= 10 { ((con - 10) / 2) as i32 } else { -(((10 - con) / 2) as i32) };
    let fifth: i32 = if level <= 0x7fff_ffff {
        (level / 5) as i32
    } else {
        let wrapped: u64 = 0x1_0000_0000u64 - level as u64;
        -((wrapped / 5) as i32)
    };
    let amount: i32 = 1 + fifth + con_mod;
    if amount < 1 { 1 } else { amount as u32 }
}

/// A player regenerates when alive, wounded, and out of combat for
/// `out_of_combat_ms`.
pub fn regenerates(health: u32, max_health: u32, last_combat_at: u64, now: u64, out_of_combat_ms: u64) -> (r: bool)
    ensures
        r == (health > 0 && health < max_health
            && (if now >= last_combat_at { now - last_combat_at } else { 0 }) >= out_of_combat_ms),
{
    health > 0 && health < max_health && now.saturating_sub(last_combat_at) >= out_of_combat_ms
}

/// Health after regenerating `amount`, never above the maximum.
pub fn regenerated(health: u32, max_health: u32, amount: u32) -> (h: u32)
    requires
        health + amount <= u32::MAX,
    ensures
        h == if health + amount < max_health { health + amount } else { max_health as int },
{
    let sum = health + amount;
    if sum < max_health { sum } else { max_health }
}

/// The maximum hit points a level lost leaves: lowered by `hp_loss`, but
/// never below the first level's `level_one_floor` nor below 1.
pub fn level_down_max_hp(max_health: u32, hp_loss: u32, level_one_floor: u32) -> (m: u32)
    ensures
        ({
            let candidate = max_health - hp_loss;
            let floored = if candidate < level_one_floor { level_one_floor as int } else { candidate };
            m == if floored < 1 { 1 } else { floored }
        }),
{
    let candidate: i64 = max_health as i64 - hp_loss as i64;
    let floored: i64 = if candidate < level_one_floor as i64 { level_one_floor as i64 } else { candidate };
    if floored < 1 { 1 } else { floored as u32 }
}

/// A level gained: the level never moves backwards, health fills to the new
/// maximum.
pub fn level_up(level: u32, new_level: u32, new_max_health: u32) -> (r: (u32, u32, u32))
    ensures
        r == (if new_level > level { new_level } else { level }, new_max_health, new_max_health),
{
    (if new_level > level { new_level } else { level }, new_max_health, new_max_health)
}

} // verus!
