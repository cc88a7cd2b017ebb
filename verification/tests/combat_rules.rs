use game_rules::abilities::Abilities;
use game_rules::combat::{
    claim_monster_attack, dagger_remaining, kill_loot_delay_ms, player_blow, dagger_strike, effective_stats, equipped_guard, level_down_max_hp,
    level_up, monster_attack_refusal, monster_blow, regen_amount, regenerated, regenerates, AttackClock, GearPiece,
    StrikeSkip, DEFAULT_MONSTER_ATTACK_COOLDOWN_MS, player_attack_refusal, player_attack_provokes,
    AttackRejectReason, PlayerAttackChecks,
};

#[test]
fn gear_guard_counts_armor_enchants_only() {
    let pieces = vec![
        GearPiece { guard: 3, is_armor: true, enchant: 2 },
        GearPiece { guard: 1, is_armor: false, enchant: 7 },
        GearPiece { guard: -1, is_armor: true, enchant: 0 },
    ];
    assert_eq!(equipped_guard(&pieces), 5);
    assert_eq!(equipped_guard(&vec![]), 0);
}

#[test]
fn effective_stats_default_to_ten_and_include_a_ward() {
    let mut abilities = Abilities::new();
    let s = effective_stats(&abilities, 1, None, 5, 2, 0);
    assert_eq!((s.guard, s.cha), (15, 12));
    let s = effective_stats(&abilities, 1, Some((20, 8)), 0, 0, 0);
    assert_eq!((s.guard, s.cha), (20, 8));
    abilities.try_guardian_ward(9, &vec![1], 0, 1_000, 10_000).ok().unwrap();
    let s = effective_stats(&abilities, 1, Some((20, 8)), 10, 0, 5);
    assert_eq!((s.guard, s.cha), (33, 8));
}

#[test]
fn attacks_keep_their_interval() {
    let mut clock = AttackClock::new();
    let w = clock.claim(1, 10_000, 500, 1_000);
    assert!(w.accepted);
    assert_eq!(w.since_accepted_ms, None);
    let w = clock.claim(1, 10_400, 500, 1_000);
    assert!(!w.accepted);
    assert_eq!((w.since_accepted_ms, w.checked_interval_ms), (Some(400), 500));
    let w = clock.claim(1, 10_700, 500, 1_000);
    assert!(!w.accepted);
    assert_eq!((w.since_accepted_ms, w.checked_interval_ms), (Some(700), 1_000));
    let w = clock.claim(1, 11_000, 500, 1_000);
    assert!(w.accepted);
    assert!(!clock.claim(1, 11_999, 500, 1_000).accepted);
}

#[test]
fn the_dagger_cools_down_and_strikes_in_order() {
    assert_eq!(dagger_remaining(None, 5_000, 3_000), 0);
    assert_eq!(dagger_remaining(Some(4_000), 5_000, 3_000), 2_000);
    assert_eq!(dagger_remaining(Some(1_000), 5_000, 3_000), 0);
    assert!(dagger_strike(true, true, false, true, false, None) == (Some(StrikeSkip::Interrupted), true));
    assert!(dagger_strike(false, true, true, true, false, None) == (Some(StrikeSkip::Interrupted), true));
    assert!(dagger_strike(false, true, false, false, false, None) == (Some(StrikeSkip::WeaponChanged), true));
    assert!(dagger_strike(false, true, false, true, true, None) == (Some(StrikeSkip::TargetDefeated), false));
    assert!(dagger_strike(false, true, false, true, false, Some(true)) == (Some(StrikeSkip::OutOfRange), false));
    assert!(dagger_strike(false, true, false, true, false, Some(false)) == (Some(StrikeSkip::InvalidTarget), false));
    assert!(dagger_strike(false, true, false, true, false, None) == (None, false));
}

#[test]
fn regeneration_scales_with_level_and_constitution() {
    assert_eq!(regen_amount(1, 10), 1);
    assert_eq!(regen_amount(10, 14), 5);
    assert_eq!(regen_amount(1, 3), 1);
    assert_eq!(regen_amount(20, 7), 4);
    assert!(regenerates(5, 10, 0, 20_000, 10_000));
    assert!(!regenerates(5, 10, 15_000, 20_000, 10_000));
    assert!(!regenerates(10, 10, 0, 20_000, 10_000));
    assert_eq!(regenerated(5, 10, 3), 8);
    assert_eq!(regenerated(9, 10, 3), 10);
}

#[test]
fn levels_lost_and_gained_move_max_health() {
    assert_eq!(level_down_max_hp(30, 8, 12), 22);
    assert_eq!(level_down_max_hp(15, 8, 12), 12);
    assert_eq!(level_down_max_hp(5, 8, 0), 1);
    assert_eq!(level_up(3, 4, 40), (4, 40, 40));
    assert_eq!(level_up(5, 4, 40), (5, 40, 40));
}

#[test]
fn monster_attacks_wait_for_their_cooldown() {
    let mut last = 1_000;
    assert!(!claim_monster_attack(&mut last, 2_000, None));
    assert_eq!(last, 1_000);
    assert!(claim_monster_attack(&mut last, 1_000 + DEFAULT_MONSTER_ATTACK_COOLDOWN_MS, None));
    assert_eq!(last, 2_500);
    assert!(!claim_monster_attack(&mut last, 2_600, Some(200)));
    assert!(claim_monster_attack(&mut last, 2_700, Some(200)));
    assert_eq!(last, 2_700);
    let mut future = 9_000;
    assert!(claim_monster_attack(&mut future, 5_000, Some(0)));
}

#[test]
fn monster_attacks_stop_at_the_first_failed_check() {
    assert_eq!(monster_attack_refusal(false, false, false, false, false, false, true), Some("missing_monster"));
    assert_eq!(monster_attack_refusal(true, false, false, false, false, false, true), Some("not_controllable"));
    assert_eq!(monster_attack_refusal(true, true, false, false, false, false, true), Some("cooldown"));
    assert_eq!(monster_attack_refusal(true, true, true, false, false, false, true), Some("target_not_damageable"));
    assert_eq!(monster_attack_refusal(true, true, true, true, false, false, true), Some("unreachable_floor"));
    assert_eq!(monster_attack_refusal(true, true, true, true, true, false, true), Some("out_of_range"));
    assert_eq!(monster_attack_refusal(true, true, true, true, true, true, true), Some("wall"));
    assert_eq!(monster_attack_refusal(true, true, true, true, true, true, false), None);
}

#[test]
fn a_monster_blow_never_drops_health_below_zero() {
    assert_eq!(monster_blow(0, true, 5), None);
    assert_eq!(monster_blow(10, true, 4), Some((6, false)));
    assert_eq!(monster_blow(10, true, 40), Some((0, true)));
    assert_eq!(monster_blow(10, false, 40), Some((10, false)));
}

#[test]
fn a_player_blow_kills_at_zero_and_counts_what_it_took() {
    assert_eq!(player_blow(true, 10, 5), None);
    assert_eq!(player_blow(false, 10, 4), Some((6, 4, false)));
    assert_eq!(player_blow(false, 10, 25), Some((0, 10, true)));
    assert_eq!(player_blow(false, 10, 10), Some((0, 10, true)));
    assert_eq!(kill_loot_delay_ms(true, true, 900, 300), 0);
    assert_eq!(kill_loot_delay_ms(false, true, 900, 300), 900);
    assert_eq!(kill_loot_delay_ms(false, false, 900, 300), 300);
}

fn checks() -> PlayerAttackChecks {
    PlayerAttackChecks {
        monster_present: true,
        monster_dead: false,
        player_ready: true,
        player_alive: true,
        reachable: true,
        in_range: true,
        in_provoke_range: true,
        walled: false,
        needs_ammo: false,
        has_ammo: false,
        ammo_reserved: false,
    }
}

#[test]
fn player_attack_gates_come_in_order() {
    assert_eq!(player_attack_refusal(&checks()), None);
    assert_eq!(player_attack_refusal(&PlayerAttackChecks { monster_present: false, player_ready: false, ..checks() }),
        Some(AttackRejectReason::InvalidTarget));
    assert_eq!(player_attack_refusal(&PlayerAttackChecks { monster_dead: true, ..checks() }), Some(AttackRejectReason::InvalidTarget));
    assert_eq!(player_attack_refusal(&PlayerAttackChecks { player_ready: false, player_alive: false, ..checks() }),
        Some(AttackRejectReason::NotInGame));
    assert_eq!(player_attack_refusal(&PlayerAttackChecks { player_alive: false, reachable: false, ..checks() }),
        Some(AttackRejectReason::AttackerDead));
    assert_eq!(player_attack_refusal(&PlayerAttackChecks { reachable: false, in_range: false, ..checks() }),
        Some(AttackRejectReason::InvalidTarget));
    assert_eq!(player_attack_refusal(&PlayerAttackChecks { in_range: false, ..checks() }), Some(AttackRejectReason::OutOfRange));
    assert_eq!(player_attack_refusal(&PlayerAttackChecks { walled: true, needs_ammo: true, ..checks() }),
        Some(AttackRejectReason::OutOfRange));
    assert_eq!(player_attack_refusal(&PlayerAttackChecks { needs_ammo: true, ..checks() }), Some(AttackRejectReason::OutOfAmmo));
    assert_eq!(player_attack_refusal(&PlayerAttackChecks { needs_ammo: true, has_ammo: true, ammo_reserved: true, ..checks() }),
        Some(AttackRejectReason::OutOfAmmo));
    assert_eq!(player_attack_refusal(&PlayerAttackChecks { needs_ammo: true, has_ammo: true, ..checks() }), None);
}

#[test]
fn only_an_unwalled_near_miss_provokes() {
    assert!(player_attack_provokes(&PlayerAttackChecks { in_range: false, ..checks() }));
    assert!(!player_attack_provokes(&PlayerAttackChecks { in_range: false, walled: true, ..checks() }));
    assert!(!player_attack_provokes(&PlayerAttackChecks { in_range: false, in_provoke_range: false, ..checks() }));
    assert!(!player_attack_provokes(&checks()));
    assert!(!player_attack_provokes(&PlayerAttackChecks { in_range: false, player_alive: false, ..checks() }));
}

#[test]
fn regeneration_reads_the_level_as_a_signed_32_bit_number() {
    assert_eq!(regen_amount(10, 14), 5);
    assert_eq!(regen_amount(0x7fff_ffff, 10), 1 + 429_496_729);
    assert_eq!(regen_amount(0x8000_0000, 18), 1);
    assert_eq!(regen_amount(u32::MAX, 18), 5);
}
