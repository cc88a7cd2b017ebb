use game_rules::abilities::{ward_equipment_ok, Abilities, AbilityId, AbilityRejectReason, Cooldowns};

#[test]
fn cooldowns_run_out_and_are_pruned() {
    let mut c = Cooldowns::new();
    c.start(7, AbilityId::Radiance, 5_000);
    assert_eq!(c.cooldown_ms(7, AbilityId::Radiance, 1_000), 4_000);
    assert_eq!(c.cooldown_ms(7, AbilityId::Radiance, 5_000), 0);
    assert_eq!(c.cooldown_ms(7, AbilityId::BowMark, 1_000), 0);
    assert_eq!(c.cooldown_ms(8, AbilityId::Radiance, 1_000), 0);
    c.prune(5_000);
    assert_eq!(c.entries.len(), 0);
}

#[test]
fn radiance_toggles_and_its_cooldown_refuses_reuse() {
    let mut a = Abilities::new();
    assert!(a.try_radiance(1, 7, 0, 10_000, 60_000).is_ok());
    assert!(a.buff_timers(1, 0) == vec![(AbilityId::Radiance, 60_000)]);
    assert!(a.try_radiance(1, 7, 5_000, 10_000, 60_000) == Err(AbilityRejectReason::Cooldown));
    assert!(a.try_radiance(1, 7, 10_000, 10_000, 60_000).is_ok());
    assert!(a.buff_timers(1, 10_000).is_empty());
}

#[test]
fn a_ward_raises_guard_by_a_tenth_for_every_target() {
    let mut a = Abilities::new();
    assert!(a.try_guardian_ward(7, &vec![1, 2], 0, 30_000, 20_000).is_ok());
    assert_eq!(a.guard(1, 25, 1_000), 27);
    assert_eq!(a.guard(2, 9, 1_000), 9);
    assert_eq!(a.guard(2, -5, 1_000), -5);
    assert_eq!(a.guard(3, 25, 1_000), 25);
    assert_eq!(a.guard(1, 25, 20_000), 25);
    assert!(a.try_guardian_ward(7, &vec![1], 1_000, 30_000, 20_000) == Err(AbilityRejectReason::Cooldown));
}

#[test]
fn a_bow_mark_holds_its_target() {
    let mut a = Abilities::new();
    assert!(a.try_bow_mark(1, 7, "m1".to_string(), 0, 0, 5_000, 8_000).is_ok());
    assert!(a.marks_target(1, "m1", 7_999));
    assert!(!a.marks_target(1, "m2", 1_000));
    assert!(!a.marks_target(1, "m1", 8_000));
    assert!(a.try_bow_mark(1, 7, "m2".to_string(), 0, 1_000, 5_000, 8_000) == Err(AbilityRejectReason::Cooldown));
}

#[test]
fn death_clears_buffs_and_the_sweep_drops_what_ran_out() {
    let mut a = Abilities::new();
    a.try_guardian_ward(7, &vec![1], 0, 30_000, 20_000).ok().unwrap();
    a.try_bow_mark(2, 8, "m1".to_string(), 0, 0, 5_000, 8_000).ok().unwrap();
    assert!(a.clear_buffs(1));
    assert!(!a.clear_buffs(1));
    let mut changed = a.tick_buffs(8_000, &vec![]);
    changed.sort();
    assert_eq!(changed, vec![2]);
    assert!(a.buff_timers(2, 8_000).is_empty());
}

#[test]
fn an_invalid_mark_goes_unless_renewed() {
    let mut a = Abilities::new();
    a.try_bow_mark(2, 8, "m1".to_string(), 0, 0, 0, 8_000).ok().unwrap();
    // The mark was seen with an older timer: it was renewed since and stays.
    assert!(a.tick_buffs(1_000, &vec![(2, 7_000)]).is_empty());
    assert!(a.marks_target(2, "m1", 1_000));
    assert_eq!(a.tick_buffs(1_000, &vec![(2, 8_000)]), vec![2]);
    assert!(!a.marks_target(2, "m1", 1_000));
}

#[test]
fn a_ward_needs_a_one_handed_weapon_and_a_shield() {
    assert!(ward_equipment_ok(true, false, true));
    assert!(!ward_equipment_ok(true, true, true));
    assert!(!ward_equipment_ok(false, false, true));
    assert!(!ward_equipment_ok(true, false, false));
}

#[test]
fn cooldowns_are_listed_for_every_ability() {
    let mut a = Abilities::new();
    a.try_radiance(1, 7, 0, 10_000, 60_000).ok().unwrap();
    assert!(a.cooldown_timers(Some(7), 4_000, 1_500) == vec![
        (AbilityId::GuardianWard, 0),
        (AbilityId::Radiance, 6_000),
        (AbilityId::BowMark, 0),
        (AbilityId::DaggerDoubleSlash, 1_500),
    ]);
    assert!(a.cooldown_timers(None, 4_000, 1_500) == vec![
        (AbilityId::GuardianWard, 0),
        (AbilityId::Radiance, 0),
        (AbilityId::BowMark, 0),
        (AbilityId::DaggerDoubleSlash, 0),
    ]);
}
