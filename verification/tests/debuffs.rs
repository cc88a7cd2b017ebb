use game_rules::debuff::{alcohol_stage, DebuffInfo, Debuffs, Inflicted, COLD_DEBUFF_ID, WET_DEBUFF_ID};

fn info(id: &str, group: Option<&str>, dps: u32, hit_mod: i32, blocks_regen: bool) -> DebuffInfo {
    DebuffInfo { id: id.to_string(), group: group.map(|g| g.to_string()), dps, hit_mod, blocks_regen }
}

#[test]
fn debuffs_add_up_while_active() {
    let mut d = Debuffs::new();
    assert!(matches!(d.inflict(info("bleeding", None, 3, -1, true), 10_000, 0), Inflicted::Added));
    assert!(matches!(d.inflict(info("poison", Some("food"), 2, -2, false), 5_000, 0), Inflicted::Added));
    assert!(d.carries("bleeding", 10_000));
    assert!(!d.carries("bleeding", 10_001));
    assert_eq!(d.remaining("poison", 1_000), 4_000);
    assert_eq!(d.remaining("poison", 6_000), 0);
    assert_eq!(d.remaining("absent", 0), 0);
    assert_eq!(d.debuff_dps(1_000), 5);
    assert_eq!(d.debuff_hit_mod(1_000), -3);
    assert!(d.debuff_blocks_regen(1_000));
    assert_eq!(d.damaging_debuff_ids(1_000), "bleeding+poison");
    assert_eq!(d.debuff_dps(6_000), 3);
    assert_eq!(d.damaging_debuff_ids(6_000), "bleeding");
    assert!(!d.debuff_blocks_regen(10_001));
}

#[test]
fn a_new_debuff_displaces_its_group_and_an_old_one_refreshes() {
    let mut d = Debuffs::new();
    d.inflict(info("poison", Some("food"), 2, 0, false), 5_000, 0);
    assert!(matches!(d.inflict(info("nausea", Some("food"), 0, -1, false), 5_000, 100), Inflicted::Added));
    assert!(!d.carries("poison", 100));
    assert!(d.carries("nausea", 100));
    assert!(matches!(d.inflict(info("nausea", Some("food"), 0, -1, false), 9_000, 200), Inflicted::Refreshed));
    assert_eq!(d.remaining("nausea", 200), 9_000);
    assert_eq!(d.list.len(), 1);
}

#[test]
fn expiry_drops_finished_debuffs_and_reports_drying() {
    let mut d = Debuffs::new();
    d.inflict(info(WET_DEBUFF_ID, None, 0, 0, false), 1_000, 0);
    d.inflict(info("bleeding", None, 1, 0, false), 5_000, 0);
    assert!(d.due(1_000));
    assert_eq!(d.expire(999), (false, false));
    assert_eq!(d.expire(1_000), (true, true));
    assert!(!d.carries(WET_DEBUFF_ID, 1_000));
    assert!(d.carries("bleeding", 1_000));
}

#[test]
fn death_clears_everything() {
    let mut d = Debuffs::new();
    d.inflict(info(WET_DEBUFF_ID, None, 0, 0, false), 1_000, 0);
    assert!(d.clear(500));
    assert!(d.list.is_empty());
    assert!(!d.clear(500));
}

#[test]
fn a_campfire_pulls_wet_and_cold_timers_nearer() {
    let mut d = Debuffs::new();
    d.inflict(info(WET_DEBUFF_ID, None, 0, 0, false), 450_000, 0);
    d.inflict(info(COLD_DEBUFF_ID, None, 0, 0, false), 1_000, 0);
    d.inflict(info("bleeding", None, 1, 0, false), 450_000, 0);
    assert!(d.campfire_pull(9_000, 500));
    assert_eq!(d.remaining(WET_DEBUFF_ID, 0), 441_000);
    assert_eq!(d.remaining(COLD_DEBUFF_ID, 500), 0);
    assert!(d.carries(COLD_DEBUFF_ID, 500));
    assert_eq!(d.remaining("bleeding", 0), 450_000);
    let mut dry = Debuffs::new();
    dry.inflict(info("bleeding", None, 1, 0, false), 450_000, 0);
    assert!(!dry.campfire_pull(9_000, 500));
}

#[test]
fn drinks_within_the_window_add_up() {
    let mut recent = Vec::new();
    assert_eq!(alcohol_stage(&mut recent, 1, 0), "tipsy");
    assert_eq!(alcohol_stage(&mut recent, 1, 60_000), "drunk");
    assert_eq!(alcohol_stage(&mut recent, 1, 120_000), "wasted");
    assert_eq!(alcohol_stage(&mut recent, 1, 2_000_000), "tipsy");
    assert_eq!(recent, vec![(2_000_000, 1)]);
    let mut strong = Vec::new();
    assert_eq!(alcohol_stage(&mut strong, 3, 0), "wasted");
}
