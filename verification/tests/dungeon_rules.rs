use game_rules::dungeon::{
    dungeon_depth_band, hidden_in_stair_room, monster_respawn_ms, prop_wall_opposite_dir, respawn_at, roll_chest_gold,
    valid_floor, visit_expired, ChestOpens, Discoveries, DungeonDoors, DungeonResetState, FloorRuntime,
    BOSS_RESPAWN_NEVER, SPAWN_RETRY_MS, STAIR_ROOM_ARRIVAL_GRACE_MS,
};

#[test]
fn respawns_slow_down_with_fewer_players() {
    assert_eq!(monster_respawn_ms(0), 300_000);
    assert_eq!(monster_respawn_ms(1), 300_000);
    assert_eq!(monster_respawn_ms(2), 240_000);
    assert_eq!(monster_respawn_ms(3), 180_000);
    assert_eq!(monster_respawn_ms(4), 150_000);
    assert_eq!(monster_respawn_ms(5), 120_000);
    assert_eq!(monster_respawn_ms(50), 120_000);
    assert_eq!(respawn_at(false, 1_000, 2), 241_000);
    assert_eq!(respawn_at(true, 1_000, 2), BOSS_RESPAWN_NEVER);
}

#[test]
fn depth_bands_are_five_floors() {
    assert_eq!(dungeon_depth_band(1), (1, 5));
    assert_eq!(dungeon_depth_band(5), (1, 5));
    assert_eq!(dungeon_depth_band(6), (6, 10));
    assert_eq!(dungeon_depth_band(255), (251, 255));
}

#[test]
fn props_face_away_from_the_first_wall() {
    assert_eq!(prop_wall_opposite_dir(false, false, false, false), (0, 1));
    assert_eq!(prop_wall_opposite_dir(true, false, false, false), (0, -1));
    assert_eq!(prop_wall_opposite_dir(true, true, false, true), (1, 0));
    assert_eq!(prop_wall_opposite_dir(true, true, true, false), (-1, 0));
    assert_eq!(prop_wall_opposite_dir(true, true, true, true), (0, 0));
}

#[test]
fn the_nightly_reset_runs_once_per_night() {
    let mut s = DungeonResetState::new();
    assert!(!s.tick(10));
    assert!(!s.tick(10));
    assert!(s.tick(11));
    assert!(!s.tick(11));
    assert_eq!(s.save_epoch(11), 10);
    s.complete(11);
    assert_eq!(s.save_epoch(12), 11);
    assert_eq!(DungeonResetState::new().save_epoch(7), 7);
}

#[test]
fn saved_visits_expire_with_the_night() {
    assert!(visit_expired(None, 5));
    assert!(visit_expired(Some(4), 5));
    assert!(!visit_expired(Some(5), 5));
    assert!(valid_floor(-1, 3));
    assert!(valid_floor(-3, 3));
    assert!(!valid_floor(-4, 3));
    assert!(!valid_floor(0, 3));
    assert!(!valid_floor(1, 3));
}

#[test]
fn locked_doors_close_only_for_their_current_opening() {
    let mut doors = DungeonDoors::new();
    let door = (1u8, 7u32);
    let (open, g1) = doors.toggle(door, true);
    assert!(open && doors.is_open(door));
    let g1 = g1.unwrap();
    assert_eq!(doors.opening_of(door), Some(g1));
    // Shut by hand, then reopened: the first timer is stale.
    assert_eq!(doors.toggle(door, true), (false, None));
    let (open, g2) = doors.toggle(door, true);
    assert!(open);
    let g2 = g2.unwrap();
    assert_ne!(g1, g2);
    assert!(!doors.close_locked(door, g1));
    assert!(doors.is_open(door));
    assert!(doors.close_locked(door, g2));
    assert!(!doors.is_open(door));
    assert!(!doors.close_locked(door, g2));
    // Unlocked doors open without a timer.
    assert_eq!(doors.toggle((1, 8), false), (true, None));
}

#[test]
fn stair_rooms_hide_fresh_arrivals_and_sealed_floors() {
    let mut doors = DungeonDoors::new();
    assert!(doors.sealed(2, &vec![3, 4]));
    assert!(!doors.sealed(2, &vec![]));
    doors.toggle((2, 4), true);
    assert!(!doors.sealed(2, &vec![3, 4]));
    assert!(hidden_in_stair_room(true, Some(1_000), 1_000 + STAIR_ROOM_ARRIVAL_GRACE_MS - 1, false));
    assert!(!hidden_in_stair_room(true, Some(1_000), 1_000 + STAIR_ROOM_ARRIVAL_GRACE_MS, false));
    assert!(hidden_in_stair_room(true, None, 50_000, true));
    assert!(!hidden_in_stair_room(false, Some(1_000), 1_000, true));
}

#[test]
fn floors_claim_free_slots_and_despawn_when_empty() {
    let mut floor = FloorRuntime::new(&vec![false, true]);
    floor.arrive(1, 0);
    assert_eq!(floor.claim_free_slots(0), vec![0, 1]);
    assert!(floor.claim_free_slots(0).is_empty());
    floor.spawned(0, Some("m1".to_string()), 0);
    floor.spawned(1, None, 100);
    assert_eq!(floor.slots[1].respawn_at_ms, 100 + SPAWN_RETRY_MS);
    assert!(floor.claim_free_slots(100).is_empty());
    assert_eq!(floor.claim_free_slots(100 + SPAWN_RETRY_MS), vec![1]);
    floor.spawned(1, Some("boss".to_string()), 100 + SPAWN_RETRY_MS);
    assert!(floor.monster_dead(0, 5_000));
    assert!(!floor.monster_dead(9, 5_000));
    assert_eq!(floor.leave(1), vec!["boss".to_string()]);
    floor.reset_if_empty();
    assert_eq!(floor.claim_free_slots(0), vec![0, 1]);
}

#[test]
fn a_chest_opens_once_per_night() {
    let mut opens = ChestOpens::new();
    assert!(opens.claim(5, "crypt", 1_000, 3));
    assert!(opens.opened_since(5, "crypt", 3));
    assert!(!opens.claim(5, "crypt", 1_100, 3));
    assert!(opens.claim(6, "crypt", 1_100, 3));
    assert!(opens.claim(5, "mine", 1_100, 3));
    assert!(opens.claim(5, "crypt", 2_000, 4));
    opens.rollback(5, "crypt", 2_000);
    assert!(!opens.opened_since(5, "crypt", 4));
}

#[test]
fn discoveries_list_everything_known_the_first_time() {
    let mut d = Discoveries::new();
    d.set_dungeon_discoveries(1, vec!["crypt".to_string()]);
    assert!(d.knows(1, "crypt"));
    assert!(d.discover(1, "crypt".to_string()).is_none());
    let mut all = d.discover(1, "mine".to_string()).unwrap();
    all.sort();
    assert_eq!(all, vec!["crypt".to_string(), "mine".to_string()]);
    d.remove_dungeon_discoveries(1);
    assert!(!d.knows(1, "crypt"));
}

#[test]
fn chest_gold_scales_with_depth() {
    for depth in [1u8, 3, 10] {
        for _ in 0..50 {
            let gold = roll_chest_gold(depth);
            assert!(gold >= depth as i64 * 500 && gold <= depth as i64 * 1500);
        }
    }
}

#[test]
fn a_door_cannot_close_on_a_body() {
    let mut doors = DungeonDoors::new();
    let door = (1u8, 9u32);
    // A shut door opens even with someone in the doorway.
    let (open, g) = doors.toggle_unless_occupied(door, true, true);
    assert!(open && g.is_some());
    // An open door with a body in it stays open, keeping its opening.
    assert_eq!(doors.toggle_unless_occupied(door, true, true), (true, None));
    assert!(doors.is_open(door));
    assert_eq!(doors.opening_of(door), g);
    // Once the doorway is clear it shuts.
    assert_eq!(doors.toggle_unless_occupied(door, true, false), (false, None));
    assert!(!doors.is_open(door));
}
