use game_rules::movement::GoalMovement;

#[test]
fn request_order_accepts_wraparound_but_rejects_duplicates_and_old_packets() {
    let mut state: GoalMovement<(), ()> = GoalMovement::new(u32::MAX);
    assert!(state.accept(u32::MAX));
    assert!(state.accept(0));
    assert!(!state.accept(u32::MAX));
    assert!(!state.accept(0));
}

#[test]
fn accepted_request_takes_the_movement_and_bumps_the_generation() {
    let mut state: GoalMovement<u8, u8> = GoalMovement::new(7);
    state.pending = Some(1);
    state.plan = Some(2);
    assert!(state.accept(7));
    assert_eq!(state.last_id, 7);
    assert_eq!(state.generation, 1);
    assert!(state.owned);
    assert!(state.pending.is_none());
    assert!(state.plan.is_none());
    // Half the id space ahead is too far: treated as an old packet.
    assert!(!state.accept(7u32.wrapping_add(0x8000_0000)));
    assert_eq!(state.generation, 1);
    assert!(state.accept(7u32.wrapping_add(0x7fff_ffff)));
}
