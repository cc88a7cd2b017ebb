use game_rules::enchant::{armor_enchant_success_bp, enchant_success_bp};

#[test]
fn enchant_success_ladder_halves_past_seven_with_one_percent_floor() {
    // Guaranteed range.
    assert_eq!(enchant_success_bp(0), 10_000);
    assert_eq!(enchant_success_bp(4), 10_000);
    // Classic gamble steps.
    assert_eq!(enchant_success_bp(5), 7_500);
    assert_eq!(enchant_success_bp(6), 5_000);
    assert_eq!(enchant_success_bp(7), 2_500);
    // Halving ladder from +8.
    assert_eq!(enchant_success_bp(8), 1_250);
    assert_eq!(enchant_success_bp(9), 625);
    assert_eq!(enchant_success_bp(10), 312);
    assert_eq!(enchant_success_bp(11), 156);
    // 1% floor: 78bp would be below it, and it never drops further.
    assert_eq!(enchant_success_bp(12), 100);
    assert_eq!(enchant_success_bp(50), 100);
    assert_eq!(enchant_success_bp(i32::MAX), 100);
}

#[test]
fn armor_enchant_ladder_is_the_weapon_one_shifted_two_levels_down() {
    assert_eq!(armor_enchant_success_bp(2), 10_000);
    assert_eq!(armor_enchant_success_bp(3), 7_500);
    assert_eq!(armor_enchant_success_bp(5), 2_500);
    assert_eq!(armor_enchant_success_bp(10), 100);
    assert_eq!(armor_enchant_success_bp(i32::MAX), 100);
}

#[test]
fn negative_enchant_levels_are_guaranteed() {
    assert_eq!(enchant_success_bp(-5), 10_000);
    assert_eq!(enchant_success_bp(i32::MIN), 10_000);
    assert_eq!(armor_enchant_success_bp(i32::MIN), 10_000);
}
