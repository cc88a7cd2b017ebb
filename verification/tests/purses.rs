use game_rules::purse::Purses;

#[test]
fn a_new_purse_holds_no_copper() {
    let purses = Purses::new();
    assert_eq!(purses.gold(7), 0);
}

#[test]
fn award_then_spend_moves_exact_sums() {
    let mut purses = Purses::new();
    assert_eq!(purses.award_copper(7, 120), 120);
    assert_eq!(purses.award_copper(7, 5), 125);
    assert_eq!(purses.spend_copper(7, 25), Some(100));
    assert_eq!(purses.gold(7), 100);
    assert_eq!(purses.gold(8), 0);
}

#[test]
fn a_short_purse_spends_nothing() {
    let mut purses = Purses::new();
    purses.award_copper(3, 40);
    assert_eq!(purses.spend_copper(3, 41), None);
    assert_eq!(purses.gold(3), 40);
    assert_eq!(purses.spend_copper(9, 1), None);
    assert_eq!(purses.gold(9), 0);
}

#[test]
fn awarding_back_a_spend_restores_the_purse() {
    let mut purses = Purses::new();
    purses.award_copper(1, 300);
    assert_eq!(purses.spend_copper(1, 300), Some(0));
    assert_eq!(purses.award_copper(1, 300), 300);
}
