use game_rules::consent::{answer_consent, answer_consent_at, ConsentTable, PendingConsent};
use game_rules::keyed::StrSet;
use game_rules::friends::{
    request_stop, FriendParty, FriendRefusal, FriendRequestOutcome, FriendRequestStop, Friends,
    FRIEND_PENDING_REQUEST_CAP, MAX_FRIENDS,
};

fn party(player_id: u128, character_id: i64, name: &str) -> FriendParty {
    FriendParty { player_id, character_id, name: name.to_string(), level: 3, class: "ranger".to_string() }
}

#[test]
fn a_request_lives_for_its_ttl() {
    let c = PendingConsent::new_at(1_000, 500);
    assert_eq!(c.expires_at_ms, 1_500);
    assert!(!c.answered);
    assert!(c.awaiting_at(1_499));
    assert!(!c.awaiting_at(1_500));
    assert_eq!(PendingConsent::new_at(u64::MAX - 1, 10).expires_at_ms, u64::MAX);
}

#[test]
fn a_request_made_now_expires_after_the_clock_reading() {
    // The clock reads well past the epoch, so the expiry is past the ttl alone.
    let c = PendingConsent::new(60_000);
    assert!(c.expires_at_ms > 60_000 + 1_000_000_000_000);
    assert!(c.awaiting());
}

#[test]
fn accepting_consumes_and_declining_keeps_the_brake() {
    let mut table = ConsentTable::new();
    table.insert((1, 2), PendingConsent::new_at(0, 1_000));
    table.insert((3, 2), PendingConsent::new_at(0, 1_000));
    assert!(answer_consent_at(&mut table, (1, 2), true, 10));
    assert!(table.get((1, 2)).is_none());
    assert!(answer_consent_at(&mut table, (3, 2), false, 10));
    assert!(table.get((3, 2)).unwrap().answered);
    assert_eq!(table.get((3, 2)).unwrap().expires_at_ms, 1_000);
    // A request is answered once.
    assert!(!answer_consent_at(&mut table, (3, 2), true, 20));
    assert!(!answer_consent_at(&mut table, (1, 2), false, 20));
    // An expired request cannot be answered.
    table.insert((4, 2), PendingConsent::new_at(0, 100));
    assert!(!answer_consent_at(&mut table, (4, 2), true, 100));
    assert!(table.get((4, 2)).is_some());
}

#[test]
fn answering_now_uses_the_clock() {
    let mut table = ConsentTable::new();
    table.insert((1, 2), PendingConsent::new(60_000));
    assert!(answer_consent(&mut table, (1, 2), false));
    assert!(!answer_consent(&mut table, (1, 2), false));
}

#[test]
fn sweeping_drops_expired_requests_and_counts_the_rest() {
    let mut table = ConsentTable::new();
    table.insert((1, 2), PendingConsent::new_at(0, 100));
    table.insert((1, 3), PendingConsent::new_at(0, 1_000));
    table.insert((4, 1), PendingConsent::new_at(0, 1_000));
    assert_eq!(table.sweep_and_count(1, 500), 1);
    assert!(table.get((1, 2)).is_none());
    table.remove_involving(1);
    assert!(table.get((1, 3)).is_none());
    assert!(table.get((4, 1)).is_none());
}

#[test]
fn friend_requests_deliver_ack_and_reciprocate() {
    let mut friends = Friends::new();
    assert!(matches!(friends.request_at(1, 2, 20, 0, 1_000), FriendRequestOutcome::Deliver));
    assert!(matches!(friends.request_at(1, 2, 20, 10, 1_000), FriendRequestOutcome::AckOnly));
    assert!(matches!(friends.request_at(2, 1, 10, 20, 1_000), FriendRequestOutcome::Reciprocated));
    assert!(friends.requests.get((1, 2)).is_none());
}

#[test]
fn a_declined_request_is_refused_until_it_expires() {
    let mut friends = Friends::new();
    assert!(matches!(friends.request_at(1, 2, 20, 0, 1_000), FriendRequestOutcome::Deliver));
    assert!(answer_consent_at(&mut friends.requests, (1, 2), false, 5));
    assert!(matches!(friends.request_at(1, 2, 20, 10, 1_000), FriendRequestOutcome::Fail(FriendRefusal::Declined)));
    assert!(matches!(friends.request_at(1, 2, 20, 1_000, 1_000), FriendRequestOutcome::Deliver));
}

#[test]
fn too_many_pending_requests_are_refused() {
    let mut friends = Friends::new();
    for target in 0..FRIEND_PENDING_REQUEST_CAP as u128 {
        assert!(matches!(friends.request_at(1, 100 + target, 200 + target as i64, 0, 1_000), FriendRequestOutcome::Deliver));
    }
    assert!(matches!(friends.request_at(1, 99, 199, 0, 1_000), FriendRequestOutcome::Fail(FriendRefusal::TooManyPending)));
}

#[test]
fn friends_are_refused_again_and_full_lists_are_refused() {
    let mut friends = Friends::new();
    let a = party(1, 10, "Anna");
    let b = party(2, 20, "Bob");
    friends.establish(&a, &b);
    assert!(friends.is_friend_character(1, 20));
    assert!(friends.is_friend_character(2, 10));
    assert_eq!(friends.list(1)[0].lower_name, "bob");
    assert!(matches!(friends.request_at(1, 2, 20, 0, 1_000), FriendRequestOutcome::Fail(FriendRefusal::AlreadyFriend)));
    assert!(matches!(friends.accept_refusal(2, 1, 10), Some(FriendRefusal::AlreadyFriend)));
    for i in 0..MAX_FRIENDS as i64 {
        friends.insert(3, party(1000 + i as u128, 1000 + i, "X").snapshot());
    }
    assert!(matches!(friends.request_at(3, 1, 10, 0, 1_000), FriendRequestOutcome::Fail(FriendRefusal::OwnListFull)));
    assert!(matches!(friends.accept_refusal(3, 1, 10), Some(FriendRefusal::OwnListFull)));
    assert!(matches!(friends.accept_refusal(1, 3, 30), Some(FriendRefusal::TheirListFull)));
    friends.remove(1, 20);
    assert!(!friends.is_friend_character(1, 20));
    assert!(friends.accept_refusal(1, 2, 20).is_none());
}

#[test]
fn the_friend_list_shows_online_friends_first() {
    let mut friends = Friends::new();
    let mut online = StrSet::new();
    assert_eq!(friends.describe_friends(1, &online), "Friends: no one yet. /friend add <name> asks someone.");
    friends.insert(1, party(2, 20, "Zoe").snapshot());
    friends.insert(1, party(3, 30, "bob").snapshot());
    friends.insert(1, party(4, 40, "Anna").snapshot());
    friends.insert(1, party(5, 50, "Carl").snapshot());
    online.insert("zoe".to_string());
    online.insert("carl".to_string());
    assert_eq!(friends.describe_friends(1, &online), "Friends: Carl (online), Zoe (online), Anna, bob");
}

#[test]
fn friends_are_found_by_name_in_any_case() {
    let mut friends = Friends::new();
    friends.insert(1, party(2, 20, "Zoe").snapshot());
    assert_eq!(friends.friend_by_name(1, "zOE"), Some((20, "Zoe".to_string())));
    assert_eq!(friends.friend_by_name(1, "Zo"), None);
    assert_eq!(friends.friend_by_name(2, "Zoe"), None);
}

#[test]
fn a_block_only_keeps_the_target_from_being_told() {
    let mut open = Friends::new();
    let mut blocked = Friends::new();
    let (a, notify_a) = open.request_friend(1, 2, 20, 0, 1_000, false);
    let (b, notify_b) = blocked.request_friend(1, 2, 20, 0, 1_000, true);
    assert!(matches!(a, FriendRequestOutcome::Deliver));
    assert!(matches!(b, FriendRequestOutcome::Deliver));
    assert!(notify_a);
    assert!(!notify_b);
    assert_eq!(open.requests.get((1, 2)).unwrap().expires_at_ms, 1_000);
    assert_eq!(blocked.requests.get((1, 2)).unwrap().expires_at_ms, 1_000);
    // Asking again is acknowledged without telling the target either way.
    let (again, notify_again) = open.request_friend(1, 2, 20, 10, 1_000, false);
    assert!(matches!(again, FriendRequestOutcome::AckOnly));
    assert!(!notify_again);
}

#[test]
fn an_acknowledged_request_stays_answerable_and_others_are_kept() {
    let mut friends = Friends::new();
    assert!(matches!(friends.request_at(1, 2, 20, 0, 1_000), FriendRequestOutcome::Deliver));
    assert!(matches!(friends.request_at(3, 4, 40, 0, 50), FriendRequestOutcome::Deliver));
    assert!(matches!(friends.request_at(5, 6, 60, 0, 1_000), FriendRequestOutcome::Deliver));
    assert!(matches!(friends.request_at(1, 2, 20, 100, 1_000), FriendRequestOutcome::AckOnly));
    // The pending request keeps its expiry; the expired one is swept.
    assert_eq!(friends.requests.get((1, 2)).unwrap().expires_at_ms, 1_000);
    assert!(friends.requests.get((3, 4)).is_none());
    assert_eq!(friends.requests.get((5, 6)).unwrap().expires_at_ms, 1_000);
    assert!(answer_consent_at(&mut friends.requests, (1, 2), true, 200));
}

#[test]
fn establishing_keeps_existing_friends() {
    let mut friends = Friends::new();
    friends.establish(&party(1, 10, "Anna"), &party(3, 30, "Cleo"));
    friends.establish(&party(1, 10, "Anna"), &party(2, 20, "Bob"));
    let list = friends.list(1);
    assert_eq!(list.len(), 2);
    assert_eq!(list[0].character_id, 30);
    assert_eq!(list[1].character_id, 20);
    assert_eq!(list[1].name, "Bob");
    assert_eq!(friends.list(2).len(), 1);
    // Establishing again adds nobody twice.
    friends.establish(&party(1, 10, "Anna"), &party(2, 20, "Bob"));
    assert_eq!(friends.list(1).len(), 2);
}

#[test]
fn early_friend_request_checks_come_in_order() {
    assert!(matches!(request_stop("abcdefghijk", 10, Some(false), Some((false, false)), false), Some(FriendRequestStop::NameTooLong)));
    assert!(matches!(request_stop("", 10, None, None, false), Some(FriendRequestStop::NoName)));
    assert!(matches!(request_stop("Bob", 10, None, None, false), Some(FriendRequestStop::RequesterGone)));
    assert!(matches!(request_stop("Bob", 10, Some(true), None, false), Some(FriendRequestStop::RequesterIsNpc)));
    assert!(matches!(request_stop("Bob", 10, Some(false), None, false), Some(FriendRequestStop::NotOnline)));
    assert!(matches!(request_stop("Bob", 10, Some(false), Some((true, true)), true), Some(FriendRequestStop::IsSelf)));
    assert!(matches!(request_stop("Bob", 10, Some(false), Some((false, true)), true), Some(FriendRequestStop::TargetIsNpc)));
    assert!(matches!(request_stop("Bob", 10, Some(false), Some((false, false)), true), Some(FriendRequestStop::YouBlockedThem)));
    assert!(request_stop("Bob", 10, Some(false), Some((false, false)), false).is_none());
    // Names are measured in characters, not bytes.
    assert!(request_stop("Ééééé", 5, Some(false), Some((false, false)), false).is_none());
}
