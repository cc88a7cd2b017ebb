use game_rules::chat::BlockLists;
use game_rules::interest::{effect_recipients, EventBody, Interest, InterestChange};

fn seen(list: &[(u128, bool)]) -> Vec<(u128, bool)> {
    list.to_vec()
}

fn subjects(list: &[(&str, bool)]) -> Vec<(String, bool)> {
    list.iter().map(|(s, v)| (s.to_string(), *v)).collect()
}

#[test]
fn a_subject_enters_updates_leaves_returns_and_is_deleted() {
    let mut interest = Interest::new();
    let viewer = 7u128;
    assert!(interest.open_view(viewer).is_empty());
    let opened = interest.reconcile(viewer, &subjects(&[])).unwrap();
    assert_eq!(opened.sequence, 1);
    assert!(opened.events.is_empty());

    let out = interest.publish("house:a".to_string(), &seen(&[(viewer, true)]), true, false);
    assert_eq!(out.len(), 1);
    assert!(out[0].viewer == viewer && out[0].sequence == 2);
    assert!(out[0].change == InterestChange::Enter && out[0].body == EventBody::Snapshot);
    assert!(interest.watches_subject(viewer, "house:a"));

    let out = interest.publish("house:a".to_string(), &seen(&[(viewer, true)]), true, false);
    assert!(out.len() == 1 && out[0].change == InterestChange::Update && out[0].body == EventBody::Changes);
    assert_eq!(interest.revision, 2);

    let moved = interest.reconcile(viewer, &subjects(&[("house:a", false)])).unwrap();
    assert_eq!(moved.sequence, 4);
    assert_eq!(moved.events.len(), 1);
    assert!(moved.events[0].subject == "house:a" && moved.events[0].revision == 2);
    assert!(moved.events[0].change == InterestChange::Leave);
    assert!(!interest.watches_subject(viewer, "house:a"));

    let back = interest.reconcile(viewer, &subjects(&[("house:a", true)])).unwrap();
    assert!(back.events.len() == 1 && back.events[0].change == InterestChange::Enter);

    let (revision, out) = interest.remove("house:a").unwrap();
    assert_eq!(revision, 3);
    assert!(out.len() == 1 && out[0].change == InterestChange::Delete && out[0].body == EventBody::Removal);
    assert_eq!(out[0].sequence, 6);
    assert!(!interest.watches_subject(viewer, "house:a"));
    assert!(!interest.has_subject("house:a"));
    assert!(interest.remove("house:a").is_none());
}

#[test]
fn a_subject_leaving_sight_sends_its_last_changes_then_leave() {
    let mut interest = Interest::new();
    interest.open_view(1);
    interest.open_view(2);
    let out = interest.publish("monster:a".to_string(), &seen(&[(1, false), (2, true)]), true, true);
    assert_eq!(out.len(), 1);
    assert!(out[0].viewer == 2 && out[0].change == InterestChange::Enter);
    // Created by its spawn message, it enters with that message.
    assert!(out[0].body == EventBody::Changes);
    let out = interest.publish("monster:a".to_string(), &seen(&[(2, false), (1, false)]), true, true);
    assert_eq!(out.len(), 1);
    assert!(out[0].viewer == 2 && out[0].change == InterestChange::Leave && out[0].body == EventBody::ChangesThenLeave);
    // An existing subject entering sight carries its snapshot.
    let out = interest.publish("monster:a".to_string(), &seen(&[(1, true)]), true, true);
    assert!(out[0].change == InterestChange::Enter && out[0].body == EventBody::Snapshot);
}

#[test]
fn an_update_without_changes_is_not_sent() {
    let mut interest = Interest::new();
    interest.open_view(1);
    interest.publish("item:5".to_string(), &seen(&[(1, true)]), true, false);
    let out = interest.publish("item:5".to_string(), &seen(&[(1, true)]), false, false);
    assert!(out.is_empty());
    assert!(interest.watches_subject(1, "item:5"));
    // Viewers without an open view are skipped.
    let out = interest.publish("item:5".to_string(), &seen(&[(9, true)]), true, false);
    assert!(out.is_empty());
    assert!(!interest.watches_subject(9, "item:5"));
}

#[test]
fn candidates_are_the_watchers_and_those_near() {
    let mut interest = Interest::new();
    interest.open_view(1);
    interest.open_view(2);
    interest.publish("player:x".to_string(), &seen(&[(1, true)]), true, false);
    let mut c = interest.publish_candidates("player:x", &vec![2, 1, 2]);
    c.sort();
    assert_eq!(c, vec![1, 2]);
    interest.publish("hat:3".to_string(), &seen(&[(1, true)]), true, false);
    let mut w = interest.watched_by(1);
    w.sort();
    assert_eq!(w, vec!["hat:3".to_string(), "player:x".to_string()]);
}

#[test]
fn payloadless_tiles_are_pruned_once_unwatched() {
    let mut interest = Interest::new();
    interest.open_view(1);
    interest.publish("terrain:0,0".to_string(), &seen(&[(1, true)]), true, false);
    assert!(!interest.prune_tile("terrain:0,0"));
    let left = interest.reconcile(1, &subjects(&[("terrain:0,0", false)])).unwrap();
    assert!(left.events[0].change == InterestChange::Leave);
    assert!(interest.prune_tile("terrain:0,0"));
    assert!(!interest.has_subject("terrain:0,0"));
    interest.publish("house:b".to_string(), &seen(&[]), true, false);
    assert!(!interest.prune_tile("house:b"));
}

#[test]
fn reopening_a_view_clears_its_membership() {
    let mut interest = Interest::new();
    interest.open_view(1);
    interest.publish("terrain:0,0".to_string(), &seen(&[(1, true)]), true, false);
    let previous = interest.open_view(1);
    assert_eq!(previous, vec!["terrain:0,0".to_string()]);
    assert!(interest.watched_by(1).is_empty());
    assert_eq!(interest.generation, 2);
    assert!(interest.prune_tile("terrain:0,0"));
    let closed = interest.remove_view(1);
    assert!(closed.is_empty());
    assert!(interest.reconcile(1, &subjects(&[])).is_none());
}

#[test]
fn pending_tiles_mark_views_unready() {
    let mut interest = Interest::new();
    interest.open_view(1);
    interest.open_view(2);
    let sent = interest.mark_pending(3, -4, &vec![1, 9]);
    assert_eq!(sent, vec![(1, 1)]);
    assert!(interest.is_pending(3, -4));
    assert_eq!(interest.unready_views(), vec![1]);
    interest.tile_delivered(3, -4);
    assert!(!interest.is_pending(3, -4));
    interest.open_view(1);
    assert!(interest.unready_views().is_empty());
}

#[test]
fn touching_a_subject_gives_it_a_new_revision() {
    let mut interest = Interest::new();
    assert!(!interest.touch("player:1"));
    interest.publish("player:1".to_string(), &seen(&[]), true, false);
    assert!(interest.touch("player:1"));
    assert_eq!(interest.revision, 2);
}

#[test]
fn effects_reach_each_nearby_viewer_once_unless_muted_or_skipped() {
    let mut blocks = BlockLists::new();
    blocks.set_player_blocks(3, vec!["Eve".to_string()]);
    let near = vec![(1u128, true), (2, true), (1, true), (3, true), (4, false), (2, true)];
    assert_eq!(effect_recipients(&near, Some(2), &blocks, Some("Eve")), vec![1]);
    assert_eq!(effect_recipients(&near, None, &blocks, Some("Anna")), vec![1, 2, 3]);
    assert_eq!(effect_recipients(&near, None, &blocks, None), vec![1, 2, 3]);
    // A viewer first listed outside the area is not sent the effect later.
    let near = vec![(5u128, false), (5, true)];
    assert_eq!(effect_recipients(&near, None, &blocks, None), Vec::<u128>::new());
}
