use game_rules::player_snapshot::{update_player_snapshot, PlayerChange, PlayerLook, SnapshotEntry};

const EMOTE: &str = "music";

fn look() -> PlayerLook {
    PlayerLook {
        torch_on: false,
        radiance_on: false,
        wet: false,
        mount: None,
        title: None,
        main_hand: None,
        back: None,
        back_color: None,
        back_texture: None,
        object_type: None,
        object_id: None,
        health: 10,
        max_health: 10,
    }
}

fn appeared<'a>(s: &'a [SnapshotEntry<&'static str>]) -> &'a PlayerLook {
    match &s[0] {
        SnapshotEntry::Appeared(p) => p,
        _ => panic!("first entry is not the player"),
    }
}

fn music_count(s: &[SnapshotEntry<&'static str>]) -> usize {
    s.iter().filter(|e| matches!(e, SnapshotEntry::Music(_) | SnapshotEntry::Instrument(_))).count()
}

#[test]
fn changes_update_the_player_look() {
    let mut s: Vec<SnapshotEntry<&'static str>> = vec![SnapshotEntry::Appeared(look()), SnapshotEntry::Other("x")];
    update_player_snapshot(&mut s, PlayerChange::Torch(true), EMOTE);
    update_player_snapshot(&mut s, PlayerChange::Title(Some("Sir".to_string())), EMOTE);
    update_player_snapshot(&mut s, PlayerChange::Health { health: 4, max_health: 12 }, EMOTE);
    let p = appeared(&s);
    assert!(p.torch_on);
    assert_eq!(p.title.as_deref(), Some("Sir"));
    assert_eq!((p.health, p.max_health), (4, 12));
    update_player_snapshot(&mut s, PlayerChange::Dead, EMOTE);
    assert_eq!(appeared(&s).health, 0);
    assert_eq!(appeared(&s).max_health, 12);
    assert_eq!(s.len(), 2);
    assert!(matches!(s[1], SnapshotEntry::Other("x")));
}

#[test]
fn a_new_start_replaces_the_music_and_other_interactions_stop_it() {
    let mut s: Vec<SnapshotEntry<&'static str>> = vec![SnapshotEntry::Appeared(look())];
    update_player_snapshot(&mut s, PlayerChange::MusicStarted("song a"), EMOTE);
    update_player_snapshot(&mut s, PlayerChange::InstrumentStarted("lute"), EMOTE);
    assert_eq!(s.len(), 2);
    assert!(matches!(s[1], SnapshotEntry::Instrument("lute")));
    // The music emote itself keeps the music playing.
    update_player_snapshot(&mut s, PlayerChange::Interaction { object_type: Some(EMOTE.to_string()), object_id: None }, EMOTE);
    assert_eq!(music_count(&s), 1);
    assert_eq!(appeared(&s).object_type.as_deref(), Some(EMOTE));
    // Any other interaction ends it.
    update_player_snapshot(&mut s, PlayerChange::Interaction { object_type: Some("chair".to_string()), object_id: Some(7) }, EMOTE);
    assert_eq!(music_count(&s), 0);
    assert_eq!(appeared(&s).object_id, Some(7));
    update_player_snapshot(&mut s, PlayerChange::MusicStarted("song b"), EMOTE);
    update_player_snapshot(&mut s, PlayerChange::Interaction { object_type: None, object_id: None }, EMOTE);
    assert_eq!(music_count(&s), 0);
    assert_eq!(s.len(), 1);
}
