use game_rules::instrument::{valid_instrument_batch, InstrumentLimits, InstrumentNoteEvent, LiveInstruments};
use game_rules::keyed::{IdMap, IdSet, StrMap, StrSet};
use game_rules::movement::{eligible, LockMeasurement, Mix};
use game_rules::text::{to_ascii_lowercase, trimmed};

fn note(note: u32, offset_ms: u32) -> InstrumentNoteEvent {
    InstrumentNoteEvent { note, offset_ms }
}

#[test]
fn note_batches_are_checked_before_relaying() {
    let limits = InstrumentLimits { max_events_per_batch: 3, note_count: 12, batch_ms: 1_000 };
    assert!(valid_instrument_batch(&vec![note(0, 0), note(11, 500), note(3, 500)], &limits));
    assert!(!valid_instrument_batch(&vec![], &limits));
    assert!(!valid_instrument_batch(&vec![note(0, 0), note(1, 1), note(2, 2), note(3, 3)], &limits));
    assert!(!valid_instrument_batch(&vec![note(0, 5)], &limits));
    assert!(!valid_instrument_batch(&vec![note(12, 0)], &limits));
    assert!(!valid_instrument_batch(&vec![note(0, 0), note(1, 1_000)], &limits));
    assert!(!valid_instrument_batch(&vec![note(0, 0), note(1, 600), note(2, 500)], &limits));
}

#[test]
fn live_performances_are_counted() {
    let mut live = LiveInstruments::new();
    assert!(live.no_live_instrument_anywhere());
    assert!(live.start(1));
    assert!(!live.start(1));
    assert!(live.contains(1));
    assert!(!live.no_live_instrument_anywhere());
    assert!(live.remove(1));
    assert!(!live.remove(1));
    assert!(live.no_live_instrument_anywhere());
}

#[test]
fn only_living_players_on_foot_are_steered() {
    assert!(eligible(10, false, false));
    assert!(!eligible(0, false, false));
    assert!(!eligible(10, true, false));
    assert!(!eligible(10, false, true));
}

#[test]
fn load_runs_mix_movers() {
    assert_eq!(Mix::Click.player_mode(3), (false, false));
    assert_eq!(Mix::Keyboard.player_mode(3), (true, false));
    assert_eq!(Mix::MountedKeyboard.player_mode(3), (true, true));
    assert_eq!(Mix::Mixed.player_mode(0), (false, false));
    assert_eq!(Mix::Mixed.player_mode(1), (false, true));
    assert_eq!(Mix::Mixed.player_mode(2), (true, false));
    assert_eq!(Mix::Mixed.player_mode(3), (true, true));
}

#[test]
fn lock_measurement_records_waits_and_holds() {
    let mut m = LockMeasurement::new();
    assert_eq!(m.start(100), None);
    assert!(m.acquired(None, 150).is_none());
    m.start_measurement();
    let started = m.start(100);
    assert_eq!(started, Some(100));
    let timing = m.acquired(started, 150).unwrap();
    assert_eq!((timing.acquired_ns, timing.wait_ns), (150, 50));
    timing.release(&mut m, 400);
    let samples = m.finish_measurement();
    assert_eq!(samples.len(), 1);
    assert_eq!((samples[0].wait_ns, samples[0].hold_ns), (50, 250));
    assert!(!m.enabled);
    assert!(m.samples.is_empty());
}

#[test]
fn keyed_collections_keep_one_entry_per_key() {
    let mut ids: IdMap<u8> = IdMap::new();
    ids.insert(5, 1);
    ids.insert(5, 2);
    assert_eq!(ids.get(5), Some(&2));
    assert_eq!(ids.remove(5), Some(2));
    assert!(!ids.contains_key(5));
    let mut names: StrMap<u8> = StrMap::new();
    names.insert("a".to_string(), 1);
    assert_eq!(names.get("a"), Some(&1));
    assert_eq!(names.remove("a"), Some(1));
    let mut set = StrSet::new();
    set.insert("x".to_string());
    set.insert("x".to_string());
    assert_eq!(set.len(), 1);
    assert!(set.remove("x"));
    let mut chars = IdSet::new();
    chars.insert(3);
    chars.insert(-1);
    chars.insert(3);
    assert_eq!(chars.sorted(), vec![-1, 3]);
    assert!(chars.contains(-1));
}

#[test]
fn text_helpers_lowercase_and_trim() {
    assert_eq!(to_ascii_lowercase("ÀbC-D"), "Àbc-d");
    let cs: Vec<char> = "  hi there \t".chars().collect();
    assert_eq!(trimmed(&cs, 0, cs.len()), (2, 10));
}
