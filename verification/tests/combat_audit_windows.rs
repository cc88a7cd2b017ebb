use game_rules::combat_audit::{AuditPlayer, CombatAudit, Config, WindowReason, MAX_MONSTERS, MAX_PLAYER_ATTACK_EVENTS};
use game_rules::keyed::IdSet;

const PLAYER_ID: u128 = 0x5157_0001;

fn watched_player() -> AuditPlayer {
    AuditPlayer { id: PLAYER_ID, name: "watched".to_string(), health: 10, max_health: 10, level: 1 }
}

fn targeting(ids: &[i64]) -> Config {
    let mut character_ids = IdSet::new();
    for id in ids {
        character_ids.insert(*id);
    }
    Config { character_ids, retention_days: 30 }
}

fn setup() -> (CombatAudit, Vec<AuditPlayer>) {
    let mut audit = CombatAudit::new();
    let players = vec![watched_player()];
    audit.register(PLAYER_ID, 6229);
    audit.refresh(Some(targeting(&[6229])), &players, 1000, false);
    (audit, players)
}

#[test]
fn targets_do_not_expire_and_attempt_history_survives_intervals() {
    let (mut audit, players) = setup();
    let p = &players[0];
    {
        let mut attack = audit.attack(p.id, false);
        attack.monster(&mut audit, "m1", "troll");
        attack.resolved(&mut audit, p.health, p, false);
        attack.close(&mut audit);
    }
    audit.refresh(None, &players, 61_000, false);
    audit.kill(p.id, "m1", "troll");
    audit.kill(p.id, "m2", "troll");
    audit.refresh(None, &players, 3 * 86_400_000, false);
    assert!(audit.sessions.contains_key(p.id));
    let first = audit.pending[0].monsters.map.get("troll").unwrap();
    assert_eq!((first.server_attempts, first.misses), (1, 1));
    let second = audit.pending[1].monsters.map.get("troll").unwrap();
    assert_eq!((second.kills, second.kills_without_observed_attempt), (2, 1));
    audit.refresh(Some(targeting(&[])), &players, 3 * 86_400_000 + 1, false);
    assert!(audit.sessions.keys().is_empty());
    assert_eq!(audit.pending.back().unwrap().reason.as_str(), "disabled");
}

#[test]
fn player_attack_details_are_bounded_and_intervals_survive_rotation() {
    let (mut audit, players) = setup();
    let p = &players[0];
    for _ in 0..MAX_PLAYER_ATTACK_EVENTS + 2 {
        let request = audit.player_attack(p.id, "missing").unwrap();
        request.finish(&mut audit, "invalid_target".to_string(), Some("absent from registry".to_string()), None);
    }
    audit.refresh(None, &players, 61_000, false);
    let request = audit.player_attack(p.id, "cancelled").unwrap();
    request.close(&mut audit);
    audit.refresh(None, &players, 121_000, true);
    let first = &audit.pending[0].player_attacks;
    assert_eq!(first.requests, MAX_PLAYER_ATTACK_EVENTS as u64 + 2);
    assert_eq!(first.outcomes.get("invalid_target"), first.requests);
    assert_eq!(first.events.len(), MAX_PLAYER_ATTACK_EVENTS);
    assert_eq!(first.dropped_events, 2);
    let second = &audit.pending[1].player_attacks;
    assert_eq!(second.requests, 1);
    assert_eq!(second.outcomes.get("interrupted"), 1);
    assert!(second.events[0].request_interval_ms.is_some());
}

#[test]
fn actual_health_balances_even_with_overkill_and_full_heal() {
    let (mut audit, mut players) = setup();
    {
        let p = &mut players[0];
        let mut attack = audit.attack(p.id, false);
        attack.monster(&mut audit, "m1", "troll");
        p.health = 0;
        attack.resolved(&mut audit, 10, p, true);
        attack.close(&mut audit);
        audit.death(p.id);
        p.health = 10;
        audit.health(0, p, "revive");
        p.max_health = 15;
        p.health = 15;
        audit.health(10, p, "level_up");
    }
    audit.refresh(None, &players, 61_000, true);
    let row = &audit.pending[0];
    assert_eq!(row.monsters.map.get("troll").unwrap().damage, 10);
    assert_eq!(row.health_lost.get("monster"), 10);
    assert_eq!(row.health_gained.get("revive"), 10);
    assert_eq!(row.health_gained.get("level_up"), 5);
    assert_eq!((row.deaths, row.level_ups), (1, 1));
    assert_eq!(
        i64::from(row.end_hp) - i64::from(row.start_hp),
        row.health_gained.map.entries.iter().map(|e| e.1).sum::<u64>() as i64
            - row.health_lost.map.entries.iter().map(|e| e.1).sum::<u64>() as i64
    );
}

#[test]
fn history_overflow_is_explicit_and_never_claims_zero_attempts() {
    let (mut audit, players) = setup();
    let p = &players[0];
    for i in 0..=MAX_MONSTERS {
        let mut attack = audit.attack(p.id, false);
        attack.monster(&mut audit, &format!("m{i}"), "troll");
        attack.close(&mut audit);
    }
    audit.kill(p.id, "unknown", "troll");
    audit.refresh(None, &players, 61_000, true);
    let row = &audit.pending[0];
    assert!(row.history_overflow);
    assert_eq!(row.monsters.map.get("troll").unwrap().kills_without_observed_attempt, 0);
}

#[test]
fn unresolved_attack_counts_as_rejected_for_its_reason() {
    let (mut audit, players) = setup();
    let p = &players[0];
    let mut attack = audit.attack(p.id, true);
    attack.monster(&mut audit, "m1", "troll");
    attack.close(&mut audit);
    audit.refresh(None, &players, 61_000, true);
    let troll = audit.pending[0].monsters.map.get("troll").unwrap();
    assert_eq!(troll.client_requests, 1);
    assert_eq!(troll.server_attempts, 0);
    assert_eq!(troll.rejected.get("missing_monster"), 1);
    assert!(audit.pending[0].reason == WindowReason::Shutdown);
}

#[test]
fn unaudited_players_leave_the_audit_untouched() {
    let (mut audit, players) = setup();
    assert!(audit.player_attack(PLAYER_ID + 1, "m1").is_none());
    audit.kill(PLAYER_ID + 1, "m1", "troll");
    audit.refresh(None, &players, 61_000, true);
    assert_eq!(audit.pending.len(), 1);
    assert!(audit.pending[0].monsters.map.get("troll").is_none());
}
