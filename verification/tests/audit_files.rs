use game_rules::audit_files::{date, first_kept_date, is_expired_audit_file, parse_config, ConfigError, DAY_MS};
use game_rules::combat_audit::{CombatAudit, Config};
use game_rules::keyed::IdSet;

fn ids(c: &Config) -> Vec<i64> {
    c.character_ids.sorted()
}

#[test]
fn audit_files_are_named_by_utc_day() {
    assert_eq!(date(0), "1970-01-01");
    assert_eq!(date(DAY_MS - 1), "1970-01-01");
    assert_eq!(date(DAY_MS), "1970-01-02");
    assert_eq!(date(365 * DAY_MS), "1971-01-01");
    assert_eq!(date(1_700_000_000_000), "2023-11-14");
}

#[test]
fn retention_keeps_the_last_days_including_today() {
    assert_eq!(first_kept_date(3 * DAY_MS, 1), "1970-01-04");
    assert_eq!(first_kept_date(3 * DAY_MS, 2), "1970-01-03");
    assert_eq!(first_kept_date(3 * DAY_MS, 30), "1970-01-01");
}

#[test]
fn retention_only_removes_expired_audit_dates() {
    let first_kept = first_kept_date(2 * DAY_MS, 1);
    assert_eq!(first_kept, "1970-01-03");
    assert!(is_expired_audit_file("combat-audit-1970-01-01.jsonl", &first_kept));
    assert!(is_expired_audit_file("combat-audit-1970-01-02.jsonl", &first_kept));
    assert!(!is_expired_audit_file("combat-audit-1970-01-03.jsonl", &first_kept));
    assert!(!is_expired_audit_file("other.jsonl", &first_kept));
    assert!(!is_expired_audit_file("combat-audit-1970-1-01.jsonl", &first_kept));
    assert!(!is_expired_audit_file("combat-audit-1970-01-01.json", &first_kept));
}

#[test]
fn config_reads_positive_ids_and_skips_comments() {
    let c = parse_config("# Watched characters\r\n 6229 \r\n\r\n6229\n", 30).ok().unwrap();
    assert_eq!(ids(&c), vec![6229]);
    assert_eq!(c.retention_days, 30);
    let c = parse_config("6229\n6230\n", 7).ok().unwrap();
    assert_eq!(ids(&c), vec![6229, 6230]);
    let c = parse_config("\n# Nobody\n", 30).ok().unwrap();
    assert!(ids(&c).is_empty());
    let c = parse_config("+42", 30).ok().unwrap();
    assert_eq!(ids(&c), vec![42]);
}

#[test]
fn invalid_configs_are_rejected() {
    assert!(matches!(parse_config("6229", 0), Err(ConfigError::RetentionNotPositive)));
    assert!(matches!(parse_config("-1", 30), Err(ConfigError::InvalidLine(1))));
    assert!(matches!(parse_config("0", 30), Err(ConfigError::InvalidLine(1))));
    assert!(matches!(parse_config("6229\nExamplePlayer", 30), Err(ConfigError::InvalidLine(2))));
    assert!(matches!(parse_config("6229,6230", 30), Err(ConfigError::InvalidLine(1))));
    assert!(matches!(parse_config("9223372036854775808", 30), Err(ConfigError::InvalidLine(1))));
    let many: String = (1..=129).map(|i| format!("{i}\n")).collect();
    assert!(matches!(parse_config(&many, 30), Err(ConfigError::TooManyCharacters)));
    let enough: String = (1..=128).map(|i| format!("{i}\n{i}\n")).collect();
    assert_eq!(ids(&parse_config(&enough, 30).ok().unwrap()).len(), 128);
}

#[test]
fn pruning_is_due_once_per_day_and_retention() {
    let mut audit = CombatAudit::new();
    assert!(audit.prune_due(DAY_MS).is_none());
    let mut character_ids = IdSet::new();
    character_ids.insert(6229);
    audit.refresh(Some(Config { character_ids, retention_days: 30 }), &Vec::new(), 1_000, false);
    let key = audit.prune_due(DAY_MS).unwrap();
    assert_eq!(key, ("1970-01-02".to_string(), 30));
    audit.mark_pruned(key);
    assert!(audit.prune_due(DAY_MS + 5).is_none());
    assert_eq!(audit.prune_due(2 * DAY_MS), Some(("1970-01-03".to_string(), 30)));
}
