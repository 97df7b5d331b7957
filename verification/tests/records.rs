use epicode::records::{backup_info, backups_to_prune, LoadReport};

#[test]
fn only_the_newest_backups_are_kept() {
    let names: Vec<String> = [
        "epicode_20240103_000000.db",
        "epicode_20240101_000000.db",
        "notes.txt",
        "epicode_20240105_000000.db",
        "epicode_20240102_000000.db",
        "epicode_20240106_000000.db",
        "epicode_20240104_000000.db",
        "epicode_20240107_000000.db",
    ]
    .iter()
    .map(|s| s.to_string())
    .collect();
    assert_eq!(
        backups_to_prune(&names, "epicode_", ".db", 5),
        vec!["epicode_20240101_000000.db".to_string(), "epicode_20240102_000000.db".to_string()]
    );
    assert!(backups_to_prune(&names, "epicode_", ".db", 7).is_empty());
    assert!(backups_to_prune(&names, "users_meta_", ".bak", 0).is_empty());
}

#[test]
fn backup_records_carry_their_timestamp() {
    let b = backup_info("epicode_20240101_120000.db", 42).unwrap();
    assert_eq!(b.timestamp, "20240101_120000");
    assert_eq!(b.size_bytes, 42);
    assert_eq!(b.filename, "epicode_20240101_120000.db");
    assert!(backup_info("epicode_x.sql", 1).is_none());
    assert_eq!(backup_info("epicode_.db", 0).unwrap().timestamp, "");
}

#[test]
fn load_report_starts_empty() {
    let r = LoadReport::default();
    assert!(!r.space_ok && !r.kg_ok);
    assert_eq!(r.tetras_loaded, 0);
    assert!(r.space_error.is_none());
}
