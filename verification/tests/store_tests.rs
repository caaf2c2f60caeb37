use redstore::cli::CliParam;
use redstore::store::Database;

#[test]
fn set_then_get_returns_the_value() {
    let mut db = Database::new();
    db.set("k".to_string(), "v".to_string(), None);
    assert_eq!(db.get("k".to_string(), 12345), Some("v".to_string()));
}

#[test]
fn set_overwrites_unconditionally() {
    let mut db = Database::new();
    db.set("k".to_string(), "old".to_string(), Some(7));
    db.set("k".to_string(), "new".to_string(), None);
    assert_eq!(db.get("k".to_string(), u128::MAX), Some("new".to_string()));
}

#[test]
fn get_of_an_absent_key_returns_nothing() {
    let mut db = Database::new();
    assert_eq!(db.get("missing".to_string(), 0), None);
}

#[test]
fn expired_entry_is_removed_by_the_read() {
    let mut db = Database::new();
    db.set("k".to_string(), "v".to_string(), Some(100));
    // Not yet expired at the expiry instant itself.
    assert_eq!(db.get("k".to_string(), 100), Some("v".to_string()));
    // Past the expiry the read reports the key absent and removes it...
    assert_eq!(db.get("k".to_string(), 101), None);
    // ...so a later read, even at an earlier clock reading, finds nothing.
    assert_eq!(db.get("k".to_string(), 0), None);
    assert_eq!(db.keys("*".to_string()), Vec::<String>::new());
}

#[test]
fn delete_is_idempotent() {
    let mut db = Database::new();
    db.set("k".to_string(), "v".to_string(), None);
    db.delete("k".to_string());
    assert_eq!(db.get("k".to_string(), 0), None);
    db.delete("k".to_string());
    assert_eq!(db.get("k".to_string(), 0), None);
}

#[test]
fn keys_star_lists_all_keys_and_a_pattern_selects_substrings() {
    let mut db = Database::new();
    db.set("mykey".to_string(), "myval".to_string(), None);
    db.set("other".to_string(), "x".to_string(), None);
    let mut all = db.keys("*".to_string());
    all.sort();
    assert_eq!(all, vec!["mykey".to_string(), "other".to_string()]);
    assert_eq!(db.keys("my".to_string()), vec!["mykey".to_string()]);
    // Substring containment, not a prefix match.
    assert_eq!(db.keys("the".to_string()), vec!["other".to_string()]);
    assert_eq!(db.keys("absent".to_string()), Vec::<String>::new());
}

#[test]
fn keys_does_not_filter_expired_entries() {
    let mut db = Database::new();
    db.set("stale".to_string(), "v".to_string(), Some(1));
    assert_eq!(db.keys("*".to_string()), vec!["stale".to_string()]);
}

#[test]
fn config_setup_records_both_settings() {
    let mut db = Database::new();
    let params = vec![
        CliParam::Dir("/data".to_string()),
        CliParam::DbFilename("dump.rdb".to_string()),
    ];
    assert!(!db.can_load_from_disk());
    db.config_setup(&params);
    assert_eq!(db.config_get("dir"), Some("/data".to_string()));
    assert_eq!(db.config_get("dbfilename"), Some("dump.rdb".to_string()));
    assert_eq!(db.config_get("absent"), None);
    assert!(db.can_load_from_disk());
}

#[test]
fn cli_params_parse_switch_value_pairs() {
    let words: Vec<String> = vec![
        "--dir".to_string(),
        " /data ".to_string(),
        "--DbFileName".to_string(),
        "dump.rdb".to_string(),
    ];
    let params = CliParam::from(&words);
    assert_eq!(params.len(), 2);
    match &params[0] {
        CliParam::Dir(d) => assert_eq!(d, "/data"),
        other => panic!("expected a directory setting, got {:?}", other),
    }
    match &params[1] {
        CliParam::DbFilename(f) => assert_eq!(f, "dump.rdb"),
        other => panic!("expected a file name setting, got {:?}", other),
    }
}

#[test]
fn cli_switch_without_a_usable_value_is_skipped() {
    let words: Vec<String> = vec![
        "--dir".to_string(),
        "--dbfilename".to_string(),
        "dump.rdb".to_string(),
    ];
    let params = CliParam::from(&words);
    // `--dir` sees another switch where its value should stand, so only the
    // file name is recognized.
    assert_eq!(params.len(), 1);
    match &params[0] {
        CliParam::DbFilename(f) => assert_eq!(f, "dump.rdb"),
        other => panic!("expected a file name setting, got {:?}", other),
    }
    assert_eq!(CliParam::from(&[]).len(), 0);
    assert_eq!(CliParam::from(&["stray".to_string()]).len(), 0);
}
