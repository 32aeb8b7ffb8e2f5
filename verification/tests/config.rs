use tracker_backend::config::{Config, ConfigError};
use tracker_backend::db::{needs_initial_scan, schema_sql};

fn s(v: &str) -> Option<String> {
    Some(v.to_string())
}

#[test]
fn root_is_required() {
    let e = Config::from_env(None, None, None, false, None, None, None).unwrap_err();
    assert_eq!(e, ConfigError::MissingRoot);
    assert_eq!(
        e.message(),
        "TRACKER_ROOT is required (path to the module collection)"
    );
    assert_eq!(
        Config::from_env(None, None, s(""), true, None, None, None).unwrap_err(),
        ConfigError::MissingRoot
    );
}

#[test]
fn root_must_be_a_directory() {
    let e = Config::from_env(None, None, s("/nope"), false, None, None, None).unwrap_err();
    assert_eq!(e, ConfigError::RootNotADirectory("/nope".into()));
    assert_eq!(e.message(), "TRACKER_ROOT /nope is not a directory");
}

#[test]
fn defaults_apply() {
    let c = Config::from_env(None, None, s("/mods"), true, None, None, None).unwrap();
    assert_eq!(c.root, "/mods");
    assert_eq!(c.bind, "0.0.0.0:3010");
    assert_eq!(c.db_path, "tracker.db");
    assert_eq!(c.static_dir, "./dist");
    assert!(!c.dev_auth);
}

#[test]
fn explicit_values_and_open_mode() {
    let c = Config::from_env(
        s("1"),
        None,
        s("/mods"),
        true,
        s("127.0.0.1:9"),
        s("/data/t.db"),
        s("/www"),
    )
    .unwrap();
    assert!(c.dev_auth);
    assert_eq!(c.bind, "127.0.0.1:9");
    assert_eq!(c.db_path, "/data/t.db");
    assert_eq!(c.static_dir, "/www");
    let c = Config::from_env(None, s("1"), s("/mods"), true, None, None, None).unwrap();
    assert!(c.dev_auth);
    let c = Config::from_env(s("true"), s("0"), s("/mods"), true, None, None, None).unwrap();
    assert!(!c.dev_auth);
}

#[test]
fn schema_declares_both_tables() {
    let sql = schema_sql();
    assert!(sql.contains("CREATE TABLE IF NOT EXISTS files"));
    assert!(sql.contains("CREATE TABLE IF NOT EXISTS meta"));
    assert!(sql.contains("content_hash TEXT PRIMARY KEY"));
}

#[test]
fn migrate_is_idempotent() {
    let conn = rusqlite::Connection::open_in_memory().unwrap();
    conn.execute_batch(schema_sql()).unwrap();
    conn.execute_batch(schema_sql()).unwrap();
    let n: i64 = conn
        .query_row("SELECT COUNT(*) FROM files", [], |r| r.get(0))
        .unwrap();
    assert_eq!(n, 0);
}

#[test]
fn initial_scan_only_for_an_empty_index() {
    assert!(needs_initial_scan(Some(0)));
    assert!(needs_initial_scan(None));
    assert!(!needs_initial_scan(Some(3500)));
}
