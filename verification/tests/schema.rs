use opencrab::schema::migration_sql;
use opencrab::schema::pending_steps;
use opencrab::schema::step_is_due;
use opencrab::schema::BASELINE_SQL;
use opencrab::schema::SCHEMA_VERSION;
use rusqlite::Connection;

fn user_version(conn: &Connection) -> i64 {
    conn.query_row("PRAGMA user_version", [], |r| r.get(0)).unwrap()
}

fn columns(conn: &Connection, table: &str) -> Vec<String> {
    let mut stmt = conn.prepare(&format!("PRAGMA table_info({table})")).unwrap();
    let names = stmt.query_map([], |r| r.get::<_, String>(1)).unwrap();
    names.map(|n| n.unwrap()).collect()
}

/// Runs the steps, but for those that need the vector extension.
fn migrate(conn: &Connection) {
    conn.execute_batch(BASELINE_SQL).unwrap();
    for target in pending_steps(user_version(conn)) {
        let sql = migration_sql(target).unwrap();
        if step_is_due(user_version(conn), target) && !sql.contains("vec0") {
            conn.execute_batch(sql).unwrap();
            assert_eq!(user_version(conn), target);
        }
    }
}

#[test]
fn fresh_file_lands_on_the_current_version() {
    let conn = Connection::open_in_memory().unwrap();
    migrate(&conn);
    assert_eq!(user_version(&conn), SCHEMA_VERSION);
    assert_eq!(
        columns(&conn, "log"),
        vec![
            "id",
            "ts",
            "summary",
            "detail",
            "origin",
            "project_hash",
            "kind",
            "superseded_by"
        ]
    );
    assert!(columns(&conn, "raw_thread").contains(&"last_growth_ts".to_string()));
    assert_eq!(
        columns(&conn, "consolidation_state"),
        vec!["id", "last_consolidation_max_log_id", "last_consolidation_ts"]
    );
}

#[test]
fn migrating_again_does_nothing() {
    let conn = Connection::open_in_memory().unwrap();
    migrate(&conn);
    migrate(&conn);
    assert_eq!(user_version(&conn), SCHEMA_VERSION);
    assert!(pending_steps(SCHEMA_VERSION).is_empty());
}

#[test]
fn old_rows_survive_and_stay_searchable() {
    let conn = Connection::open_in_memory().unwrap();
    conn.execute_batch(BASELINE_SQL).unwrap();
    conn.execute_batch(
        "INSERT INTO log(ts, summary, detail) VALUES (1002, 'mid note', 'apricot harvests');",
    )
    .unwrap();
    migrate(&conn);
    let (origin, kind): (String, Option<String>) = conn
        .query_row("SELECT origin, kind FROM log", [], |r| Ok((r.get(0)?, r.get(1)?)))
        .unwrap();
    assert_eq!((origin.as_str(), kind), ("self", None));
    let n: i64 = conn
        .query_row(
            "SELECT count(*) FROM log_fts WHERE log_fts MATCH '\"apricot\"'",
            [],
            |r| r.get(0),
        )
        .unwrap();
    assert_eq!(n, 1);
}

#[test]
fn steps_run_in_order_up_to_the_current_version() {
    assert_eq!(pending_steps(0), vec![1, 2, 3, 4, 5, 6, 7, 8, 9]);
    assert_eq!(pending_steps(7), vec![8, 9]);
    assert!(pending_steps(12).is_empty());
    for target in 1..=SCHEMA_VERSION {
        let sql = migration_sql(target).unwrap();
        assert!(sql.ends_with(&format!("PRAGMA user_version = {target};")));
    }
    assert_eq!(migration_sql(0), None);
    assert_eq!(migration_sql(SCHEMA_VERSION + 1), None);
}

#[test]
fn step_that_another_process_took_is_not_due() {
    assert!(step_is_due(3, 4));
    assert!(!step_is_due(4, 4));
    assert!(!step_is_due(9, 4));
}
