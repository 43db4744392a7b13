use opencrab::schema::migration_sql;
use opencrab::schema::pending_steps;
use opencrab::schema::step_is_due;
use opencrab::schema::BASELINE_SQL;
use opencrab::schema::SCHEMA_VERSION;
use opencrab::search::build_fts_match;
use opencrab::search::checked_summary;
use opencrab::search::hits_in_order;
use opencrab::search::merge_rankings;
use opencrab::search::plan_search;
use opencrab::search::LogText;
use opencrab::search::MemoryEntry;
use opencrab::search::MemoryHit;
use rusqlite::Connection;
use std::collections::BTreeSet;

fn db_path() -> (tempfile::TempDir, std::path::PathBuf) {
    let tmp = tempfile::tempdir().expect("tempdir");
    let path = tmp.path().join("memory.db");
    (tmp, path)
}

/// The same statements, with an ordinary table in place of the vector table,
/// whose module only an unsafe call can register.
fn plain_vectors(sql: &str) -> String {
    let mut plain = sql.to_string();
    for length in ["4096", "1024"] {
        for guard in ["", "IF NOT EXISTS "] {
            plain = plain.replace(
                &format!("CREATE VIRTUAL TABLE {guard}log_vec USING vec0(embedding float[{length}])"),
                &format!("CREATE TABLE {guard}log_vec (embedding \"float[{length}]\")"),
            );
        }
    }
    assert!(!plain.contains("vec0"));
    plain
}

/// Opens a file and brings it up to date.
fn open(db: &std::path::Path) -> Connection {
    let conn = Connection::open(db).unwrap();
    conn.execute_batch(BASELINE_SQL).unwrap();
    for target in pending_steps(read_user_version(&conn)) {
        if step_is_due(read_user_version(&conn), target) {
            let sql = migration_sql(target).unwrap();
            conn.execute_batch(&plain_vectors(sql)).unwrap();
        }
    }
    conn
}

fn log_progress(db: &std::path::Path, summary: &str, detail: Option<&str>) -> Option<i64> {
    let conn = open(db);
    let summary = checked_summary(summary)?;
    conn.execute(
        "INSERT INTO log(ts, summary, detail, origin) VALUES (?1, ?2, ?3, 'self')",
        (1_000_i64, summary, detail),
    )
    .unwrap();
    Some(conn.last_insert_rowid())
}

fn row(conn: &Connection, id: i64) -> Option<LogText> {
    conn.query_row(
        "SELECT ts, summary, detail FROM log WHERE id = ?1",
        (id,),
        |r| {
            Ok(LogText {
                ts: r.get(0)?,
                summary: r.get(1)?,
                detail: r.get(2)?,
            })
        },
    )
    .ok()
}

fn get(db: &std::path::Path, id: i64) -> MemoryEntry {
    opencrab::search::get(id, row(&open(db), id))
}

fn fts_ranked_ids(conn: &Connection, expr: &str, pool_size: i64) -> Vec<i64> {
    let mut stmt = conn
        .prepare(
            "SELECT log.id FROM log_fts JOIN log ON log.id = log_fts.rowid \
             WHERE log_fts MATCH ?1 AND log.superseded_by IS NULL \
             ORDER BY bm25(log_fts) LIMIT ?2",
        )
        .unwrap();
    let rows = stmt.query_map((expr, pool_size), |r| r.get::<_, i64>(0)).unwrap();
    rows.map(|r| r.unwrap()).collect()
}

/// Searches the text alone.
fn search(db: &std::path::Path, query: &str, limit: usize) -> Vec<MemoryHit> {
    let conn = open(db);
    let Some(plan) = plan_search(query, limit) else {
        return vec![];
    };
    let fts = match &plan.fts_match {
        Some(expr) => fts_ranked_ids(&conn, expr, plan.pool_size as i64),
        None => vec![],
    };
    let ids = merge_rankings(&fts, &vec![], plan.pool_size, limit);
    let rows: Vec<Option<LogText>> = ids.iter().map(|id| row(&conn, *id)).collect();
    hits_in_order(&ids, &rows)
}

/// The schema at version 0.
const V0_DDL: &str = "CREATE TABLE log (
    id      INTEGER PRIMARY KEY AUTOINCREMENT,
    ts      INTEGER NOT NULL,
    summary TEXT    NOT NULL,
    detail  TEXT
);
CREATE VIRTUAL TABLE log_fts USING fts5(
    detail,
    content='log',
    content_rowid='id'
);
CREATE TRIGGER log_ai AFTER INSERT ON log BEGIN
    INSERT INTO log_fts(rowid, detail) VALUES (new.id, new.detail);
END;
CREATE TRIGGER log_ad AFTER DELETE ON log BEGIN
    INSERT INTO log_fts(log_fts, rowid, detail) VALUES('delete', old.id, old.detail);
END;
CREATE TRIGGER log_au AFTER UPDATE ON log BEGIN
    INSERT INTO log_fts(log_fts, rowid, detail) VALUES('delete', old.id, old.detail);
    INSERT INTO log_fts(rowid, detail) VALUES (new.id, new.detail);
END;";

/// The schema at version 1.
const V1_DDL: &str = "CREATE TABLE log (
    id           INTEGER PRIMARY KEY AUTOINCREMENT,
    ts           INTEGER NOT NULL,
    summary      TEXT    NOT NULL,
    detail       TEXT,
    origin       TEXT    NOT NULL DEFAULT 'self',
    project_hash TEXT
);
CREATE VIRTUAL TABLE log_fts USING fts5(
    detail,
    content='log',
    content_rowid='id'
);
CREATE TRIGGER log_ai AFTER INSERT ON log BEGIN
    INSERT INTO log_fts(rowid, detail) VALUES (new.id, new.detail);
END;
CREATE TRIGGER log_ad AFTER DELETE ON log BEGIN
    INSERT INTO log_fts(log_fts, rowid, detail) VALUES('delete', old.id, old.detail);
END;
CREATE TRIGGER log_au AFTER UPDATE ON log BEGIN
    INSERT INTO log_fts(log_fts, rowid, detail) VALUES('delete', old.id, old.detail);
    INSERT INTO log_fts(rowid, detail) VALUES (new.id, new.detail);
END;
CREATE INDEX idx_log_ts ON log(ts);";

/// The schema at version 2.
const V2_DDL: &str = "CREATE TABLE log (
    id           INTEGER PRIMARY KEY AUTOINCREMENT,
    ts           INTEGER NOT NULL,
    summary      TEXT    NOT NULL,
    detail       TEXT,
    origin       TEXT    NOT NULL DEFAULT 'self',
    project_hash TEXT
);
CREATE VIRTUAL TABLE log_fts USING fts5(
    detail,
    content='log',
    content_rowid='id'
);
CREATE TRIGGER log_ai AFTER INSERT ON log BEGIN
    INSERT INTO log_fts(rowid, detail) VALUES (new.id, new.detail);
END;
CREATE TRIGGER log_ad AFTER DELETE ON log BEGIN
    INSERT INTO log_fts(log_fts, rowid, detail) VALUES('delete', old.id, old.detail);
END;
CREATE TRIGGER log_au AFTER UPDATE ON log BEGIN
    INSERT INTO log_fts(log_fts, rowid, detail) VALUES('delete', old.id, old.detail);
    INSERT INTO log_fts(rowid, detail) VALUES (new.id, new.detail);
END;
CREATE INDEX idx_log_ts ON log(ts);
CREATE TABLE raw_thread (
    thread_id        TEXT PRIMARY KEY,
    agent_id         TEXT,
    team_id          TEXT,
    project_hash     TEXT,
    source           TEXT,
    parent_thread_id TEXT,
    cwd              TEXT,
    source_path      TEXT NOT NULL,
    first_seen_ts    INTEGER NOT NULL,
    last_ingest_ts   INTEGER NOT NULL,
    last_offset      INTEGER NOT NULL DEFAULT 0,
    last_line_no     INTEGER NOT NULL DEFAULT 0
);
CREATE TABLE raw_event (
    id          INTEGER PRIMARY KEY,
    thread_id   TEXT NOT NULL REFERENCES raw_thread(thread_id),
    line_no     INTEGER NOT NULL,
    payload     TEXT NOT NULL,
    ingested_at INTEGER NOT NULL,
    UNIQUE(thread_id, line_no)
);
CREATE INDEX idx_raw_event_thread ON raw_event(thread_id);";

/// The schema at version 4.
const V4_DDL: &str = "CREATE TABLE log (
    id           INTEGER PRIMARY KEY AUTOINCREMENT,
    ts           INTEGER NOT NULL,
    summary      TEXT    NOT NULL,
    detail       TEXT,
    origin       TEXT    NOT NULL DEFAULT 'self',
    project_hash TEXT,
    kind         TEXT
);
CREATE VIRTUAL TABLE log_fts USING fts5(
    detail,
    content='log',
    content_rowid='id'
);
CREATE TRIGGER log_ai AFTER INSERT ON log BEGIN
    INSERT INTO log_fts(rowid, detail) VALUES (new.id, new.detail);
END;
CREATE TRIGGER log_ad AFTER DELETE ON log BEGIN
    INSERT INTO log_fts(log_fts, rowid, detail) VALUES('delete', old.id, old.detail);
END;
CREATE TRIGGER log_au AFTER UPDATE ON log BEGIN
    INSERT INTO log_fts(log_fts, rowid, detail) VALUES('delete', old.id, old.detail);
    INSERT INTO log_fts(rowid, detail) VALUES (new.id, new.detail);
END;
CREATE INDEX idx_log_ts ON log(ts);
CREATE TABLE raw_thread (
    thread_id              TEXT PRIMARY KEY,
    agent_id               TEXT,
    team_id                TEXT,
    project_hash           TEXT,
    source                 TEXT,
    parent_thread_id       TEXT,
    cwd                    TEXT,
    source_path            TEXT NOT NULL,
    first_seen_ts          INTEGER NOT NULL,
    last_ingest_ts         INTEGER NOT NULL,
    last_offset            INTEGER NOT NULL DEFAULT 0,
    last_line_no           INTEGER NOT NULL DEFAULT 0,
    last_distilled_line_no INTEGER NOT NULL DEFAULT 0,
    last_growth_ts         INTEGER
);
CREATE TABLE raw_event (
    id          INTEGER PRIMARY KEY,
    thread_id   TEXT NOT NULL REFERENCES raw_thread(thread_id),
    line_no     INTEGER NOT NULL,
    payload     TEXT NOT NULL,
    ingested_at INTEGER NOT NULL,
    UNIQUE(thread_id, line_no)
);
CREATE INDEX idx_raw_event_thread ON raw_event(thread_id);";

/// The schema at version 5.
const V5_DDL: &str = "CREATE TABLE log (
    id           INTEGER PRIMARY KEY AUTOINCREMENT,
    ts           INTEGER NOT NULL,
    summary      TEXT    NOT NULL,
    detail       TEXT,
    origin       TEXT    NOT NULL DEFAULT 'self',
    project_hash TEXT,
    kind         TEXT
);
CREATE VIRTUAL TABLE log_fts USING fts5(detail, content='log', content_rowid='id');
CREATE TRIGGER log_ai AFTER INSERT ON log BEGIN
    INSERT INTO log_fts(rowid, detail) VALUES (new.id, new.detail);
END;
CREATE TRIGGER log_ad AFTER DELETE ON log BEGIN
    INSERT INTO log_fts(log_fts, rowid, detail) VALUES('delete', old.id, old.detail);
END;
CREATE TRIGGER log_au AFTER UPDATE ON log BEGIN
    INSERT INTO log_fts(log_fts, rowid, detail) VALUES('delete', old.id, old.detail);
    INSERT INTO log_fts(rowid, detail) VALUES (new.id, new.detail);
END;
CREATE INDEX idx_log_ts ON log(ts);
CREATE TABLE raw_thread (
    thread_id        TEXT PRIMARY KEY,
    agent_id         TEXT,
    team_id          TEXT,
    project_hash     TEXT,
    source           TEXT,
    parent_thread_id TEXT,
    cwd              TEXT,
    source_path      TEXT NOT NULL,
    first_seen_ts    INTEGER NOT NULL,
    last_ingest_ts   INTEGER NOT NULL,
    last_offset      INTEGER NOT NULL DEFAULT 0,
    last_line_no     INTEGER NOT NULL DEFAULT 0,
    last_distilled_line_no INTEGER NOT NULL DEFAULT 0,
    last_growth_ts   INTEGER
);
CREATE TABLE raw_event (
    id          INTEGER PRIMARY KEY,
    thread_id   TEXT NOT NULL REFERENCES raw_thread(thread_id),
    line_no     INTEGER NOT NULL,
    payload     TEXT NOT NULL,
    ingested_at INTEGER NOT NULL,
    UNIQUE(thread_id, line_no)
);
CREATE INDEX idx_raw_event_thread ON raw_event(thread_id);
CREATE VIRTUAL TABLE log_vec USING vec0(embedding float[4096]);";

/// The schema at version 6.
const V6_DDL: &str = "CREATE TABLE log (
    id           INTEGER PRIMARY KEY AUTOINCREMENT,
    ts           INTEGER NOT NULL,
    summary      TEXT    NOT NULL,
    detail       TEXT,
    origin       TEXT    NOT NULL DEFAULT 'self',
    project_hash TEXT,
    kind         TEXT
);
CREATE VIRTUAL TABLE log_fts USING fts5(detail, content='log', content_rowid='id');
CREATE TRIGGER log_ai AFTER INSERT ON log BEGIN
    INSERT INTO log_fts(rowid, detail) VALUES (new.id, new.detail);
END;
CREATE TRIGGER log_ad AFTER DELETE ON log BEGIN
    INSERT INTO log_fts(log_fts, rowid, detail) VALUES('delete', old.id, old.detail);
END;
CREATE TRIGGER log_au AFTER UPDATE ON log BEGIN
    INSERT INTO log_fts(log_fts, rowid, detail) VALUES('delete', old.id, old.detail);
    INSERT INTO log_fts(rowid, detail) VALUES (new.id, new.detail);
END;
CREATE INDEX idx_log_ts ON log(ts);
CREATE TABLE raw_thread (
    thread_id        TEXT PRIMARY KEY,
    agent_id         TEXT,
    team_id          TEXT,
    project_hash     TEXT,
    source           TEXT,
    parent_thread_id TEXT,
    cwd              TEXT,
    source_path      TEXT NOT NULL,
    first_seen_ts    INTEGER NOT NULL,
    last_ingest_ts   INTEGER NOT NULL,
    last_offset      INTEGER NOT NULL DEFAULT 0,
    last_line_no     INTEGER NOT NULL DEFAULT 0,
    last_distilled_line_no INTEGER NOT NULL DEFAULT 0,
    last_growth_ts   INTEGER
);
CREATE TABLE raw_event (
    id          INTEGER PRIMARY KEY,
    thread_id   TEXT NOT NULL REFERENCES raw_thread(thread_id),
    line_no     INTEGER NOT NULL,
    payload     TEXT NOT NULL,
    ingested_at INTEGER NOT NULL,
    UNIQUE(thread_id, line_no)
);
CREATE INDEX idx_raw_event_thread ON raw_event(thread_id);
CREATE VIRTUAL TABLE log_vec USING vec0(embedding float[1024]);";

/// The schema at version 7.
const V7_DDL: &str = "CREATE TABLE log (
    id           INTEGER PRIMARY KEY AUTOINCREMENT,
    ts           INTEGER NOT NULL,
    summary      TEXT    NOT NULL,
    detail       TEXT,
    origin       TEXT    NOT NULL DEFAULT 'self',
    project_hash TEXT,
    kind         TEXT
);
CREATE VIRTUAL TABLE log_fts USING fts5(detail, content='log', content_rowid='id', tokenize='trigram');
CREATE TRIGGER log_ai AFTER INSERT ON log BEGIN
    INSERT INTO log_fts(rowid, detail) VALUES (new.id, new.detail);
END;
CREATE TRIGGER log_ad AFTER DELETE ON log BEGIN
    INSERT INTO log_fts(log_fts, rowid, detail) VALUES('delete', old.id, old.detail);
END;
CREATE TRIGGER log_au AFTER UPDATE ON log BEGIN
    INSERT INTO log_fts(log_fts, rowid, detail) VALUES('delete', old.id, old.detail);
    INSERT INTO log_fts(rowid, detail) VALUES (new.id, new.detail);
END;
CREATE INDEX idx_log_ts ON log(ts);
CREATE TABLE raw_thread (
    thread_id        TEXT PRIMARY KEY,
    agent_id         TEXT,
    team_id          TEXT,
    project_hash     TEXT,
    source           TEXT,
    parent_thread_id TEXT,
    cwd              TEXT,
    source_path      TEXT NOT NULL,
    first_seen_ts    INTEGER NOT NULL,
    last_ingest_ts   INTEGER NOT NULL,
    last_offset      INTEGER NOT NULL DEFAULT 0,
    last_line_no     INTEGER NOT NULL DEFAULT 0,
    last_distilled_line_no INTEGER NOT NULL DEFAULT 0,
    last_growth_ts   INTEGER
);
CREATE TABLE raw_event (
    id          INTEGER PRIMARY KEY,
    thread_id   TEXT NOT NULL REFERENCES raw_thread(thread_id),
    line_no     INTEGER NOT NULL,
    payload     TEXT NOT NULL,
    ingested_at INTEGER NOT NULL,
    UNIQUE(thread_id, line_no)
);
CREATE INDEX idx_raw_event_thread ON raw_event(thread_id);
CREATE VIRTUAL TABLE log_vec USING vec0(embedding float[1024]);";

/// The schema at version 8.
const V8_DDL: &str = "CREATE TABLE log (
    id            INTEGER PRIMARY KEY AUTOINCREMENT,
    ts            INTEGER NOT NULL,
    summary       TEXT    NOT NULL,
    detail        TEXT,
    origin        TEXT    NOT NULL DEFAULT 'self',
    project_hash  TEXT,
    kind          TEXT,
    superseded_by INTEGER REFERENCES log(id)
);
CREATE VIRTUAL TABLE log_fts USING fts5(detail, content='log', content_rowid='id', tokenize='trigram');
CREATE TRIGGER log_ai AFTER INSERT ON log BEGIN
    INSERT INTO log_fts(rowid, detail) VALUES (new.id, new.detail);
END;
CREATE TRIGGER log_ad AFTER DELETE ON log BEGIN
    INSERT INTO log_fts(log_fts, rowid, detail) VALUES('delete', old.id, old.detail);
END;
CREATE TRIGGER log_au AFTER UPDATE ON log BEGIN
    INSERT INTO log_fts(log_fts, rowid, detail) VALUES('delete', old.id, old.detail);
    INSERT INTO log_fts(rowid, detail) VALUES (new.id, new.detail);
END;
CREATE INDEX idx_log_ts ON log(ts);
CREATE TABLE raw_thread (
    thread_id        TEXT PRIMARY KEY,
    agent_id         TEXT,
    team_id          TEXT,
    project_hash     TEXT,
    source           TEXT,
    parent_thread_id TEXT,
    cwd              TEXT,
    source_path      TEXT NOT NULL,
    first_seen_ts    INTEGER NOT NULL,
    last_ingest_ts   INTEGER NOT NULL,
    last_offset      INTEGER NOT NULL DEFAULT 0,
    last_line_no     INTEGER NOT NULL DEFAULT 0,
    last_distilled_line_no INTEGER NOT NULL DEFAULT 0,
    last_growth_ts   INTEGER
);
CREATE TABLE raw_event (
    id          INTEGER PRIMARY KEY,
    thread_id   TEXT NOT NULL REFERENCES raw_thread(thread_id),
    line_no     INTEGER NOT NULL,
    payload     TEXT NOT NULL,
    ingested_at INTEGER NOT NULL,
    UNIQUE(thread_id, line_no)
);
CREATE INDEX idx_raw_event_thread ON raw_event(thread_id);
CREATE VIRTUAL TABLE log_vec USING vec0(embedding float[1024]);
CREATE TABLE log_contradiction (
    id_a     INTEGER NOT NULL,
    id_b     INTEGER NOT NULL,
    audit_id INTEGER,
    PRIMARY KEY (id_a, id_b)
);
CREATE TABLE log_consolidation_audit (
    id            INTEGER PRIMARY KEY,
    run_ts        INTEGER NOT NULL,
    kp_a          INTEGER NOT NULL,
    kp_b          INTEGER NOT NULL,
    distance      REAL,
    relation      TEXT    NOT NULL,
    action        TEXT    NOT NULL,
    rationale     TEXT,
    superseded_id INTEGER,
    dry_run       INTEGER NOT NULL,
    applied       INTEGER NOT NULL
);";

fn read_user_version(conn: &Connection) -> i64 {
    conn.query_row("PRAGMA user_version", [], |row| row.get(0))
        .unwrap()
}

fn log_columns(conn: &Connection) -> BTreeSet<String> {
    let mut stmt = conn.prepare("PRAGMA table_info(log)").unwrap();
    let names = stmt.query_map([], |row| row.get::<_, String>(1)).unwrap();
    names.map(|n| n.unwrap()).collect()
}

fn expected_log_columns() -> BTreeSet<String> {
    [
        "id",
        "ts",
        "summary",
        "detail",
        "origin",
        "project_hash",
        "kind",
        "superseded_by",
    ]
    .iter()
    .map(|s| (*s).to_string())
    .collect()
}

fn schema_object_exists(conn: &Connection, ty: &str, name: &str) -> bool {
    let n: i64 = conn
        .query_row(
            "SELECT count(*) FROM sqlite_master WHERE type = ?1 AND name = ?2",
            (ty, name),
            |r| r.get(0),
        )
        .unwrap();
    n == 1
}

fn expected_raw_thread_columns() -> BTreeSet<String> {
    [
        "thread_id",
        "agent_id",
        "team_id",
        "project_hash",
        "source",
        "parent_thread_id",
        "cwd",
        "source_path",
        "first_seen_ts",
        "last_ingest_ts",
        "last_offset",
        "last_line_no",
        "last_distilled_line_no",
        "last_growth_ts",
    ]
    .iter()
    .map(|s| (*s).to_string())
    .collect()
}

fn expected_raw_event_columns() -> BTreeSet<String> {
    ["id", "thread_id", "line_no", "payload", "ingested_at"]
        .iter()
        .map(|s| (*s).to_string())
        .collect()
}

fn table_columns(conn: &Connection, table: &str) -> BTreeSet<String> {
    let sql = format!("PRAGMA table_info({table})");
    let mut stmt = conn.prepare(&sql).unwrap();
    let names = stmt.query_map([], |row| row.get::<_, String>(1)).unwrap();
    names.map(|n| n.unwrap()).collect()
}

#[derive(Debug, Clone, PartialEq, Eq)]
struct V0Row {
    id: i64,
    ts: i64,
    summary: String,
    detail: Option<String>,
}

fn build_v0_db(db_path: &std::path::Path) -> Vec<V0Row> {
    let conn = Connection::open(db_path).unwrap();
    let _: String = conn
        .query_row("PRAGMA journal_mode=WAL", [], |r| r.get(0))
        .unwrap();
    conn.execute_batch(&plain_vectors(V0_DDL)).unwrap();
    conn.execute_batch("PRAGMA user_version = 0;").unwrap();

    let seeds: [(i64, &str, Option<&str>); 3] = [
        (1001, "early note", None),
        (
            1002,
            "mid note about apricot",
            Some("Wrote thoughts about apricot harvests and bananas."),
        ),
        (
            1003,
            "late note about cherry",
            Some("A separate cherry-themed planning chunk."),
        ),
    ];
    let mut rows = Vec::new();
    for (ts, summary, detail) in seeds {
        conn.execute(
            "INSERT INTO log(ts, summary, detail) VALUES (?1, ?2, ?3)",
            (ts, summary, detail),
        )
        .unwrap();
        rows.push(V0Row {
            id: conn.last_insert_rowid(),
            ts,
            summary: summary.to_string(),
            detail: detail.map(|s| s.to_string()),
        });
    }
    drop(conn);
    rows
}

#[derive(Debug, Clone, PartialEq, Eq)]
struct V1Row {
    id: i64,
    ts: i64,
    summary: String,
    detail: Option<String>,
    origin: String,
    project_hash: Option<String>,
}

fn build_v1_db(db_path: &std::path::Path) -> Vec<V1Row> {
    let conn = Connection::open(db_path).unwrap();
    let _: String = conn
        .query_row("PRAGMA journal_mode=WAL", [], |r| r.get(0))
        .unwrap();
    conn.execute_batch(&plain_vectors(V1_DDL)).unwrap();
    conn.execute_batch("PRAGMA user_version = 1;").unwrap();

    let seeds: [(i64, &str, Option<&str>, &str, Option<&str>); 3] = [
        (2001, "v1 self default", None, "self", None),
        (
            2002,
            "v1 inbox flagged",
            Some("Sourced from inbox tag."),
            "inbox",
            Some("abc123def456"),
        ),
        (
            2003,
            "v1 self with detail",
            Some("Plain self entry."),
            "self",
            None,
        ),
    ];
    let mut rows = Vec::new();
    for (ts, summary, detail, origin, project_hash) in seeds {
        conn.execute(
            "INSERT INTO log(ts, summary, detail, origin, project_hash) \
             VALUES (?1, ?2, ?3, ?4, ?5)",
            (ts, summary, detail, origin, project_hash),
        )
        .unwrap();
        rows.push(V1Row {
            id: conn.last_insert_rowid(),
            ts,
            summary: summary.to_string(),
            detail: detail.map(|s| s.to_string()),
            origin: origin.to_string(),
            project_hash: project_hash.map(|s| s.to_string()),
        });
    }
    drop(conn);
    rows
}

fn build_v2_db(db_path: &std::path::Path) {
    let conn = Connection::open(db_path).unwrap();
    let _: String = conn
        .query_row("PRAGMA journal_mode=WAL", [], |r| r.get(0))
        .unwrap();
    conn.execute_batch(&plain_vectors(V2_DDL)).unwrap();
    conn.execute_batch("PRAGMA user_version = 2;").unwrap();
}

fn build_v4_db(db_path: &std::path::Path) {
    let conn = Connection::open(db_path).unwrap();
    let _: String = conn
        .query_row("PRAGMA journal_mode=WAL", [], |r| r.get(0))
        .unwrap();
    conn.execute_batch(&plain_vectors(V4_DDL)).unwrap();
    conn.execute_batch("PRAGMA user_version = 4;").unwrap();
}

fn log_vec_ddl(conn: &Connection) -> String {
    conn.query_row(
        "SELECT sql FROM sqlite_master WHERE type='table' AND name='log_vec'",
        [],
        |r| r.get(0),
    )
    .unwrap()
}

fn log_fts_ddl(conn: &Connection) -> String {
    conn.query_row(
        "SELECT sql FROM sqlite_master WHERE type='table' AND name='log_fts'",
        [],
        |r| r.get(0),
    )
    .unwrap()
}

#[test]
fn schema_creation_is_idempotent() {
    let (_tmp, db) = db_path();
    drop(open(&db));
    assert!(db.exists(), "open must create the db file");
    let conn = open(&db);
    let table_count: i64 = conn
        .query_row(
            "SELECT count(*) FROM sqlite_master WHERE type='table' AND name='log'",
            [],
            |row| row.get(0),
        )
        .unwrap();
    assert_eq!(table_count, 1);
    let trigger_count: i64 = conn
        .query_row(
            "SELECT count(*) FROM sqlite_master WHERE type='trigger' AND name LIKE 'log_%'",
            [],
            |row| row.get(0),
        )
        .unwrap();
    assert_eq!(trigger_count, 3);
}

#[test]
fn s1_a1_fresh_db_lands_on_current_schema() {
    let (_tmp, db) = db_path();
    let conn = open(&db);
    assert_eq!(read_user_version(&conn), SCHEMA_VERSION);
    assert_eq!(log_columns(&conn), expected_log_columns());
    assert!(schema_object_exists(&conn, "table", "log_fts"));
    assert!(schema_object_exists(&conn, "trigger", "log_ai"));
    assert!(schema_object_exists(&conn, "trigger", "log_ad"));
    assert!(schema_object_exists(&conn, "trigger", "log_au"));
    assert!(schema_object_exists(&conn, "index", "idx_log_ts"));
}

#[test]
fn s1_a2_fresh_db_log_progress_sets_default_provenance() {
    let (_tmp, db) = db_path();
    let id = log_progress(&db, "first entry", Some("body")).unwrap();
    let conn = open(&db);
    let (ts, summary, detail, origin, project_hash): (
        i64,
        String,
        Option<String>,
        String,
        Option<String>,
    ) = conn
        .query_row(
            "SELECT ts, summary, detail, origin, project_hash \
             FROM log WHERE id = ?1",
            (id,),
            |r| Ok((r.get(0)?, r.get(1)?, r.get(2)?, r.get(3)?, r.get(4)?)),
        )
        .unwrap();
    assert!(ts > 0);
    assert_eq!(summary, "first entry");
    assert_eq!(detail.as_deref(), Some("body"));
    assert_eq!(origin, "self");
    assert!(project_hash.is_none());
}

#[test]
fn s1_b1_open_thrice_is_idempotent_and_user_version_stays_at_target() {
    let (_tmp, db) = db_path();
    for _ in 0..3 {
        let conn = open(&db);
        assert_eq!(read_user_version(&conn), SCHEMA_VERSION);
    }
}

#[test]
fn s1_b2_reopen_existing_db_preserves_rows_and_version() {
    let (_tmp, db) = db_path();
    let id_a = log_progress(&db, "kept summary", Some("kept body")).unwrap();
    let id_b = log_progress(&db, "second kept", None).unwrap();
    let conn = open(&db);
    assert_eq!(read_user_version(&conn), SCHEMA_VERSION);
    let a = get(&db, id_a);
    assert!(a.found);
    assert_eq!(a.summary, "kept summary");
    assert_eq!(a.detail.as_deref(), Some("kept body"));
    let b = get(&db, id_b);
    assert!(b.found);
    assert_eq!(b.summary, "second kept");
    assert_eq!(b.detail, None);
}

#[test]
fn s1_c1_upgrades_v0_db_to_v1_preserving_old_rows() {
    let (_tmp, db) = db_path();
    let seeded = build_v0_db(&db);

    let conn = open(&db);
    assert_eq!(read_user_version(&conn), SCHEMA_VERSION);
    assert_eq!(log_columns(&conn), expected_log_columns());
    assert!(schema_object_exists(&conn, "index", "idx_log_ts"));

    let mut stmt = conn
        .prepare(
            "SELECT id, ts, summary, detail, origin, project_hash \
             FROM log ORDER BY id",
        )
        .unwrap();
    let upgraded: Vec<(i64, i64, String, Option<String>, String, Option<String>)> = stmt
        .query_map([], |r| {
            Ok((
                r.get(0)?,
                r.get(1)?,
                r.get(2)?,
                r.get(3)?,
                r.get(4)?,
                r.get(5)?,
            ))
        })
        .unwrap()
        .map(|r| r.unwrap())
        .collect();

    assert_eq!(upgraded.len(), seeded.len());
    for (after, before) in upgraded.iter().zip(seeded.iter()) {
        assert_eq!(after.0, before.id);
        assert_eq!(after.1, before.ts);
        assert_eq!(after.2, before.summary);
        assert_eq!(after.3, before.detail);
        assert_eq!(after.4, "self");
        assert!(after.5.is_none());
    }
}

#[test]
fn s1_c2_fts_still_finds_old_rows_after_upgrade() {
    let (_tmp, db) = db_path();
    let seeded = build_v0_db(&db);
    drop(open(&db));

    let hits = search(&db, "apricot", 6);
    assert_eq!(hits.len(), 1, "hits = {hits:?}");
    let expected = &seeded[1];
    assert_eq!(hits[0].id, expected.id);
    assert_eq!(hits[0].ts, expected.ts);
    assert_eq!(hits[0].summary, expected.summary);
    assert!(
        hits[0].snippet.contains("apricot"),
        "snippet = {}",
        hits[0].snippet
    );
}

#[test]
fn s1_c3_log_progress_after_upgrade_writes_provenance_and_fts() {
    let (_tmp, db) = db_path();
    let seeded = build_v0_db(&db);
    let new_id = log_progress(
        &db,
        "post-upgrade apricot follow-up",
        Some("Another apricot dive after the schema migration."),
    )
    .unwrap();

    let conn = open(&db);
    let (origin, project_hash): (String, Option<String>) = conn
        .query_row(
            "SELECT origin, project_hash FROM log WHERE id = ?1",
            (new_id,),
            |r| Ok((r.get(0)?, r.get(1)?)),
        )
        .unwrap();
    assert_eq!(origin, "self");
    assert!(project_hash.is_none());

    let hits = search(&db, "apricot", 6);
    let ids: Vec<i64> = hits.iter().map(|h| h.id).collect();
    let old_apricot_id = seeded[1].id;
    assert!(
        ids.contains(&old_apricot_id),
        "expected old apricot row {old_apricot_id} in hits {ids:?}"
    );
    assert!(
        ids.contains(&new_id),
        "expected new apricot row {new_id} in hits {ids:?}"
    );
}

#[test]
fn s2s_a1_fresh_db_lands_on_v2_schema_with_raw_tables() {
    let (_tmp, db) = db_path();
    let conn = open(&db);
    assert_eq!(read_user_version(&conn), SCHEMA_VERSION);
    assert!(schema_object_exists(&conn, "table", "raw_thread"));
    assert!(schema_object_exists(&conn, "table", "raw_event"));
    assert!(schema_object_exists(&conn, "index", "idx_raw_event_thread"));
    assert_eq!(log_columns(&conn), expected_log_columns());
    assert!(schema_object_exists(&conn, "index", "idx_log_ts"));
}

#[test]
fn s2s_a2_raw_tables_have_expected_columns_and_unique_constraint() {
    let (_tmp, db) = db_path();
    let conn = open(&db);
    assert_eq!(table_columns(&conn, "raw_thread"), expected_raw_thread_columns());
    assert_eq!(table_columns(&conn, "raw_event"), expected_raw_event_columns());

    conn.execute(
        "INSERT INTO raw_thread(thread_id, source_path, first_seen_ts, last_ingest_ts) \
         VALUES (?1, ?2, ?3, ?4)",
        ("thr-1", "/tmp/rollout.jsonl", 0_i64, 0_i64),
    )
    .unwrap();

    conn.execute(
        "INSERT INTO raw_event(thread_id, line_no, payload, ingested_at) \
         VALUES (?1, ?2, ?3, ?4)",
        ("thr-1", 1_i64, "{}", 0_i64),
    )
    .unwrap();
    let err = conn
        .execute(
            "INSERT INTO raw_event(thread_id, line_no, payload, ingested_at) \
             VALUES (?1, ?2, ?3, ?4)",
            ("thr-1", 1_i64, "{}", 0_i64),
        )
        .unwrap_err();
    let msg = err.to_string().to_lowercase();
    assert!(
        msg.contains("unique") || msg.contains("constraint"),
        "expected UNIQUE violation, got: {err}"
    );
}

#[test]
fn s2s_b1_open_thrice_is_idempotent_at_v2() {
    let (_tmp, db) = db_path();
    for _ in 0..3 {
        let conn = open(&db);
        assert_eq!(read_user_version(&conn), SCHEMA_VERSION);
        assert!(schema_object_exists(&conn, "table", "raw_thread"));
        assert!(schema_object_exists(&conn, "table", "raw_event"));
    }
}

#[test]
fn s2s_b2_reopen_v2_db_preserves_raw_rows_and_version() {
    let (_tmp, db) = db_path();
    {
        let conn = open(&db);
        conn.execute(
            "INSERT INTO raw_thread(thread_id, agent_id, source_path, first_seen_ts, last_ingest_ts) \
             VALUES (?1, ?2, ?3, ?4, ?5)",
            ("thr-keep", "agent-a", "/tmp/keep.jsonl", 100_i64, 200_i64),
        )
        .unwrap();
        for line_no in 1..=2_i64 {
            conn.execute(
                "INSERT INTO raw_event(thread_id, line_no, payload, ingested_at) \
                 VALUES (?1, ?2, ?3, ?4)",
                ("thr-keep", line_no, format!("{{\"n\":{line_no}}}"), 200_i64),
            )
            .unwrap();
        }
    }

    let conn = open(&db);
    assert_eq!(read_user_version(&conn), SCHEMA_VERSION);

    let (agent_id, source_path, first_seen_ts, last_ingest_ts): (
        Option<String>,
        String,
        i64,
        i64,
    ) = conn
        .query_row(
            "SELECT agent_id, source_path, first_seen_ts, last_ingest_ts \
             FROM raw_thread WHERE thread_id = ?1",
            ("thr-keep",),
            |r| Ok((r.get(0)?, r.get(1)?, r.get(2)?, r.get(3)?)),
        )
        .unwrap();
    assert_eq!(agent_id.as_deref(), Some("agent-a"));
    assert_eq!(source_path, "/tmp/keep.jsonl");
    assert_eq!(first_seen_ts, 100);
    assert_eq!(last_ingest_ts, 200);

    let mut stmt = conn
        .prepare(
            "SELECT line_no, payload FROM raw_event \
             WHERE thread_id = ?1 ORDER BY line_no",
        )
        .unwrap();
    let events: Vec<(i64, String)> = stmt
        .query_map(("thr-keep",), |r| Ok((r.get(0)?, r.get(1)?)))
        .unwrap()
        .map(|r| r.unwrap())
        .collect();
    assert_eq!(
        events,
        vec![(1_i64, "{\"n\":1}".to_string()), (2_i64, "{\"n\":2}".to_string())]
    );
}

#[test]
fn s2s_c1_upgrades_v1_db_to_v2_preserving_log_rows_and_provenance() {
    let (_tmp, db) = db_path();
    let seeded = build_v1_db(&db);

    let conn = open(&db);
    assert_eq!(read_user_version(&conn), SCHEMA_VERSION);
    assert!(schema_object_exists(&conn, "table", "raw_thread"));
    assert!(schema_object_exists(&conn, "table", "raw_event"));
    assert!(schema_object_exists(&conn, "index", "idx_raw_event_thread"));

    let mut stmt = conn
        .prepare(
            "SELECT id, ts, summary, detail, origin, project_hash \
             FROM log ORDER BY id",
        )
        .unwrap();
    let upgraded: Vec<V1Row> = stmt
        .query_map([], |r| {
            Ok(V1Row {
                id: r.get(0)?,
                ts: r.get(1)?,
                summary: r.get(2)?,
                detail: r.get(3)?,
                origin: r.get(4)?,
                project_hash: r.get(5)?,
            })
        })
        .unwrap()
        .map(|r| r.unwrap())
        .collect();
    assert_eq!(upgraded, seeded);
}

#[test]
fn s2s_c2_upgrades_v0_db_through_v1_to_v2_in_one_open() {
    let (_tmp, db) = db_path();
    let seeded = build_v0_db(&db);

    let conn = open(&db);
    assert_eq!(read_user_version(&conn), SCHEMA_VERSION);
    assert_eq!(log_columns(&conn), expected_log_columns());
    assert!(schema_object_exists(&conn, "index", "idx_log_ts"));
    assert!(schema_object_exists(&conn, "table", "raw_thread"));
    assert!(schema_object_exists(&conn, "table", "raw_event"));
    assert!(schema_object_exists(&conn, "index", "idx_raw_event_thread"));

    let mut stmt = conn
        .prepare(
            "SELECT id, ts, summary, detail, origin, project_hash \
             FROM log ORDER BY id",
        )
        .unwrap();
    let upgraded: Vec<(i64, i64, String, Option<String>, String, Option<String>)> = stmt
        .query_map([], |r| {
            Ok((
                r.get(0)?,
                r.get(1)?,
                r.get(2)?,
                r.get(3)?,
                r.get(4)?,
                r.get(5)?,
            ))
        })
        .unwrap()
        .map(|r| r.unwrap())
        .collect();

    assert_eq!(upgraded.len(), seeded.len());
    for (after, before) in upgraded.iter().zip(seeded.iter()) {
        assert_eq!(after.0, before.id);
        assert_eq!(after.1, before.ts);
        assert_eq!(after.2, before.summary);
        assert_eq!(after.3, before.detail);
        assert_eq!(after.4, "self");
        assert!(after.5.is_none());
    }
}

#[test]
fn s3s_a1_fresh_db_lands_on_v3_with_distill_cursor_columns() {
    let (_tmp, db) = db_path();
    let conn = open(&db);

    assert_eq!(read_user_version(&conn), SCHEMA_VERSION);

    let cols = table_columns(&conn, "raw_thread");
    assert!(cols.contains("last_distilled_line_no"));
    assert!(cols.contains("last_growth_ts"));
    assert_eq!(cols.len(), 14, "raw_thread should be 14 columns at v3");

    assert!(schema_object_exists(&conn, "table", "raw_event"));
    assert!(schema_object_exists(&conn, "index", "idx_raw_event_thread"));
    assert_eq!(log_columns(&conn), expected_log_columns());
    assert!(schema_object_exists(&conn, "index", "idx_log_ts"));
}

#[test]
fn s3s_a2_minimal_insert_uses_v3_column_defaults() {
    let (_tmp, db) = db_path();
    let conn = open(&db);

    assert_eq!(table_columns(&conn, "raw_thread"), expected_raw_thread_columns());

    conn.execute(
        "INSERT INTO raw_thread(thread_id, source_path, first_seen_ts, last_ingest_ts) \
         VALUES (?1, ?2, ?3, ?4)",
        ("minimal-thr", "/tmp/r.jsonl", 0_i64, 0_i64),
    )
    .unwrap();

    let (last_distilled, last_growth): (i64, Option<i64>) = conn
        .query_row(
            "SELECT last_distilled_line_no, last_growth_ts FROM raw_thread \
             WHERE thread_id = 'minimal-thr'",
            [],
            |r| Ok((r.get(0)?, r.get(1)?)),
        )
        .unwrap();
    assert_eq!(last_distilled, 0);
    assert!(last_growth.is_none());
}

#[test]
fn s3s_b1_open_thrice_is_idempotent_at_v3() {
    let (_tmp, db) = db_path();
    for _ in 0..3 {
        let conn = open(&db);
        assert_eq!(read_user_version(&conn), SCHEMA_VERSION);
        assert!(schema_object_exists(&conn, "table", "raw_thread"));
    }
}

#[test]
fn s3s_b2_upgrades_v2_db_to_v3_preserving_raw_thread_rows() {
    let (_tmp, db) = db_path();
    build_v2_db(&db);

    {
        let conn = Connection::open(&db).unwrap();
        conn.execute(
            "INSERT INTO raw_thread \
             (thread_id, agent_id, team_id, project_hash, source, \
              parent_thread_id, cwd, source_path, first_seen_ts, \
              last_ingest_ts, last_offset, last_line_no) \
             VALUES (?1, ?2, ?3, ?4, ?5, ?6, ?7, ?8, ?9, ?10, ?11, ?12)",
            ("thr-v2-old",
                "agent-vintage",
                "team-vintage",
                "proj-hash",
                "vscode",
                None::<&str>,
                "/tmp/cwd",
                "/tmp/rollout.jsonl",
                100_i64,
                200_i64,
                50_i64,
                5_i64,),
        )
        .unwrap();
    }

    let conn = open(&db);
    assert_eq!(read_user_version(&conn), SCHEMA_VERSION);

    let (last_distilled, last_growth): (i64, Option<i64>) = conn
        .query_row(
            "SELECT last_distilled_line_no, last_growth_ts FROM raw_thread \
             WHERE thread_id = 'thr-v2-old'",
            [],
            |r| Ok((r.get(0)?, r.get(1)?)),
        )
        .unwrap();
    assert_eq!(last_distilled, 0);
    assert!(last_growth.is_none());

    let (
        agent_id,
        team_id,
        project_hash,
        source,
        parent_thread_id,
        cwd,
        source_path,
        first_seen_ts,
        last_ingest_ts,
        last_offset,
        last_line_no,
    ): (
        String,
        Option<String>,
        Option<String>,
        Option<String>,
        Option<String>,
        Option<String>,
        String,
        i64,
        i64,
        i64,
        i64,
    ) = conn
        .query_row(
            "SELECT agent_id, team_id, project_hash, source, parent_thread_id, \
                    cwd, source_path, first_seen_ts, last_ingest_ts, \
                    last_offset, last_line_no \
             FROM raw_thread WHERE thread_id = 'thr-v2-old'",
            [],
            |r| {
                Ok((
                    r.get(0)?,
                    r.get(1)?,
                    r.get(2)?,
                    r.get(3)?,
                    r.get(4)?,
                    r.get(5)?,
                    r.get(6)?,
                    r.get(7)?,
                    r.get(8)?,
                    r.get(9)?,
                    r.get(10)?,
                ))
            },
        )
        .unwrap();
    assert_eq!(agent_id, "agent-vintage");
    assert_eq!(team_id.as_deref(), Some("team-vintage"));
    assert_eq!(project_hash.as_deref(), Some("proj-hash"));
    assert_eq!(source.as_deref(), Some("vscode"));
    assert!(parent_thread_id.is_none());
    assert_eq!(cwd.as_deref(), Some("/tmp/cwd"));
    assert_eq!(source_path, "/tmp/rollout.jsonl");
    assert_eq!(first_seen_ts, 100);
    assert_eq!(last_ingest_ts, 200);
    assert_eq!(last_offset, 50);
    assert_eq!(last_line_no, 5);
}

#[test]
fn s3s_b3_upgrades_v0_db_through_full_chain_to_v3() {
    let (_tmp, db) = db_path();
    let seeded = build_v0_db(&db);

    let conn = open(&db);
    assert_eq!(read_user_version(&conn), SCHEMA_VERSION);

    assert_eq!(log_columns(&conn), expected_log_columns());
    assert!(schema_object_exists(&conn, "index", "idx_log_ts"));
    assert!(schema_object_exists(&conn, "table", "raw_thread"));
    assert!(schema_object_exists(&conn, "table", "raw_event"));
    assert!(schema_object_exists(&conn, "index", "idx_raw_event_thread"));
    assert_eq!(table_columns(&conn, "raw_thread"), expected_raw_thread_columns());

    let count: i64 = conn
        .query_row("SELECT count(*) FROM log", [], |r| r.get(0))
        .unwrap();
    assert_eq!(count as usize, seeded.len());
}

#[test]
fn s3d_g1_upgrades_v3_db_to_v4_adds_log_kind_nullable() {
    let (_tmp, db) = db_path();
    build_v2_db(&db);
    {
        let conn = Connection::open(&db).unwrap();
        conn.execute_batch(
            "ALTER TABLE raw_thread ADD COLUMN last_distilled_line_no INTEGER NOT NULL DEFAULT 0;
             ALTER TABLE raw_thread ADD COLUMN last_growth_ts INTEGER;
             PRAGMA user_version = 3;",
        )
        .unwrap();
        conn.execute(
            "INSERT INTO log(ts, summary, detail, origin) VALUES (?1, ?2, ?3, ?4)",
            (100_i64, "old summary", "old detail", "self"),
        )
        .unwrap();
    }

    let conn = open(&db);
    assert_eq!(read_user_version(&conn), SCHEMA_VERSION);

    let cols = log_columns(&conn);
    assert!(cols.contains("kind"), "v4 must add the `kind` column to log");

    let (summary, detail, origin, kind): (String, Option<String>, String, Option<String>) =
        conn.query_row(
            "SELECT summary, detail, origin, kind FROM log",
            [],
            |r| Ok((r.get(0)?, r.get(1)?, r.get(2)?, r.get(3)?)),
        )
        .unwrap();
    assert_eq!(summary, "old summary");
    assert_eq!(detail.as_deref(), Some("old detail"));
    assert_eq!(origin, "self");
    assert!(
        kind.is_none(),
        "pre-v4 row picks up kind = NULL on upgrade"
    );
}

#[test]
fn s3d_g2_upgrades_v0_db_through_full_chain_to_v4() {
    let (_tmp, db) = db_path();
    let seeded = build_v0_db(&db);

    let conn = open(&db);
    assert_eq!(read_user_version(&conn), SCHEMA_VERSION);
    assert!(log_columns(&conn).contains("kind"));
    assert_eq!(
        table_columns(&conn, "raw_thread"),
        expected_raw_thread_columns()
    );
    let count: i64 = conn
        .query_row("SELECT count(*) FROM log", [], |r| r.get(0))
        .unwrap();
    assert_eq!(count as usize, seeded.len());
}

#[test]
fn s3d_g3_log_progress_writes_with_null_kind_unchanged() {
    let (_tmp, db) = db_path();
    let id = log_progress(&db, "user note", Some("by hand")).unwrap();
    let conn = open(&db);
    let (origin, kind): (String, Option<String>) = conn
        .query_row(
            "SELECT origin, kind FROM log WHERE id = ?1",
            (id,),
            |r| Ok((r.get(0)?, r.get(1)?)),
        )
        .unwrap();
    assert_eq!(origin, "self");
    assert!(
        kind.is_none(),
        "log_progress writes don't set kind (signature unchanged)"
    );
}

#[test]
fn s4s_c1_upgrades_v4_db_to_v5_preserving_log_rows() {
    let (_tmp, db) = db_path();
    build_v4_db(&db);
    {
        let conn = Connection::open(&db).unwrap();
        conn.execute(
            "INSERT INTO log(ts, summary, detail, origin, kind) \
             VALUES (?1, ?2, ?3, ?4, ?5)",
            (42_i64, "pre-v5", "body", "self", None::<&str>),
        )
        .unwrap();
    }

    let conn = open(&db);
    assert_eq!(read_user_version(&conn), SCHEMA_VERSION);
    assert!(schema_object_exists(&conn, "table", "log_vec"));

    let (summary, kind): (String, Option<String>) = conn
        .query_row(
            "SELECT summary, kind FROM log",
            [],
            |r| Ok((r.get(0)?, r.get(1)?)),
        )
        .unwrap();
    assert_eq!(summary, "pre-v5");
    assert!(kind.is_none());

    let count: i64 = conn
        .query_row("SELECT count(*) FROM log_vec", [], |r| r.get(0))
        .unwrap();
    assert_eq!(count, 0, "fresh v5 log_vec starts empty");
}

#[test]
fn s4s_c2_upgrades_v0_db_through_full_chain_to_v5() {
    let (_tmp, db) = db_path();
    let seeded = build_v0_db(&db);

    let conn = open(&db);
    assert_eq!(read_user_version(&conn), SCHEMA_VERSION);

    assert!(log_columns(&conn).contains("kind"));
    assert!(schema_object_exists(&conn, "index", "idx_log_ts"));
    assert!(schema_object_exists(&conn, "table", "raw_thread"));
    assert!(schema_object_exists(&conn, "table", "raw_event"));
    assert!(schema_object_exists(&conn, "index", "idx_raw_event_thread"));
    assert_eq!(
        table_columns(&conn, "raw_thread"),
        expected_raw_thread_columns()
    );
    assert!(log_columns(&conn).contains("kind"));
    assert!(schema_object_exists(&conn, "table", "log_vec"));

    let count: i64 = conn
        .query_row("SELECT count(*) FROM log", [], |r| r.get(0))
        .unwrap();
    assert_eq!(count as usize, seeded.len(), "v0 log rows preserved");
}

#[test]
fn s4s_c3_open_thrice_is_idempotent_at_v5() {
    let (_tmp, db) = db_path();
    for _ in 0..3 {
        let conn = open(&db);
        assert_eq!(read_user_version(&conn), SCHEMA_VERSION);
        assert!(schema_object_exists(&conn, "table", "log_vec"));
    }
}

#[test]
fn s4schema_d1_v6_redimensions_log_vec_to_1024() {
    {
        let (_tmp, db) = db_path();
        {
            let conn = Connection::open(&db).unwrap();
            let _: String = conn
                .query_row("PRAGMA journal_mode=WAL", [], |r| r.get(0))
                .unwrap();
            conn.execute_batch(&plain_vectors(V5_DDL)).unwrap();
            conn.execute_batch("PRAGMA user_version = 5;").unwrap();
            assert!(log_vec_ddl(&conn).contains("float[4096]"), "v5 precondition");
            assert_eq!(read_user_version(&conn), 5);
        }
        let conn = open(&db);
        assert_eq!(read_user_version(&conn), SCHEMA_VERSION);
        let ddl = log_vec_ddl(&conn);
        assert!(
            ddl.contains("float[1024]") && !ddl.contains("4096"),
            "post-v6 log_vec must be 1024: {ddl}"
        );
        conn.execute(
            "INSERT INTO log(ts, summary, detail, origin) VALUES (1, 's', 'd', 'self')",
            [],
        )
        .unwrap();
        let id = conn.last_insert_rowid();
        let zeros = vec!["0"; 1024].join(",");
        conn.execute(
            "INSERT INTO log_vec(rowid, embedding) VALUES (?1, ?2)",
            (id, format!("[{zeros}]")),
        )
        .unwrap();
        assert!(schema_object_exists(&conn, "table", "raw_event"));
    }

    {
        let (_tmp, db) = db_path();
        build_v0_db(&db);
        let conn = open(&db);
        assert_eq!(read_user_version(&conn), SCHEMA_VERSION);
        assert!(log_vec_ddl(&conn).contains("float[1024]"), "v0→v6 chain log_vec dim");
    }
}

#[test]
fn v6_to_v7_migrate() {
    let (_tmp, db) = db_path();
    {
        let conn = Connection::open(&db).unwrap();
        let _: String = conn.query_row("PRAGMA journal_mode=WAL", [], |r| r.get(0)).unwrap();
        conn.execute_batch(&plain_vectors(V6_DDL)).unwrap();
        conn.execute_batch("PRAGMA user_version = 6;").unwrap();
        conn.execute(
            "INSERT INTO log(ts, summary, detail, origin) VALUES (1, 's1', ?1, 'self')",
            ("我们的会话状态最终选 Postgres 存储方案",),
        )
        .unwrap();
        conn.execute(
            "INSERT INTO log(ts, summary, detail, origin) VALUES (2, 's2', ?1, 'self')",
            ("an english oauth note about tokens",),
        )
        .unwrap();
        assert!(!log_fts_ddl(&conn).contains("trigram"), "v6 precondition: unicode61");
        assert_eq!(read_user_version(&conn), 6);
    }
    let conn = open(&db);
    assert_eq!(read_user_version(&conn), SCHEMA_VERSION);
    assert!(log_fts_ddl(&conn).contains("trigram"), "post-v7 log_fts must be trigram");
    let en = fts_ranked_ids(&conn, &build_fts_match("oauth").unwrap(), 50);
    assert!(!en.is_empty(), "rebuild must re-index pre-existing rows; en hits = {en:?}");
    let zh = fts_ranked_ids(&conn, &build_fts_match("会话状态用什么存").unwrap(), 50);
    assert!(!zh.is_empty(), "trigram + rebuild: Chinese detail must be FTS-recallable");
}

#[test]
fn v0_to_v9_full_chain() {
    let (_tmp, db) = db_path();
    build_v0_db(&db);
    let conn = open(&db);
    assert_eq!(read_user_version(&conn), SCHEMA_VERSION);
    assert!(schema_object_exists(&conn, "table", "raw_event"));
    assert!(schema_object_exists(&conn, "table", "raw_thread"));
    assert!(schema_object_exists(&conn, "table", "log_vec"));
    assert!(log_fts_ddl(&conn).contains("trigram"), "v0→v9 chain: log_fts trigram");
    assert!(log_vec_ddl(&conn).contains("float[1024]"), "v0→v9 chain: log_vec 1024");
    assert!(
        log_columns(&conn).contains("superseded_by"),
        "v0→v9 chain: log.superseded_by"
    );
    assert!(
        schema_object_exists(&conn, "table", "log_contradiction"),
        "v0→v9 chain: log_contradiction"
    );
    assert!(
        schema_object_exists(&conn, "table", "log_consolidation_audit"),
        "v0→v9 chain: log_consolidation_audit"
    );
    let audit_cols: BTreeSet<String> = {
        let mut stmt = conn
            .prepare("PRAGMA table_info(log_consolidation_audit)")
            .unwrap();
        stmt.query_map([], |r| r.get::<_, String>(1))
            .unwrap()
            .map(|r| r.unwrap())
            .collect()
    };
    assert!(
        audit_cols.contains("superseded_id"),
        "v0→v9 chain: audit must carry superseded_id; cols={audit_cols:?}"
    );
    assert!(
        schema_object_exists(&conn, "table", "consolidation_state"),
        "v0→v9 chain: consolidation_state"
    );
    let (cnt, max_id): (i64, i64) = conn
        .query_row(
            "SELECT COUNT(*), COALESCE(MIN(last_consolidation_max_log_id), -1) FROM consolidation_state",
            [],
            |r| Ok((r.get(0)?, r.get(1)?)),
        )
        .unwrap();
    assert_eq!((cnt, max_id), (1, 0), "v0→v9 chain: one consolidation_state row seeded at 0");
}

#[test]
fn v7_migrate_idempotent() {
    let (_tmp, db) = db_path();
    for _ in 0..3 {
        let conn = open(&db);
        assert_eq!(read_user_version(&conn), SCHEMA_VERSION);
        assert!(log_fts_ddl(&conn).contains("trigram"), "log_fts stays trigram across reopens");
    }
}

#[test]
fn v7_to_v8_migrate() {
    let (_tmp, db) = db_path();
    let seeded_id: i64;
    {
        let conn = Connection::open(&db).unwrap();
        let _: String = conn.query_row("PRAGMA journal_mode=WAL", [], |r| r.get(0)).unwrap();
        conn.execute_batch(&plain_vectors(V7_DDL)).unwrap();
        conn.execute_batch("PRAGMA user_version = 7;").unwrap();
        conn.execute(
            "INSERT INTO log(ts, summary, detail, origin) VALUES (1, 's1', ?1, 'self')",
            ("an english oauth note about tokens",),
        )
        .unwrap();
        seeded_id = conn.last_insert_rowid();
        assert_eq!(read_user_version(&conn), 7);
        assert!(!log_columns(&conn).contains("superseded_by"));
        assert!(!schema_object_exists(&conn, "table", "log_contradiction"));
        assert!(!schema_object_exists(&conn, "table", "log_consolidation_audit"));
    }
    let conn = open(&db);
    assert_eq!(read_user_version(&conn), SCHEMA_VERSION);
    assert!(log_columns(&conn).contains("superseded_by"), "v8 adds log.superseded_by");
    assert!(schema_object_exists(&conn, "table", "log_contradiction"));
    assert!(schema_object_exists(&conn, "table", "log_consolidation_audit"));
    let sb: Option<i64> = conn
        .query_row(
            "SELECT superseded_by FROM log WHERE id = ?1",
            (seeded_id,),
            |r| r.get(0),
        )
        .unwrap();
    assert!(sb.is_none(), "pre-existing row's superseded_by must default NULL");
    let hits = fts_ranked_ids(&conn, &build_fts_match("oauth").unwrap(), 50);
    assert!(
        hits.contains(&seeded_id),
        "schema add must not break FTS retrieval; hits = {hits:?}"
    );
}

#[test]
fn v8_migrate_idempotent() {
    let (_tmp, db) = db_path();
    for _ in 0..3 {
        let conn = open(&db);
        assert_eq!(read_user_version(&conn), SCHEMA_VERSION);
        assert!(log_columns(&conn).contains("superseded_by"));
        assert!(schema_object_exists(&conn, "table", "log_contradiction"));
        assert!(schema_object_exists(&conn, "table", "log_consolidation_audit"));
    }
}

#[test]
fn v8_schema_additions_are_inert() {
    let (_tmp, db) = db_path();
    {
        let conn = open(&db);
        assert_eq!(read_user_version(&conn), SCHEMA_VERSION);
    }
    let id_a = log_progress(
        &db,
        "auth refactor day 1",
        Some("Refactored the OAuth middleware to use the new token model."),
    )
    .unwrap();
    let _id_b = log_progress(
        &db,
        "lunch break notes",
        Some("Unrelated standup notes about lunch and the cafeteria."),
    )
    .unwrap();
    let hits = search(&db, "OAuth", 6);
    assert_eq!(hits.len(), 1, "hits = {hits:?}");
    assert_eq!(hits[0].id, id_a);
    assert_eq!(hits[0].summary, "auth refactor day 1");
    let conn = open(&db);
    let sb: Option<i64> = conn
        .query_row(
            "SELECT superseded_by FROM log WHERE id = ?1",
            (id_a,),
            |r| r.get(0),
        )
        .unwrap();
    assert!(sb.is_none(), "log_progress must not write superseded_by");
    let entry = get(&db, id_a);
    assert!(entry.found);
    assert_eq!(entry.summary, "auth refactor day 1");
    assert_eq!(
        entry.detail.as_deref(),
        Some("Refactored the OAuth middleware to use the new token model.")
    );
}

#[test]
fn v8_to_v9_migrate() {
    let (_tmp, db) = db_path();
    {
        let conn = Connection::open(&db).unwrap();
        let _: String = conn.query_row("PRAGMA journal_mode=WAL", [], |r| r.get(0)).unwrap();
        conn.execute_batch(&plain_vectors(V8_DDL)).unwrap();
        conn.execute_batch("PRAGMA user_version = 8;").unwrap();
        assert_eq!(read_user_version(&conn), 8);
        assert!(
            !schema_object_exists(&conn, "table", "consolidation_state"),
            "v8 precondition: no consolidation_state yet"
        );
    }
    let conn = open(&db);
    assert_eq!(read_user_version(&conn), SCHEMA_VERSION);
    assert!(
        schema_object_exists(&conn, "table", "consolidation_state"),
        "v9 adds consolidation_state"
    );
    let cnt: i64 = conn
        .query_row("SELECT COUNT(*) FROM consolidation_state", [], |r| r.get(0))
        .unwrap();
    assert_eq!(cnt, 1, "exactly one consolidation_state row");
    let (id, max_id, ts): (i64, i64, Option<i64>) = conn
        .query_row(
            "SELECT id, last_consolidation_max_log_id, last_consolidation_ts FROM consolidation_state",
            [],
            |r| Ok((r.get(0)?, r.get(1)?, r.get(2)?)),
        )
        .unwrap();
    assert_eq!(id, 1, "the singleton id is 1");
    assert_eq!(max_id, 0, "initial high-water is 0");
    assert!(ts.is_none(), "initial last_consolidation_ts is NULL");
}

#[test]
fn v9_migrate_idempotent() {
    let (_tmp, db) = db_path();
    for _ in 0..3 {
        let conn = open(&db);
        assert_eq!(read_user_version(&conn), SCHEMA_VERSION);
        let cnt: i64 = conn
            .query_row("SELECT COUNT(*) FROM consolidation_state", [], |r| r.get(0))
            .unwrap();
        assert_eq!(cnt, 1, "INSERT OR IGNORE keeps exactly one row across reopens");
    }
}
