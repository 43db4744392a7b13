//! The store's schema: the baseline, and the steps that bring an older file up
//! to date.
use vstd::prelude::*;
use vstd::string::*;

verus! {

/// The version that this program writes.
pub const SCHEMA_VERSION: i64 = 9;

/// The baseline, which changes nothing where it is already there.
pub const BASELINE_SQL: &'static str = "CREATE TABLE IF NOT EXISTS log (
    id      INTEGER PRIMARY KEY AUTOINCREMENT,
    ts      INTEGER NOT NULL,
    summary TEXT    NOT NULL,
    detail  TEXT
);
CREATE VIRTUAL TABLE IF NOT EXISTS log_fts USING fts5(
    detail,
    content='log',
    content_rowid='id'
);
CREATE TRIGGER IF NOT EXISTS log_ai AFTER INSERT ON log BEGIN
    INSERT INTO log_fts(rowid, detail) VALUES (new.id, new.detail);
END;
CREATE TRIGGER IF NOT EXISTS log_ad AFTER DELETE ON log BEGIN
    INSERT INTO log_fts(log_fts, rowid, detail) VALUES('delete', old.id, old.detail);
END;
CREATE TRIGGER IF NOT EXISTS log_au AFTER UPDATE ON log BEGIN
    INSERT INTO log_fts(log_fts, rowid, detail) VALUES('delete', old.id, old.detail);
    INSERT INTO log_fts(rowid, detail) VALUES (new.id, new.detail);
END;";

/// Step 1: where a log row came from, and an index by time.
pub const STEP_1_SQL: &'static str = "ALTER TABLE log ADD COLUMN origin TEXT NOT NULL DEFAULT 'self';
ALTER TABLE log ADD COLUMN project_hash TEXT;
CREATE INDEX IF NOT EXISTS idx_log_ts ON log(ts);
PRAGMA user_version = 1;";

/// Step 2: the raw threads and their events.
pub const STEP_2_SQL: &'static str = "CREATE TABLE IF NOT EXISTS raw_thread (
    thread_id        TEXT PRIMARY KEY,
    agent_id         TEXT,
    team_id          TEXT,
    project_hash     TEXT,
    source           TEXT,
    parent_thread_id TEXT,
    cwd              TEXT,
    source_path      TEXT NOT NULL,
    first_seen_ts    INTEGER NOT NULL,
    last_ingest_ts   INTEGER NOT NULL,
    last_offset      INTEGER NOT NULL DEFAULT 0,
    last_line_no     INTEGER NOT NULL DEFAULT 0
);
CREATE TABLE IF NOT EXISTS raw_event (
    id          INTEGER PRIMARY KEY,
    thread_id   TEXT NOT NULL REFERENCES raw_thread(thread_id),
    line_no     INTEGER NOT NULL,
    payload     TEXT NOT NULL,
    ingested_at INTEGER NOT NULL,
    UNIQUE(thread_id, line_no)
);
CREATE INDEX IF NOT EXISTS idx_raw_event_thread ON raw_event(thread_id);
PRAGMA user_version = 2;";

/// Step 3: how far a thread is distilled, and when it last grew.
pub const STEP_3_SQL: &'static str = "ALTER TABLE raw_thread ADD COLUMN last_distilled_line_no INTEGER NOT NULL DEFAULT 0;
ALTER TABLE raw_thread ADD COLUMN last_growth_ts INTEGER;
PRAGMA user_version = 3;";

/// Step 4: the kind of a distilled row.
pub const STEP_4_SQL: &'static str = "ALTER TABLE log ADD COLUMN kind TEXT;
PRAGMA user_version = 4;";

/// Step 5: a vector per row.
pub const STEP_5_SQL: &'static str = "CREATE VIRTUAL TABLE IF NOT EXISTS log_vec USING vec0(embedding float[4096]);
PRAGMA user_version = 5;";

/// Step 6: vectors of another length; every row is embedded again.
pub const STEP_6_SQL: &'static str = "DROP TABLE IF EXISTS log_vec;
CREATE VIRTUAL TABLE log_vec USING vec0(embedding float[1024]);
PRAGMA user_version = 6;";

/// Step 7: a full-text index by trigrams, which matches CJK text too.
pub const STEP_7_SQL: &'static str = "DROP TABLE IF EXISTS log_fts;
CREATE VIRTUAL TABLE log_fts USING fts5(
    detail,
    content='log',
    content_rowid='id',
    tokenize='trigram'
);
INSERT INTO log_fts(log_fts) VALUES('rebuild');
PRAGMA user_version = 7;";

/// Step 8: what replaced a row, contradictions, and the audit of judged pairs.
pub const STEP_8_SQL: &'static str = "ALTER TABLE log ADD COLUMN superseded_by INTEGER NULL REFERENCES log(id);
CREATE TABLE IF NOT EXISTS log_contradiction (
    id_a     INTEGER NOT NULL,
    id_b     INTEGER NOT NULL,
    audit_id INTEGER,
    PRIMARY KEY (id_a, id_b)
);
CREATE TABLE IF NOT EXISTS log_consolidation_audit (
    id            INTEGER PRIMARY KEY,
    run_ts        INTEGER NOT NULL,
    kp_a          INTEGER NOT NULL,
    kp_b          INTEGER NOT NULL,
    distance      REAL,
    relation      TEXT    NOT NULL,
    action        TEXT    NOT NULL,
    rationale     TEXT,
    superseded_id INTEGER,
    dry_run       INTEGER NOT NULL,
    applied       INTEGER NOT NULL
);
PRAGMA user_version = 8;";

/// Step 9: how far consolidation has seen the log.
pub const STEP_9_SQL: &'static str = "CREATE TABLE IF NOT EXISTS consolidation_state (
    id                            INTEGER PRIMARY KEY CHECK (id = 1),
    last_consolidation_max_log_id INTEGER NOT NULL DEFAULT 0,
    last_consolidation_ts         INTEGER
);
INSERT OR IGNORE INTO consolidation_state (id, last_consolidation_max_log_id) VALUES (1, 0);
PRAGMA user_version = 9;";

/// The statements of a step; the last one of each sets the version.
pub open spec fn step_text(target: i64) -> Option<Seq<char>> {
    if target == 1 {
        Some(STEP_1_SQL@)
    } else if target == 2 {
        Some(STEP_2_SQL@)
    } else if target == 3 {
        Some(STEP_3_SQL@)
    } else if target == 4 {
        Some(STEP_4_SQL@)
    } else if target == 5 {
        Some(STEP_5_SQL@)
    } else if target == 6 {
        Some(STEP_6_SQL@)
    } else if target == 7 {
        Some(STEP_7_SQL@)
    } else if target == 8 {
        Some(STEP_8_SQL@)
    } else if target == 9 {
        Some(STEP_9_SQL@)
    } else {
        None
    }
}

/// The statements of the step to a version. There is one for each version up to
/// the current one.
pub fn migration_sql(target: i64) -> (r: Option<&'static str>)
    ensures
        match r {
            Some(s) => step_text(target) == Some(s@),
            None => step_text(target) is None,
        },
        r is Some <==> 1 <= target <= SCHEMA_VERSION,
{
    match target {
        1 => Some(STEP_1_SQL),
        2 => Some(STEP_2_SQL),
        3 => Some(STEP_3_SQL),
        4 => Some(STEP_4_SQL),
        5 => Some(STEP_5_SQL),
        6 => Some(STEP_6_SQL),
        7 => Some(STEP_7_SQL),
        8 => Some(STEP_8_SQL),
        9 => Some(STEP_9_SQL),
        _ => None,
    }
}

/// The versions that a file at `current` is still to be brought to, in order.
pub open spec fn pending(current: int) -> Seq<int> {
    Seq::new(
        if current < SCHEMA_VERSION {
            (SCHEMA_VERSION - current) as nat
        } else {
            0
        },
        |i: int| current + 1 + i,
    )
}

/// The versions that a file at `current` is still to be brought to. A file that
/// a later program wrote is left as it is.
pub fn pending_steps(current: i64) -> (r: Vec<i64>)
    requires
        current >= 0,
    ensures
        r@.map_values(|t: i64| t as int) == pending(current as int),
        forall|i: int| 0 <= i < r@.len() ==> 1 <= #[trigger] r@[i] <= SCHEMA_VERSION,
{
    let mut out: Vec<i64> = Vec::new();
    if current >= SCHEMA_VERSION {
        assert(out@.map_values(|t: i64| t as int) =~= pending(current as int));
        return out;
    }
    let mut target: i64 = current + 1;
    while target <= SCHEMA_VERSION
        invariant
            0 <= current < SCHEMA_VERSION,
            current + 1 <= target <= SCHEMA_VERSION + 1,
            out@.len() == target - current - 1,
            forall|i: int| 0 <= i < out@.len() ==> #[trigger] out@[i] == current + 1 + i,
        decreases SCHEMA_VERSION + 1 - target,
    {
        out.push(target);
        target += 1;
    }
    assert(out@.map_values(|t: i64| t as int) =~= pending(current as int));
    out
}

/// Whether a step is to run, given the version that was read under the write
/// lock: another process may have taken it meanwhile.
pub fn step_is_due(locked: i64, target: i64) -> (r: bool)
    ensures
        r == (locked < target),
{
    locked < target
}

/// The version of a file after the pending steps, each taken only where it is
/// still due.
pub open spec fn migrated(version: int, targets: Seq<int>) -> int
    decreases targets.len(),
{
    if targets.len() == 0 {
        version
    } else {
        let before = migrated(version, targets.drop_last());
        if before < targets.last() {
            targets.last()
        } else {
            before
        }
    }
}

/// The first `n` steps bring a file `n` versions on.
proof fn migrated_prefix(current: int, n: nat)
    requires
        n <= pending(current).len(),
    ensures
        migrated(current, pending(current).take(n as int)) == current + n,
    decreases n,
{
    if n > 0 {
        let targets = pending(current).take(n as int);
        assert(targets.drop_last() =~= pending(current).take(n - 1));
        migrated_prefix(current, (n - 1) as nat);
    } else {
        assert(pending(current).take(0) =~= Seq::empty());
    }
}

/// Migrating brings an older file exactly to the current version, one step
/// after the other, and leaves a file at that version or beyond alone; so
/// migrating again does nothing.
pub proof fn migration_reaches_current_version(current: int)
    ensures
        migrated(current, pending(current)) == (if current < SCHEMA_VERSION {
            SCHEMA_VERSION as int
        } else {
            current
        }),
        pending(migrated(current, pending(current))).len() == 0,
        forall|i: int|
            0 <= i < pending(current).len() ==> #[trigger] pending(current)[i] == migrated(
                current,
                pending(current).take(i),
            ) + 1,
{
    let n = pending(current).len();
    assert(pending(current).take(n as int) =~= pending(current));
    migrated_prefix(current, n);
    assert forall|i: int| 0 <= i < n implies #[trigger] pending(current)[i] == migrated(
        current,
        pending(current).take(i),
    ) + 1 by {
        migrated_prefix(current, i as nat);
    }
}

/// There is a step to each version from the first to the ninth and to no other, and an
/// older file takes all those beyond its own version, in order.
pub proof fn steps_lead_from_version_to_version(current: int, target: i64)
    ensures
        step_text(target) is Some <==> 1 <= target <= 9,
        0 <= current <= 9 ==> pending(current).len() == 9 - current,
        current >= 9 ==> pending(current).len() == 0,
        forall|i: int| 0 <= i < pending(current).len() ==> #[trigger] pending(current)[i] == current
            + 1 + i,
{
}

} // verus!
