use opencrab::ingest::is_rollout_file_name;
use opencrab::ingest::is_uuid_form;
use opencrab::ingest::parse_rollout_attribution;
use opencrab::ingest::plan_read;
use opencrab::ingest::take_lines;
use opencrab::ingest::IngestStats;
use opencrab::ingest::IngestTally;
use opencrab::ingest::RolloutAttribution;
use opencrab::ingest::RolloutPath;
use opencrab::ingest::ThreadCursor;
use std::collections::BTreeMap;
use std::path::Path;

const SAMPLE_THREAD_UUID: &str = "019e6725-269e-7bc1-b118-a1e757ee324c";
const SAMPLE_TEAM_ID: &str = "team_07e1d699-e0b4-453f-8d29-ca6281b36f30";
const SAMPLE_PROJECT_HASH: &str = "b854e7722178";
const SAMPLE_ISO_TS: &str = "2026-05-27T09-55-48";

/// The parts of a path, taken off it as the host takes them.
fn parts_of(path: &str) -> RolloutPath {
    let path = Path::new(path);
    RolloutPath {
        file_name: path
            .file_name()
            .and_then(|n| n.to_str())
            .map(|n| n.to_string()),
        components: path
            .components()
            .filter_map(|c| c.as_os_str().to_str())
            .map(|c| c.to_string())
            .collect(),
    }
}

fn attribute(path: &str) -> Option<RolloutAttribution> {
    parse_rollout_attribution(&parts_of(path))
}

fn sample_path(team: &str, hash: &str, uuid: &str, iso_ts: &str) -> String {
    format!("/agents/a/team_sessions/{team}/{hash}/rollout-{iso_ts}-{uuid}.jsonl")
}

/// One thread's stored lines and its cursor.
struct Thread {
    cursor: ThreadCursor,
    events: BTreeMap<i64, String>,
}

/// A memory with the threads that were ingested into it.
struct Memory {
    threads: BTreeMap<String, Thread>,
}

impl Memory {
    fn new() -> Memory {
        Memory {
            threads: BTreeMap::new(),
        }
    }

    /// Ingests one file. A file that cannot be read leaves no trace.
    fn ingest_file(&mut self, path: &str, content: &[u8], now: i64) -> (Option<String>, u64) {
        let Some(attribution) = attribute(path) else {
            return (None, 0);
        };
        let mut cursor = match self.threads.get(&attribution.thread_id) {
            Some(t) => t.cursor,
            None => ThreadCursor::fresh(now),
        };
        let plan = plan_read(&cursor, content.len() as i64);
        let tail = content[plan.seek_offset as usize..].to_vec();
        let Some(found) = take_lines(&tail, plan.base_line_no) else {
            return (None, 0);
        };
        let thread = self
            .threads
            .entry(attribution.thread_id.clone())
            .or_insert(Thread {
                cursor,
                events: BTreeMap::new(),
            });
        if plan.reset {
            thread.events.clear();
        }
        let mut stored: u64 = 0;
        for (line_no, payload) in &found.lines {
            if !thread.events.contains_key(line_no) {
                thread.events.insert(*line_no, payload.clone());
                stored += 1;
            }
        }
        cursor.advance(&plan, &found, stored, now);
        thread.cursor = cursor;
        (Some(attribution.thread_id), stored)
    }

    /// Ingests a set of files.
    fn ingest_once(&mut self, files: &[(&str, &str)], now: i64) -> IngestStats {
        let mut tally = IngestTally::start(files.len() as u64);
        for (path, content) in files {
            let (thread_id, inserted) = self.ingest_file(path, content.as_bytes(), now);
            tally.record(thread_id, inserted);
        }
        tally.stats()
    }

    fn payloads(&self, thread_id: &str) -> Vec<(i64, String)> {
        self.threads[thread_id]
            .events
            .iter()
            .map(|(n, p)| (*n, p.clone()))
            .collect()
    }

    fn cursor(&self) -> ThreadCursor {
        self.threads[SAMPLE_THREAD_UUID].cursor
    }
}

fn sample() -> String {
    sample_path(
        SAMPLE_TEAM_ID,
        SAMPLE_PROJECT_HASH,
        SAMPLE_THREAD_UUID,
        SAMPLE_ISO_TS,
    )
}

fn numbered(lines: &[&str]) -> Vec<(i64, String)> {
    lines
        .iter()
        .enumerate()
        .map(|(i, l)| (i as i64 + 1, l.to_string()))
        .collect()
}

#[test]
fn s2i_a1_parse_rollout_attribution_real_sample_and_bad_stem() {
    let good = format!(
        "/scan/team_sessions/{SAMPLE_TEAM_ID}/{SAMPLE_PROJECT_HASH}/\
         rollout-{SAMPLE_ISO_TS}-{SAMPLE_THREAD_UUID}.jsonl"
    );
    let attr = attribute(&good).expect("real sample must parse");
    assert_eq!(attr.thread_id, SAMPLE_THREAD_UUID);
    assert_eq!(attr.team_id, SAMPLE_TEAM_ID);
    assert_eq!(attr.project_hash, SAMPLE_PROJECT_HASH);

    // Bad: stem ends in a 36-char tail that is NOT UUID-shaped (no
    // dashes at positions 8/13/18/23).
    let bad_uuid_tail = "XXXXXXXXXXXXXXXXXXXXXXXXXXXXXXXXXXXX";
    assert_eq!(bad_uuid_tail.len(), 36);
    let bad_uuid = format!("/scan/team_sessions/t/p/rollout-{SAMPLE_ISO_TS}-{bad_uuid_tail}.jsonl");
    assert_eq!(attribute(&bad_uuid), None);

    // Bad: stem too short to even contain a 36-char tail.
    let too_short = "/scan/team_sessions/t/p/rollout-foo.jsonl";
    assert_eq!(attribute(too_short), None);

    // Bad: no `team_sessions` in the path → no attribution.
    let no_team =
        format!("/sessions/2026/05/21/rollout-{SAMPLE_ISO_TS}-{SAMPLE_THREAD_UUID}.jsonl");
    assert_eq!(attribute(&no_team), None);

    // Bad: extension is not .jsonl.
    let not_jsonl =
        format!("/scan/team_sessions/t/p/rollout-{SAMPLE_ISO_TS}-{SAMPLE_THREAD_UUID}.txt");
    assert_eq!(attribute(&not_jsonl), None);
}

#[test]
fn attribution_wants_the_file_right_below_the_project() {
    let deeper =
        format!("/scan/team_sessions/t/p/x/rollout-{SAMPLE_ISO_TS}-{SAMPLE_THREAD_UUID}.jsonl");
    assert_eq!(attribute(&deeper), None);
    let shallower =
        format!("/scan/team_sessions/t/rollout-{SAMPLE_ISO_TS}-{SAMPLE_THREAD_UUID}.jsonl");
    assert_eq!(attribute(&shallower), None);
    assert!(is_rollout_file_name("rollout-x.jsonl"));
    assert!(!is_rollout_file_name("rollout-x.json"));
    assert!(!is_rollout_file_name("x-rollout-.jsonl"));
    assert!(is_uuid_form("ABCDEF01-2345-6789-abcd-ef0123456789"));
    assert!(!is_uuid_form("ABCDEFG1-2345-6789-abcd-ef0123456789"));
    assert!(!is_uuid_form(""));
}

#[test]
fn s2i_a2_first_pass_writes_thread_and_events_byte_for_byte() {
    let mut m = Memory::new();
    let content = "line1\nline2\nline3\n"; // 18 bytes, 3 lines
    let stats = m.ingest_once(&[(&sample(), content)], 1);
    assert_eq!(stats.files_seen, 1);
    assert_eq!(stats.threads_touched, 1);
    assert_eq!(stats.events_inserted, 3);
    assert_eq!(m.cursor().last_line_no, 3);
    assert_eq!(m.cursor().last_offset, content.len() as i64);
    assert_eq!(
        m.payloads(SAMPLE_THREAD_UUID),
        vec![
            (1, "line1".to_string()),
            (2, "line2".to_string()),
            (3, "line3".to_string()),
        ]
    );
}

#[test]
fn s2i_b1_second_pass_unchanged_file_is_a_noop() {
    let mut m = Memory::new();
    let first = m.ingest_once(&[(&sample(), "a\nb\nc\n")], 1);
    assert_eq!(first.events_inserted, 3);
    let before = m.cursor();
    let second = m.ingest_once(&[(&sample(), "a\nb\nc\n")], 2);
    assert_eq!(second.events_inserted, 0);
    assert_eq!(second.files_seen, 1);
    assert_eq!(m.cursor().last_offset, before.last_offset);
    assert_eq!(m.cursor().last_line_no, before.last_line_no);
    assert_eq!(m.payloads(SAMPLE_THREAD_UUID).len(), 3);
}

#[test]
fn s2i_b2_append_then_ingest_picks_up_only_new_lines() {
    let mut m = Memory::new();
    m.ingest_once(&[(&sample(), "first\nsecond\n")], 1);
    let grown = "first\nsecond\nthird\nfourth\n";
    let second = m.ingest_once(&[(&sample(), grown)], 2);
    assert_eq!(second.events_inserted, 2);
    assert_eq!(second.threads_touched, 1);
    assert_eq!(
        m.payloads(SAMPLE_THREAD_UUID),
        numbered(&["first", "second", "third", "fourth"])
    );
    assert_eq!(m.cursor().last_offset, grown.len() as i64);
    assert_eq!(m.cursor().last_line_no, 4);
}

#[test]
fn s2i_c1_two_distinct_threads_each_get_their_own_rows() {
    let thread_a = "11111111-2222-3333-4444-555555555555";
    let team_a = "team_aaaaaaaa-1111-1111-1111-111111111111";
    let hash_a = "aaaaaaaaaaaa";
    let thread_b = "66666666-7777-8888-9999-aaaaaaaaaaaa";
    let team_b = "team_bbbbbbbb-2222-2222-2222-222222222222";
    let hash_b = "bbbbbbbbbbbb";
    let path_a = sample_path(team_a, hash_a, thread_a, "2026-05-27T01-00-00");
    let path_b = sample_path(team_b, hash_b, thread_b, "2026-05-27T02-00-00");
    let mut m = Memory::new();
    let stats = m.ingest_once(&[(&path_a, "A1\nA2\nA3\n"), (&path_b, "B1\nB2\n")], 1);
    assert_eq!(stats.files_seen, 2);
    assert_eq!(stats.threads_touched, 2);
    assert_eq!(stats.events_inserted, 5);
    assert_eq!(attribute(&path_a).unwrap().team_id, team_a);
    assert_eq!(attribute(&path_a).unwrap().project_hash, hash_a);
    assert_eq!(attribute(&path_b).unwrap().team_id, team_b);
    assert_eq!(attribute(&path_b).unwrap().project_hash, hash_b);
    assert_eq!(m.payloads(thread_a), numbered(&["A1", "A2", "A3"]));
    assert_eq!(m.payloads(thread_b), numbered(&["B1", "B2"]));
}

#[test]
fn s2if_c1_shrink_purges_orphans_and_re_reads_from_zero() {
    let mut m = Memory::new();
    m.ingest_once(&[(&sample(), "x1\nx2\nx3\nx4\nx5\n")], 1);
    assert_eq!(m.payloads(SAMPLE_THREAD_UUID).len(), 5);
    // Truncated to the first 3 lines (9 bytes < 15 bytes).
    let second = m.ingest_once(&[(&sample(), "x1\nx2\nx3\n")], 2);
    assert_eq!(second.events_inserted, 3);
    assert_eq!(m.payloads(SAMPLE_THREAD_UUID), numbered(&["x1", "x2", "x3"]));
    assert_eq!(m.cursor().last_offset, 9);
    assert_eq!(m.cursor().last_line_no, 3);
}

#[test]
fn s2i_d2_bad_filename_is_skipped_without_failing_the_pass() {
    let bad = format!(
        "/agents/a/team_sessions/{SAMPLE_TEAM_ID}/{SAMPLE_PROJECT_HASH}/\
         rollout-2026-05-27T09-55-48-XXXXXXXXXXXXXXXXXXXXXXXXXXXXXXXXXXXX.jsonl"
    );
    let mut m = Memory::new();
    let stats = m.ingest_once(&[(&bad, "bogus\nbogus\n"), (&sample(), "ok\n")], 1);
    assert_eq!(stats.files_seen, 2);
    // Only the well-formed file got attributed → 1 thread, 1 event.
    assert_eq!(stats.threads_touched, 1);
    assert_eq!(stats.events_inserted, 1);
    assert_eq!(m.payloads(SAMPLE_THREAD_UUID), numbered(&["ok"]));
}

#[test]
fn s2if_a1_torn_line_at_eof_is_not_committed() {
    let mut m = Memory::new();
    // 5 bytes; the last line has no line feed.
    let stats = m.ingest_once(&[(&sample(), "a\nb\nc")], 1);
    assert_eq!(stats.events_inserted, 2);
    assert_eq!(m.payloads(SAMPLE_THREAD_UUID), numbered(&["a", "b"]));
    assert_eq!(m.cursor().last_offset, 4);
    assert_eq!(m.cursor().last_line_no, 2);
}

#[test]
fn s2if_a2_completed_torn_line_ingests_as_one_row() {
    let mut m = Memory::new();
    m.ingest_once(&[(&sample(), "a\nb\nc")], 1);
    let second = m.ingest_once(&[(&sample(), "a\nb\ncX\nd\n")], 2);
    assert_eq!(second.events_inserted, 2);
    assert_eq!(
        m.payloads(SAMPLE_THREAD_UUID),
        numbered(&["a", "b", "cX", "d"]),
        "line 3 must be the FULL completed 'cX', not the half-line 'c'"
    );
}

#[test]
fn s2if_b1_parse_rollout_attribution_does_not_panic_on_utf8_boundary() {
    let prefix = "rollout-2026-05-27T09-55-48-";
    assert_eq!(prefix.len(), 28);
    let suffix = "x".repeat(35);
    let bad_name = format!("{prefix}🦀{suffix}.jsonl");
    let stem_len = bad_name.len() - ".jsonl".len();
    assert_eq!(stem_len, 67);
    let stem = &bad_name[..stem_len];
    assert!(!stem.is_char_boundary(stem_len - 36));
    assert_eq!(attribute(&format!("/scan/team_sessions/t/p/{bad_name}")), None);
}

#[test]
fn s2if_b2_ingest_skips_utf8_named_file_and_keeps_going() {
    let prefix = "rollout-2026-05-27T09-55-48-";
    let suffix = "x".repeat(35);
    let bad = format!("/agents/a/team_sessions/team_emoji/hash_emoji/{prefix}🦀{suffix}.jsonl");
    let mut m = Memory::new();
    let stats = m.ingest_once(&[(&bad, "bogus content\n"), (&sample(), "ok1\nok2\n")], 1);
    assert_eq!(stats.files_seen, 2);
    assert_eq!(stats.threads_touched, 1);
    assert_eq!(stats.events_inserted, 2);
    assert_eq!(m.payloads(SAMPLE_THREAD_UUID), numbered(&["ok1", "ok2"]));
}

#[test]
fn carriage_returns_before_line_feeds_are_not_payload() {
    let found = take_lines(&b"one\r\n\r\n two \r\r\n".to_vec(), 4).unwrap();
    assert_eq!(
        found.lines,
        vec![
            (5, "one".to_string()),
            (6, "".to_string()),
            (7, " two \r".to_string()),
        ]
    );
    assert_eq!(found.consumed, 15);
}

#[test]
fn bytes_that_are_no_text_take_nothing() {
    assert!(take_lines(&vec![b'a', 10, 0xff, 10], 0).is_none());
    // half a character in a complete line
    assert!(take_lines(&vec![b'a', 10, 0xe4, 0xbd, 10], 0).is_none());
    let whole = take_lines(&"你\n好".as_bytes().to_vec(), 0).unwrap();
    assert_eq!(whole.lines, vec![(1, "你".to_string())]);
    assert_eq!(whole.consumed, 4);
}

#[test]
fn line_torn_within_a_character_is_left_for_later() {
    let torn = take_lines(&vec![b'a', 10, 0xe4, 0xbd], 0).unwrap();
    assert_eq!(torn.lines, vec![(1, "a".to_string())]);
    assert_eq!(torn.consumed, 2);
    let rest = take_lines(&vec![0xe4, 0xbd, 0xa0, 10], 1).unwrap();
    assert_eq!(rest.lines, vec![(2, "你".to_string())]);
    assert_eq!(rest.consumed, 4);
}

#[test]
fn s3s_c1_first_ingest_with_new_rows_sets_growth_ts() {
    let mut m = Memory::new();
    let stats = m.ingest_once(&[(&sample(), "a\nb\nc\n")], 1_000);
    assert!(stats.events_inserted > 0);
    assert_eq!(m.cursor().last_growth_ts, Some(1_000));
    assert_eq!(
        Some(m.cursor().last_ingest_ts),
        m.cursor().last_growth_ts,
        "first-ingest pass writes both timestamps to the same `now`"
    );
}

#[test]
fn s3s_c2_noop_pass_advances_ingest_ts_but_not_growth_ts() {
    let mut m = Memory::new();
    m.ingest_once(&[(&sample(), "x\ny\n")], 1_000);
    assert!(m.cursor().last_growth_ts.is_some());
    let second = m.ingest_once(&[(&sample(), "x\ny\n")], 2_000);
    assert_eq!(second.events_inserted, 0, "file unchanged, no inserts expected");
    assert_eq!(m.cursor().last_growth_ts, Some(1_000));
    assert_eq!(m.cursor().last_ingest_ts, 2_000);
}

#[test]
fn s3s_c3_append_then_ingest_advances_growth_ts() {
    let mut m = Memory::new();
    m.ingest_once(&[(&sample(), "first\n")], 1_000);
    assert_eq!(m.cursor().last_growth_ts, Some(1_000));
    let second = m.ingest_once(&[(&sample(), "first\nsecond\n")], 2_000);
    assert_eq!(second.events_inserted, 1);
    assert_eq!(m.cursor().last_growth_ts, Some(2_000));
    assert_eq!(m.cursor().last_line_no, 2);
}

#[test]
fn s3w_a1_shrink_resets_distill_cursor_and_re_reads_file() {
    let mut m = Memory::new();
    m.ingest_once(&[(&sample(), "a\nb\nc\nd\ne\n")], 1_000);
    m.threads
        .get_mut(SAMPLE_THREAD_UUID)
        .unwrap()
        .cursor
        .last_distilled_line_no = 5;
    m.ingest_once(&[(&sample(), "x\ny\n")], 2_000);
    assert_eq!(m.payloads(SAMPLE_THREAD_UUID), numbered(&["x", "y"]));
    assert_eq!(m.cursor().last_offset, 4, "cursor lands on the shrunk EOF");
    assert_eq!(m.cursor().last_line_no, 2);
    assert_eq!(
        m.cursor().last_distilled_line_no,
        0,
        "shrink MUST reset last_distilled_line_no so the new content gets re-distilled"
    );
}

#[test]
fn file_that_never_had_a_line_stays_fresh() {
    let mut m = Memory::new();
    let stats = m.ingest_once(&[(&sample(), "")], 9);
    assert_eq!(stats.threads_touched, 1);
    assert_eq!(stats.events_inserted, 0);
    assert_eq!(m.cursor().last_growth_ts, None);
    assert_eq!(m.cursor(), ThreadCursor::fresh(9));
}

#[test]
fn rows_reflect_the_file_as_it_grows_and_shrinks() {
    let path = sample();
    let mut m = Memory::new();
    for (now, content) in [
        (1, "a\nb\nto"),
        (2, "a\nb\ntorn\n"),
        (3, "a\nb\ntorn\n"),
        (4, "z\n"),
    ] {
        m.ingest_file(&path, content.as_bytes(), now);
        let complete: Vec<&str> = content.split('\n').collect();
        assert_eq!(
            m.payloads(SAMPLE_THREAD_UUID),
            numbered(&complete[..complete.len() - 1])
        );
        assert_eq!(m.cursor().last_ingest_ts, now);
        assert_eq!(
            m.cursor().last_growth_ts,
            Some(if now == 3 { 2 } else { now })
        );
    }
}
