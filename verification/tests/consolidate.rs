use opencrab::consolidate::after_judge_call;
use opencrab::consolidate::audit_tsv;
use opencrab::consolidate::build_judge_pair_block;
use opencrab::consolidate::decide_merge;
use opencrab::consolidate::extract_json_object_slice;
use opencrab::consolidate::find_candidates;
use opencrab::consolidate::judge_verdict_in;
use opencrab::consolidate::parse_enabled_flag;
use opencrab::consolidate::parse_judge_verdict;
use opencrab::consolidate::parse_min_new_kps;
use opencrab::consolidate::JudgeOutcome;
use opencrab::consolidate::JudgeStep;
use opencrab::consolidate::JudgeVerdict;
use opencrab::consolidate::Judging;
use opencrab::consolidate::KpRef;
use opencrab::consolidate::Ledger;
use opencrab::consolidate::Link;
use opencrab::consolidate::LogRow;
use opencrab::consolidate::MergeDecision;
use opencrab::consolidate::PairResult;
use opencrab::consolidate::Relation;
use opencrab::consolidate::CONSOLIDATION_MIN_NEW_KPS;
use opencrab::consolidate::MAX_JUDGE_RETRIES;
use opencrab::distiller::ExtractError;
use opencrab::json::Json;

fn empty_ledger() -> Ledger {
    Ledger {
        rows: vec![],
        edges: vec![],
        audit: vec![],
        next_audit_id: 1,
    }
}

/// Adds a live row and gives back its id.
fn seed_kp_with_ts(ledger: &mut Ledger, ts: i64) -> i64 {
    let id = ledger.rows.len() as i64 + 1;
    ledger.rows.push(LogRow {
        id,
        ts,
        superseded_by: None,
    });
    id
}

fn supersede(ledger: &mut Ledger, id: i64, by: i64) {
    let i = ledger.find_row(id).unwrap();
    ledger.rows[i].superseded_by = Some(by);
}

fn sb(ledger: &Ledger, id: i64) -> Option<i64> {
    ledger.rows[ledger.find_row(id).unwrap()].superseded_by
}

fn audit(ledger: &Ledger, a: i64, b: i64) -> (i64, i64, String) {
    let row = ledger
        .audit
        .iter()
        .find(|r| r.kp_a == a && r.kp_b == b)
        .unwrap();
    (
        row.dry_run as i64,
        row.applied as i64,
        row.rationale.clone(),
    )
}

fn verdict(relation: Relation, superseded_id: Option<i64>) -> Result<JudgeVerdict, String> {
    Ok(JudgeVerdict {
        relation,
        rationale: "r".into(),
        superseded_id,
    })
}

fn bits(distance: f64) -> u64 {
    distance.to_bits()
}

fn link(from: i64, to: i64, distance: f64, threshold: f64) -> Link {
    Link {
        from,
        to,
        distance: bits(distance),
        far: distance >= threshold,
    }
}

#[test]
fn consolidation_trigger_counts_new_live_past_marker() {
    let mut ledger = empty_ledger();
    // 5 rows (ids 1..=5); #2 and #4 are superseded, so 1, 3 and 5 are live.
    let ids: Vec<i64> = (1..=5)
        .map(|i| seed_kp_with_ts(&mut ledger, 1_000 + i))
        .collect();
    supersede(&mut ledger, ids[1], ids[0]);
    supersede(&mut ledger, ids[3], ids[2]);

    // marker 0 (fresh): the 3 live rows.
    assert_eq!(ledger.count_new_live(0), 3, "marker 0 counts the 3 live KPs");

    // marker at id 3: of the live rows only id 5 lies beyond it.
    assert_eq!(
        ledger.count_new_live(ids[2]),
        1,
        "only live id>3 counts; dead id 4 excluded"
    );

    // marker at the top: nothing new.
    assert_eq!(ledger.max_log_id(), ids[4]);
    assert_eq!(ledger.count_new_live(ids[4]), 0, "marker at top: nothing new");
}

#[test]
fn consolidation_trigger_threshold_gate() {
    let mut ledger = empty_ledger();
    for i in 0..(CONSOLIDATION_MIN_NEW_KPS - 1) {
        seed_kp_with_ts(&mut ledger, 1_000 + i);
    }
    let n = ledger.count_new_live(0) as i64;
    assert_eq!(n, CONSOLIDATION_MIN_NEW_KPS - 1);
    assert!(
        ledger.plan_background_run(0, CONSOLIDATION_MIN_NEW_KPS).is_none(),
        "below threshold → loop would NOT fire"
    );
    seed_kp_with_ts(&mut ledger, 9_999);
    let n2 = ledger.count_new_live(0) as i64;
    assert_eq!(n2, CONSOLIDATION_MIN_NEW_KPS);
    assert!(
        ledger.plan_background_run(0, CONSOLIDATION_MIN_NEW_KPS).is_some(),
        "at threshold → loop WOULD fire"
    );
}

#[test]
fn marker_at_the_largest_id_counts_only_what_came_later() {
    let mut ledger = empty_ledger();
    assert_eq!(ledger.max_log_id(), 0);
    seed_kp_with_ts(&mut ledger, 1);
    seed_kp_with_ts(&mut ledger, 2);
    let marker = ledger.max_log_id();
    assert_eq!(ledger.count_new_live(marker), 0);
    seed_kp_with_ts(&mut ledger, 3);
    assert_eq!(ledger.count_new_live(marker), 1);
}

#[test]
fn after_a_run_the_next_waits_for_new_rows() {
    let mut ledger = empty_ledger();
    assert_eq!(ledger.plan_background_run(0, 1), None);
    let ids: Vec<i64> = (0..3).map(|i| seed_kp_with_ts(&mut ledger, 10 + i)).collect();
    assert_eq!(ledger.plan_background_run(0, 4), None);
    let marker = ledger.plan_background_run(0, 3).unwrap();
    assert_eq!(marker, ids[2]);
    supersede(&mut ledger, ids[0], ids[1]);
    assert_eq!(ledger.plan_background_run(marker, 1), None);
    let later = seed_kp_with_ts(&mut ledger, 20);
    assert_eq!(ledger.plan_background_run(marker, 1), Some(later));
    assert_eq!(ledger.plan_background_run(marker, 2), None);
}

#[test]
fn consolidation_env_parsers_truth_table() {
    // kill switch: ONLY "1"/"true" (trimmed, case-insensitive) enable.
    assert!(parse_enabled_flag(Some("1")));
    assert!(parse_enabled_flag(Some("true")));
    assert!(parse_enabled_flag(Some("TRUE")));
    assert!(parse_enabled_flag(Some("  true  ")));
    assert!(!parse_enabled_flag(None), "unset → OFF (default kill switch)");
    assert!(!parse_enabled_flag(Some("0")));
    assert!(!parse_enabled_flag(Some("false")));
    assert!(!parse_enabled_flag(Some("yes")));
    assert!(!parse_enabled_flag(Some("")));
    // threshold: a positive int overrides; else fall back to the default const.
    assert_eq!(parse_min_new_kps(Some("5")), 5);
    assert_eq!(parse_min_new_kps(Some("  42 ")), 42);
    assert_eq!(parse_min_new_kps(None), CONSOLIDATION_MIN_NEW_KPS);
    assert_eq!(
        parse_min_new_kps(Some("0")),
        CONSOLIDATION_MIN_NEW_KPS,
        "non-positive → default"
    );
    assert_eq!(parse_min_new_kps(Some("-3")), CONSOLIDATION_MIN_NEW_KPS);
    assert_eq!(parse_min_new_kps(Some("abc")), CONSOLIDATION_MIN_NEW_KPS);
}

#[test]
fn judge_verdict_parses_clean_object() {
    let v = parse_judge_verdict(
        r#"{"relation":"duplicate","rationale":"same lesson","superseded_id":null}"#,
    )
    .unwrap();
    assert_eq!(v.relation, Relation::Duplicate);
    assert_eq!(v.rationale, "same lesson");
    assert_eq!(v.superseded_id, None);
}

#[test]
fn judge_verdict_strips_think_and_fence() {
    let s = "<think>distance is 0.7 {not json}; but content shows a replacement</think>\n```json\n{\"relation\":\"supersede\",\"rationale\":\"B replaces A\",\"superseded_id\":4}\n```";
    let v = parse_judge_verdict(s).unwrap();
    assert_eq!(v.relation, Relation::Supersede);
    assert_eq!(v.superseded_id, Some(4));
}

#[test]
fn judge_verdict_slices_object_from_prose() {
    let s = [
        "Sure! My verdict",
        r#": {"relation":"no_action","rationale":"shared entity, different concern"} — hope that helps."#,
    ]
    .concat();
    let v = parse_judge_verdict(&s).unwrap();
    assert_eq!(v.relation, Relation::NoAction);
    assert_eq!(v.superseded_id, None);
}

#[test]
fn judge_verdict_accepts_numeric_string_superseded_id() {
    let v = parse_judge_verdict(r#"{"relation":"supersede","rationale":"x","superseded_id":"9"}"#)
        .unwrap();
    assert_eq!(v.superseded_id, Some(9));
}

#[test]
fn judge_verdict_rejects_unparseable() {
    assert!(parse_judge_verdict(r#"{"relation":"merge","rationale":"x"}"#).is_err());
    assert!(parse_judge_verdict(r#"{"rationale":"x","superseded_id":null}"#).is_err());
    assert!(parse_judge_verdict("no json object here").is_err());
}

#[test]
fn judge_verdict_is_read_off_a_value() {
    let v = Json::from_str(r#"{"relation":" Complement ","superseded_id":true}"#).unwrap();
    let verdict = judge_verdict_in(&v).unwrap();
    assert_eq!(verdict.relation, Relation::Complement);
    assert_eq!(verdict.rationale, "");
    assert_eq!(verdict.superseded_id, None);
}

#[test]
fn object_is_sliced_from_first_brace_to_last() {
    assert_eq!(extract_json_object_slice("a {b} {c} d").unwrap(), "{b} {c}");
    assert!(extract_json_object_slice("} {").is_err());
    assert!(extract_json_object_slice("{").is_err());
}

#[test]
fn relation_intent_action_mapping() {
    assert_eq!(Relation::Duplicate.intent_action(), "would_merge");
    assert_eq!(Relation::Supersede.intent_action(), "would_merge");
    assert_eq!(Relation::Contradiction.intent_action(), "would_contradict");
    assert_eq!(Relation::Complement.intent_action(), "leave");
    assert_eq!(Relation::NoAction.intent_action(), "leave");
}

#[test]
fn relation_names_are_read_back() {
    for r in [
        Relation::Duplicate,
        Relation::Supersede,
        Relation::Contradiction,
        Relation::Complement,
        Relation::NoAction,
    ] {
        assert_eq!(Relation::parse(r.as_str()), Some(r));
    }
    assert_eq!(Relation::parse("merge"), None);
}

#[test]
fn judge_sees_both_rows_and_the_distance() {
    let kp = |id: i64, detail: Option<&str>| KpRef {
        id,
        ts: 7,
        summary: "s".to_string(),
        detail: detail.map(|d| d.to_string()),
    };
    let block = build_judge_pair_block(&kp(1, Some("d1")), &kp(2, None), "0.4200");
    assert_eq!(
        block,
        "[VECTOR_DISTANCE] 0.4200   (reference only — does NOT determine the relation; larger ts = \
         more recent)\n\n[KP A]\nid: 1\nts: 7\nsummary: s\ndetail: d1\n\n[KP B]\nid: 2\nts: \
         7\nsummary: s\ndetail: <none>"
    );
}

#[test]
fn find_candidates_within_t_and_exclusions() {
    let (a, b, c) = (1, 2, 3);
    let t = 1.10;
    // a,b are near (≈0.05); c is far from both (≈1.41).
    let links = vec![
        link(a, b, 0.05, t),
        link(a, c, 1.41, t),
        link(b, a, 0.05, t),
        link(b, c, 1.38, t),
        link(c, b, 1.38, t),
        link(c, a, 1.41, t),
    ];

    let cands = find_candidates(&vec![a, b, c], &vec![], &links);
    assert!(
        cands.iter().any(|(x, y, _)| *x == a && *y == b),
        "a,b within T must be a candidate: {cands:?}"
    );
    assert!(
        !cands.iter().any(|(x, y, _)| *x == c || *y == c),
        "c is beyond T — no pair may include it: {cands:?}"
    );
    assert_eq!(cands, vec![(a, b, bits(0.05))], "each pair once");

    // superseded member removes the pair.
    assert!(
        find_candidates(&vec![a, c], &vec![], &links).is_empty(),
        "a superseded member excludes the pair"
    );

    // an existing audit row makes the pair idempotent-skip.
    assert!(
        find_candidates(&vec![a, b, c], &vec![(a, b)], &links).is_empty(),
        "an already-judged pair is skipped (idempotency)"
    );
    assert!(
        find_candidates(&vec![a, b, c], &vec![(b, a)], &links).is_empty(),
        "in whichever order it was judged"
    );
}

#[test]
fn distance_at_the_threshold_is_far() {
    let links = vec![link(1, 2, 1.10, 1.10), link(1, 1, 0.0, 1.10)];
    assert!(find_candidates(&vec![1, 2], &vec![], &links).is_empty());
}

/// The candidates of `n` rows that all lie near each other.
fn dense_candidates(n: i64) -> Vec<(i64, i64, u64)> {
    let live: Vec<i64> = (1..=n).collect();
    let mut links = Vec::new();
    for a in &live {
        for b in &live {
            links.push(link(*a, *b, 0.014, 1.10));
        }
    }
    find_candidates(&live, &vec![], &links)
}

fn dense_ledger(n: i64) -> Ledger {
    let mut ledger = empty_ledger();
    for i in 0..n {
        seed_kp_with_ts(&mut ledger, 1_000 + i);
    }
    ledger
}

/// A judge whose running calls end in no particular order.
struct MockJudge {
    max_in_flight: usize,
    calls: usize,
    error_on: Option<(i64, i64)>,
    pending_on: Option<(i64, i64)>,
    flaky_on: Option<(i64, i64)>,
    flaky_pending: usize,
    flaky_calls: usize,
}

impl MockJudge {
    fn new(error_on: Option<(i64, i64)>) -> MockJudge {
        MockJudge {
            max_in_flight: 0,
            calls: 0,
            error_on,
            pending_on: None,
            flaky_on: None,
            flaky_pending: 0,
            flaky_calls: 0,
        }
    }

    /// How a call on this pair ends.
    fn judge_pair(&mut self, a: i64, b: i64) -> JudgeOutcome {
        self.calls += 1;
        let no_action = |rationale: String| {
            JudgeOutcome::Verdict(JudgeVerdict {
                relation: Relation::NoAction,
                rationale,
                superseded_id: None,
            })
        };
        if Some((a, b)) == self.flaky_on {
            self.flaky_calls += 1;
            return if self.flaky_calls <= self.flaky_pending {
                JudgeOutcome::TimedOut
            } else {
                no_action("mock flaky recovered".to_string())
            };
        }
        if Some((a, b)) == self.pending_on {
            return JudgeOutcome::TimedOut;
        }
        if Some((a, b)) == self.error_on {
            return JudgeOutcome::Failed(ExtractError::HttpTransient("mock judge boom".into()));
        }
        no_action(format!("mock {a}<->{b}"))
    }

    /// Runs a whole pass.
    fn consolidate_once(
        &mut self,
        ledger: &mut Ledger,
        cands: &Vec<(i64, i64, u64)>,
        dry_run: bool,
    ) -> Option<usize> {
        let mut judging = Judging::start(cands, 120);
        let mut running: Vec<usize> = vec![];
        loop {
            while let Some(lane) = judging.next_call() {
                running.push(lane);
            }
            self.max_in_flight = self.max_in_flight.max(running.len());
            let Some(lane) = running.pop() else {
                break;
            };
            let call = self.judge_pair(cands[lane].0, cands[lane].1);
            if judging.call_ended(lane, call) {
                running.insert(0, lane);
            }
        }
        ledger.consolidate_once(99, judging, dry_run)
    }
}

fn audited(ledger: &Ledger) -> Vec<(i64, i64, String)> {
    ledger
        .audit
        .iter()
        .map(|r| (r.kp_a, r.kp_b, r.relation.clone()))
        .collect()
}

#[test]
fn dry_run_parallel_bounded() {
    let mut ledger = dense_ledger(6); // 6 rows → 15 candidate pairs
    let cands = dense_candidates(6);
    let n_cand = cands.len();
    assert!(n_cand >= 8, "need >=8 candidates to exercise the cap; got {n_cand}");

    let err_pair = (1, 2);
    let mut judge = MockJudge::new(Some(err_pair));
    let written = judge.consolidate_once(&mut ledger, &cands, true);
    assert_eq!(written, Some(n_cand), "one audit row per candidate (errors included)");
    assert_eq!(judge.calls, n_cand, "every candidate judged once");
    let maxc = judge.max_in_flight;
    assert!(maxc <= 8, "concurrency cap exceeded: {maxc}");
    assert!(maxc >= 2, "expected real overlap (bounded parallel), got {maxc}");

    let rows = audited(&ledger);
    assert_eq!(rows.len(), n_cand);
    let mut sorted = rows.clone();
    sorted.sort_by(|x, y| (x.0, x.1).cmp(&(y.0, y.1)));
    assert_eq!(rows, sorted, "audit rows written in deterministic (id_a,id_b) order");

    let err_row = rows.iter().find(|(a, b, _)| (*a, *b) == err_pair).unwrap();
    assert_eq!(err_row.2, "error", "errored pair records an error verdict");
    assert_eq!(
        rows.iter().filter(|(_, _, rel)| rel == "error").count(),
        1,
        "exactly one error row"
    );
    assert!(
        rows.iter()
            .filter(|(a, b, _)| (*a, *b) != err_pair)
            .all(|(_, _, rel)| rel == "no_action"),
        "the rest judged normally"
    );
    assert!(
        ledger.rows.iter().all(|r| r.superseded_by.is_none()),
        "dry-run must not set superseded_by"
    );
}

#[test]
fn audit_dump_always_written() {
    let mut ledger = dense_ledger(5); // 5 rows → 10 candidate pairs
    let cands = dense_candidates(5);
    let n_cand = cands.len();
    let results: Vec<PairResult> = cands
        .iter()
        .map(|(a, b, distance)| PairResult {
            a: *a,
            b: *b,
            distance: *distance,
            verdict: verdict(Relation::NoAction, None),
        })
        .collect();
    ledger.apply_results(7, results, true);

    let distances: Vec<String> = ledger
        .audit
        .iter()
        .map(|r| format!("{:.4}", f64::from_bits(r.distance)))
        .collect();
    assert_eq!(ledger.audit.len(), n_cand, "dump row count == candidate count");
    let body = audit_tsv(&ledger.audit, &distances);
    let mut lines = body.lines();
    assert_eq!(
        lines.next().unwrap(),
        "run_ts\tkp_a\tkp_b\tdistance\trelation\taction\tsuperseded_id\tdry_run\tapplied\trationale",
        "header columns"
    );
    assert_eq!(
        lines.next().unwrap(),
        "7\t1\t2\t0.0140\tno_action\tleave\tnull\t1\t0\tr"
    );
    assert_eq!(lines.count() + 1, n_cand, "one data line per candidate");
}

#[test]
fn audit_lines_stay_lines() {
    let mut ledger = dense_ledger(2);
    ledger.consolidate_pair(1, 1, 2, bits(0.5), Err("a\tb\nc".to_string()), false);
    let body = audit_tsv(&ledger.audit, &vec!["0.5000".to_string()]);
    assert!(body.ends_with("1\t1\t2\t0.5000\terror\terror\tnull\t0\t0\ta b c\n"));
}

#[test]
fn judge_call_has_hard_timeout() {
    let mut ledger = dense_ledger(6); // 15 candidate pairs
    let cands = dense_candidates(6);
    let n_cand = cands.len();
    let hang_pair = (1, 2);
    let mut judge = MockJudge {
        pending_on: Some(hang_pair),
        ..MockJudge::new(None)
    };
    let written = judge.consolidate_once(&mut ledger, &cands, true);
    assert_eq!(
        written,
        Some(n_cand),
        "every candidate written, incl. the timed-out pair"
    );
    assert_eq!(judge.calls, n_cand + MAX_JUDGE_RETRIES);

    let rows = audited(&ledger);
    assert_eq!(rows.len(), n_cand);
    let hung = ledger
        .audit
        .iter()
        .find(|r| (r.kp_a, r.kp_b) == hang_pair)
        .unwrap();
    assert_eq!(hung.relation, "error", "the hung pair records an error verdict");
    assert!(
        hung.rationale.contains("timeout"),
        "rationale names the timeout: {:?}",
        hung.rationale
    );
    assert_eq!(hung.rationale, "judge timeout after 3 attempts (120s each)");
    assert_eq!(
        rows.iter().filter(|(_, _, rel)| rel == "error").count(),
        1,
        "only the hung pair errors"
    );
    assert!(
        rows.iter()
            .filter(|(a, b, _)| (*a, *b) != hang_pair)
            .all(|(_, _, rel)| rel == "no_action"),
        "the other calls complete normally"
    );
}

#[test]
fn judge_timeout_is_retried_until_success() {
    let mut ledger = dense_ledger(6);
    let cands = dense_candidates(6);
    let n_cand = cands.len();
    let flaky_pair = (1, 2);
    // The first 2 attempts time out, the third recovers.
    let mut judge = MockJudge {
        flaky_on: Some(flaky_pair),
        flaky_pending: 2,
        ..MockJudge::new(None)
    };
    let written = judge.consolidate_once(&mut ledger, &cands, true);
    assert_eq!(
        written,
        Some(n_cand),
        "one audit row per candidate, incl. the recovered pair"
    );
    let rows = audited(&ledger);
    let recovered = rows
        .iter()
        .find(|(a, b, _)| (*a, *b) == flaky_pair)
        .unwrap();
    assert_eq!(
        recovered.2, "no_action",
        "timed-out pair recovered via retry, NOT 'error'"
    );
    assert_eq!(judge.flaky_calls, 3, "2 timeouts + 1 success = 3 attempts");
    assert_eq!(
        rows.iter().filter(|(_, _, rel)| rel == "error").count(),
        0,
        "no error rows — every pair resolved"
    );
}

#[test]
fn last_call_settles_whatever_its_end() {
    for attempt in 1..=MAX_JUDGE_RETRIES {
        assert!(matches!(
            after_judge_call(attempt, 120, JudgeOutcome::TimedOut),
            JudgeStep::Retry
        ));
    }
    assert!(matches!(
        after_judge_call(MAX_JUDGE_RETRIES + 1, 120, JudgeOutcome::TimedOut),
        JudgeStep::Settled(Err(_))
    ));
}

#[test]
fn pass_is_not_ended_before_every_pair_is_settled() {
    let cands = dense_candidates(2);
    let mut ledger = dense_ledger(2);
    let mut judging = Judging::start(&cands, 120);
    assert_eq!(judging.next_call(), Some(0));
    assert_eq!(judging.next_call(), None);
    // no call runs on such a pair
    assert!(!judging.call_ended(5, JudgeOutcome::TimedOut));
    assert!(judging.call_ended(0, JudgeOutcome::TimedOut));
    assert_eq!(ledger.consolidate_once(1, judging, false), None);
    assert!(ledger.audit.is_empty());
}

#[test]
fn apply_decide_merge_direction_matrix() {
    // duplicate → retire the older (by ts); survivor is the newer.
    assert_eq!(
        decide_merge(Relation::Duplicate, 10, 100, 20, 200, None),
        MergeDecision::Supersede { superseded: 10, survivor: 20 }
    );
    // duplicate tie on ts → the smaller id is the (retired) older one.
    assert_eq!(
        decide_merge(Relation::Duplicate, 20, 100, 10, 100, None),
        MergeDecision::Supersede { superseded: 10, survivor: 20 }
    );
    // supersede, judge agrees the older (10) is replaced → apply.
    assert_eq!(
        decide_merge(Relation::Supersede, 10, 100, 20, 200, Some(10)),
        MergeDecision::Supersede { superseded: 10, survivor: 20 }
    );
    // supersede, judge points at the NEWER (20) → direction mismatch → skip.
    assert_eq!(
        decide_merge(Relation::Supersede, 10, 100, 20, 200, Some(20)),
        MergeDecision::Skip("[apply skipped: judge/ts direction mismatch]")
    );
    // supersede co-temporal → trust the judge's named member.
    assert_eq!(
        decide_merge(Relation::Supersede, 10, 100, 20, 100, Some(20)),
        MergeDecision::Supersede { superseded: 20, survivor: 10 }
    );
    // supersede co-temporal, judge named neither → undeterminable → skip.
    assert_eq!(
        decide_merge(Relation::Supersede, 10, 100, 20, 100, None),
        MergeDecision::Skip("[apply skipped: supersede direction undeterminable]")
    );
    // non-merge relations.
    assert_eq!(
        decide_merge(Relation::Contradiction, 1, 0, 2, 0, None),
        MergeDecision::Contradict
    );
    assert_eq!(
        decide_merge(Relation::Complement, 1, 0, 2, 0, None),
        MergeDecision::Leave
    );
    assert_eq!(
        decide_merge(Relation::NoAction, 1, 0, 2, 0, None),
        MergeDecision::Leave
    );
}

#[test]
fn merge_decision_does_not_rest_on_the_order() {
    for judged in [None, Some(10), Some(20)] {
        for relation in [Relation::Duplicate, Relation::Supersede] {
            for (ta, tb) in [(100, 200), (200, 100), (100, 100)] {
                assert_eq!(
                    decide_merge(relation, 10, ta, 20, tb, judged),
                    decide_merge(relation, 20, tb, 10, ta, judged)
                );
            }
        }
    }
}

#[test]
fn apply_verdict_mutates_live_state() {
    let mut l = empty_ledger();
    let run_ts = 77;

    // duplicate → older(ts) superseded by newer; newer live; applied, dry=0.
    let d_old = seed_kp_with_ts(&mut l, 1_000);
    let d_new = seed_kp_with_ts(&mut l, 2_000);
    l.consolidate_pair(
        run_ts,
        d_old.min(d_new),
        d_old.max(d_new),
        bits(0.05),
        verdict(Relation::Duplicate, None),
        false,
    );
    assert_eq!(sb(&l, d_old), Some(d_new), "dup: older superseded by newer");
    assert_eq!(sb(&l, d_new), None, "dup: newer stays live");
    assert_eq!(
        audit(&l, d_old.min(d_new), d_old.max(d_new)),
        (0, 1, "r".into()),
        "dup audit dry=0 applied=1"
    );

    // supersede correct direction → older superseded.
    let s_old = seed_kp_with_ts(&mut l, 1_000);
    let s_new = seed_kp_with_ts(&mut l, 3_000);
    l.consolidate_pair(
        run_ts,
        s_old.min(s_new),
        s_old.max(s_new),
        bits(0.4),
        verdict(Relation::Supersede, Some(s_old)),
        false,
    );
    assert_eq!(sb(&l, s_old), Some(s_new), "supersede: older replaced");
    assert_eq!(sb(&l, s_new), None);
    assert_eq!(
        audit(&l, s_old.min(s_new), s_old.max(s_new)).1,
        1,
        "supersede applied"
    );

    // supersede WRONG direction (judge names the newer) → skip, both live, marked.
    let w_old = seed_kp_with_ts(&mut l, 1_000);
    let w_new = seed_kp_with_ts(&mut l, 4_000);
    l.consolidate_pair(
        run_ts,
        w_old.min(w_new),
        w_old.max(w_new),
        bits(0.4),
        verdict(Relation::Supersede, Some(w_new)),
        false,
    );
    assert_eq!(sb(&l, w_old), None, "mismatch: both stay live");
    assert_eq!(sb(&l, w_new), None, "mismatch: both stay live");
    let (_d, applied, rationale) = audit(&l, w_old.min(w_new), w_old.max(w_new));
    assert_eq!(applied, 0, "mismatch not applied");
    assert!(
        rationale.contains("[apply skipped: judge/ts direction mismatch]"),
        "rationale marks mismatch: {rationale:?}"
    );

    // contradiction → an edge linked to its audit row; no superseded_by.
    let c1 = seed_kp_with_ts(&mut l, 1_000);
    let c2 = seed_kp_with_ts(&mut l, 1_000);
    l.consolidate_pair(
        run_ts,
        c1.min(c2),
        c1.max(c2),
        bits(0.6),
        verdict(Relation::Contradiction, None),
        false,
    );
    let edges: Vec<i64> = l
        .edges
        .iter()
        .filter(|e| e.id_a == c1.min(c2) && e.id_b == c1.max(c2))
        .map(|e| e.audit_id)
        .collect();
    assert_eq!(edges.len(), 1, "contradiction edge inserted");
    let audit_id = l
        .audit
        .iter()
        .find(|r| r.kp_a == c1.min(c2) && r.kp_b == c1.max(c2))
        .unwrap()
        .id;
    assert_eq!(edges[0], audit_id, "the edge links to its audit row");
    assert_eq!(sb(&l, c1), None, "contradiction leaves superseded_by untouched");
    assert_eq!(sb(&l, c2), None);
    assert_eq!(
        audit(&l, c1.min(c2), c1.max(c2)).1,
        1,
        "contradiction applied"
    );

    // referential integrity: survivor already superseded → skip, no chain.
    let dead = seed_kp_with_ts(&mut l, 5_000);
    supersede(&mut l, dead, d_new);
    let live_old = seed_kp_with_ts(&mut l, 1_500);
    // duplicate(live_old, dead): newer=dead would be survivor, but it's not live.
    l.consolidate_pair(
        run_ts,
        live_old.min(dead),
        live_old.max(dead),
        bits(0.05),
        verdict(Relation::Duplicate, None),
        false,
    );
    assert_eq!(sb(&l, live_old), None, "survivor-not-live: older stays live (no chain)");
    let (_d2, ap2, rat2) = audit(&l, live_old.min(dead), live_old.max(dead));
    assert_eq!(ap2, 0, "not applied when survivor not live");
    assert!(
        rat2.contains("[apply skipped: survivor no longer live]"),
        "marks survivor-not-live: {rat2:?}"
    );

    // referential integrity: loser already superseded → skip, first-survivor-wins.
    let z = seed_kp_with_ts(&mut l, 6_000);
    l.consolidate_pair(
        run_ts,
        d_old.min(z),
        d_old.max(z),
        bits(0.05),
        verdict(Relation::Duplicate, None),
        false,
    );
    assert_eq!(
        sb(&l, d_old),
        Some(d_new),
        "first-survivor-wins: d_old still points at d_new (not overwritten)"
    );
    assert_eq!(sb(&l, z), None, "loser-already-superseded: z untouched");
    let (_d3, ap3, rat3) = audit(&l, d_old.min(z), d_old.max(z));
    assert_eq!(ap3, 0, "not applied when loser already superseded");
    assert!(
        rat3.contains("[apply skipped: loser already superseded]"),
        "marks loser-already-superseded: {rat3:?}"
    );
}

#[test]
fn contradiction_is_recorded_once() {
    let mut l = dense_ledger(2);
    for _ in 0..2 {
        l.consolidate_pair(1, 1, 2, 0, verdict(Relation::Contradiction, None), false);
    }
    assert_eq!(l.edges.len(), 1);
    assert!(l.find_edge(1, 2));
    assert_eq!((l.audit[0].applied, l.audit[1].applied), (true, false));
}

#[test]
fn verdict_on_a_missing_row_is_refused() {
    for relation in [Relation::Contradiction, Relation::Duplicate] {
        let mut l = dense_ledger(1);
        l.consolidate_pair(1, 1, 7, 0, verdict(relation, None), false);
        assert!(l.edges.is_empty());
        assert!(!l.audit[0].applied);
        assert!(
            l.audit[0].rationale.contains("[apply skipped: KP missing]"),
            "rationale = {}",
            l.audit[0].rationale
        );
    }
}

#[test]
fn only_a_supersession_names_a_row() {
    let named = |relation: &str| {
        let reply =
            format!(r#"{{"relation":"{relation}","rationale":"x","superseded_id":4}}"#);
        parse_judge_verdict(&reply).unwrap().superseded_id
    };
    assert_eq!(named("supersede"), Some(4));
    assert_eq!(named("duplicate"), None);
    assert_eq!(named("contradiction"), None);
}

#[test]
fn second_pass_finds_nothing_to_judge() {
    let links = vec![
        link(1, 3, 0.2, 0.9),
        link(1, 2, 0.1, 0.9),
        link(2, 3, 0.3, 0.9),
    ];
    let mut l = dense_ledger(3);
    let found = find_candidates(&vec![1, 2, 3], &vec![], &links);
    let mut judge = MockJudge::new(Some((2, 3)));
    assert_eq!(judge.consolidate_once(&mut l, &found, false), Some(3));
    let judged: Vec<(i64, i64)> = l.audit.iter().map(|r| (r.kp_a, r.kp_b)).collect();
    assert_eq!(judged, vec![(1, 2), (1, 3), (2, 3)]);
    assert_eq!(l.audit[2].relation, "error");
    let live: Vec<i64> = (1..=3).filter(|id| sb(&l, *id).is_none()).collect();
    let again = find_candidates(&live, &judged, &links);
    assert!(again.is_empty());
    assert_eq!(judge.consolidate_once(&mut l, &again, false), Some(0));
    assert_eq!((judge.calls, l.audit.len()), (3, 3));
}

#[test]
fn relation_names_are_read_in_any_case() {
    for r in [
        Relation::Duplicate,
        Relation::Supersede,
        Relation::Contradiction,
        Relation::Complement,
        Relation::NoAction,
    ] {
        let name = format!(" \u{a0}{}\n", r.as_str().to_uppercase());
        assert_eq!(Relation::parse(&name), Some(r));
    }
}
