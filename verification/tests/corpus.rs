use opencrab::corpus::all_groups;
use opencrab::corpus::any_ci;
use opencrab::corpus::check_layer_a;
use opencrab::corpus::check_layer_b;
use opencrab::corpus::ci_contains;
use opencrab::corpus::classify;
use opencrab::corpus::dump_kps;
use opencrab::corpus::find_distilled_id;
use opencrab::corpus::kind_eq;
use opencrab::corpus::kind_notes;
use opencrab::corpus::locator_groups;
use opencrab::corpus::DistilledRow;
use opencrab::corpus::ExpectedDistill;
use opencrab::corpus::ExpectedIngest;
use opencrab::corpus::ExpectedKp;
use opencrab::corpus::ExpectedSegment;
use opencrab::corpus::GroundTruth;

const KEPT: &str = r#"{"type":"response_item","payload":{"type":"message","role":"user","content":[{"type":"input_text","text":"hi"}]}}"#;
const BOUNDARY: &str = r#"{"type":"compacted","payload":{"message":"m"}}"#;
const DROPPED: &str = r#"{"type":"event_msg"}"#;

fn row(kind: &str, summary: &str, detail: Option<&str>) -> DistilledRow {
    DistilledRow {
        kind: kind.to_string(),
        summary: summary.to_string(),
        detail: detail.map(|d| d.to_string()),
    }
}

fn texts(list: &[&str]) -> Vec<String> {
    list.iter().map(|s| s.to_string()).collect()
}

fn numbered(payloads: &[&str]) -> Vec<(i64, String)> {
    payloads
        .iter()
        .enumerate()
        .map(|(i, p)| (i as i64 + 1, p.to_string()))
        .collect()
}

fn expecting(kp: ExpectedKp) -> GroundTruth {
    GroundTruth {
        expected_distill: Some(ExpectedDistill {
            expected_kp_count: 1,
            knowledge_points: vec![kp],
        }),
        ..Default::default()
    }
}

#[test]
fn locator_falls_back_to_knowledge_points() {
    // No case_level, but a knowledge_point with Postgres tokens.
    let gt = GroundTruth {
        expected_distill: Some(ExpectedDistill {
            expected_kp_count: 1,
            knowledge_points: vec![ExpectedKp {
                summary_must_contain_any: vec!["Postgres".into(), "PG".into()],
                detail_must_mention_all: vec![vec!["事务".into(), "ACID".into()]],
                ..Default::default()
            }],
        }),
        ..Default::default()
    };
    let groups = locator_groups(&gt);
    assert!(!groups.is_empty(), "fallback must build groups from knowledge_points");
    assert!(
        all_groups("选择 PostgreSQL 作为会话存储，因 ACID 事务", &groups),
        "fallback locates the matching distilled row: {groups:?}"
    );
    assert!(!all_groups("用 Redis 做缓存", &groups), "non-matching row must NOT be located");
    // When case_level IS present it is used directly; the fallback isn't consulted.
    let gt2 = GroundTruth {
        expected_distill_case_level: vec![vec!["Kafka".to_string()]],
        ..Default::default()
    };
    assert_eq!(locator_groups(&gt2), vec![vec!["Kafka".to_string()]]);
}

#[test]
fn locators_leave_out_empty_groups() {
    let gt = expecting(ExpectedKp {
        detail_must_mention_all: vec![vec![], texts(&["a"])],
        ..Default::default()
    });
    assert_eq!(locator_groups(&gt), vec![texts(&["a"])]);
    assert!(locator_groups(&GroundTruth::default()).is_empty());
}

#[test]
fn matching_ignores_case() {
    assert!(ci_contains("PostgreSQL", "postgres"));
    assert!(ci_contains("STRASSE ÄÖ", "äö"));
    assert!(!ci_contains("a", "b"));
    assert!(!any_ci("text", &[]));
    assert!(any_ci("text", &texts(&["x", "EX"])));
    assert!(all_groups("ab", &[vec![], texts(&["B"])]));
    assert!(!all_groups("ab", &[texts(&["c"])]));
    assert!(kind_eq(" Fact ", "fact"));
    assert!(!kind_eq("fact", "facts"));
}

#[test]
fn lines_are_classed_by_name() {
    assert_eq!(classify(KEPT), "kept");
    assert_eq!(classify(BOUNDARY), "boundary");
    assert_eq!(classify(DROPPED), "dropped");
    assert_eq!(classify("not json"), "dropped");
}

#[test]
fn ingested_lines_that_agree_are_clean() {
    let exp = ExpectedIngest {
        raw_event_count: 3,
        kept_line_nos: vec![1],
        dropped_line_nos: vec![3],
        boundary_line_nos: vec![2],
    };
    let rows = numbered(&[KEPT, BOUNDARY, DROPPED]);
    assert_eq!(check_layer_a("C1", &Some(exp), &rows), Ok(()));
}

#[test]
fn ingested_lines_that_disagree_are_named() {
    assert_eq!(
        check_layer_a("C1", &None, &vec![]),
        Err("C1: missing expected_ingest".to_string())
    );
    let exp = ExpectedIngest {
        raw_event_count: 3,
        kept_line_nos: vec![1],
        dropped_line_nos: vec![],
        boundary_line_nos: vec![],
    };
    let rows = vec![(1, DROPPED.to_string()), (4, KEPT.to_string())];
    assert_eq!(
        check_layer_a("C1", &Some(exp), &rows),
        Err([
            "[C1] raw_event_count: ingester=2 yaml=3",
            "line_no set not contiguous 1..=2: got [1, 4]",
            "L1: parse_line(Rust)=dropped but yaml=kept  ::  {\"type\":\"event_msg\"}",
            "L4: Rust=kept but yaml lists no class for this line",
        ]
        .join("\n         "))
    );
}

#[test]
fn line_listed_twice_takes_the_later_class() {
    let exp = ExpectedIngest {
        raw_event_count: 1,
        kept_line_nos: vec![1],
        dropped_line_nos: vec![1],
        boundary_line_nos: vec![1],
    };
    assert!(check_layer_a("C", &Some(exp), &numbered(&[BOUNDARY])).is_ok());
}

#[test]
fn silent_case_fails_on_any_row() {
    let gt = GroundTruth::default();
    assert_eq!(
        check_layer_b("C", &gt, &vec![]),
        Ok("0 distilled row(s) match".to_string())
    );
    assert_eq!(
        check_layer_b("C", &gt, &vec![row("fact", "s", None)]),
        Err("[C] expected [] (no durable KP) but got 1 row(s)\n  ── actual LLM KPs (1 rows):\n    [0] kind=fact summary=s\n        detail=<none>".to_string())
    );
}

#[test]
fn expected_point_must_be_met() {
    let gt = expecting(ExpectedKp {
        kind: Some("decision".to_string()),
        summary_must_contain_any: texts(&["postgres"]),
        summary_must_not_contain: texts(&["mysql"]),
        detail_must_mention_all: vec![texts(&["acid", "事务"])],
        detail_must_not_mention: texts(&["redis"]),
    });
    let good = row("decision", "Use Postgres", Some("for ACID"));
    assert_eq!(
        check_layer_b("C", &gt, &vec![good.clone()]),
        Ok("1 distilled row(s) match".to_string())
    );
    // further rows are no fault
    assert!(check_layer_b("C", &gt, &vec![row("fact", "x", None), good.clone()]).is_ok());
    // the kind is advisory
    let other_kind = row("fact", "Use Postgres", Some("for ACID"));
    assert!(check_layer_b("C", &gt, &vec![other_kind.clone()]).is_ok());
    assert_eq!(
        kind_notes("C", &gt, &vec![other_kind]),
        vec!["C KIND ADVISORY: content matched but kind differs — expected \"decision\", got \"fact\" (summary_any=[\"postgres\"])".to_string()]
    );
    assert!(kind_notes("C", &gt, &vec![good.clone()]).is_empty());

    let missing = check_layer_b("C", &gt, &vec![]).unwrap_err();
    assert!(missing.starts_with(
        "[C] no row matches expected KP content: summary_any=[\"postgres\"] detail_all=[[\"acid\", \"事务\"]] (expected kind=Some(\"decision\"))"
    ), "{missing}");
    assert!(missing.ends_with("(0 rows): <none>"), "{missing}");

    // forbidden tokens leak from any row
    let leaky = vec![good, row("fact", "not MySQL", Some("nor Redis"))];
    let leaked = check_layer_b("C", &gt, &leaky).unwrap_err();
    assert!(
        leaked.contains("forbidden token \"mysql\" appeared in a summary: not MySQL"),
        "{leaked}"
    );
    assert!(
        leaked.contains("forbidden token \"redis\" appeared in a detail"),
        "{leaked}"
    );
}

#[test]
fn segments_are_taken_together() {
    let segment = |count: i64, token: &str| ExpectedSegment {
        expected_kp_count: count,
        knowledge_points: vec![ExpectedKp {
            summary_must_contain_any: texts(&[token]),
            ..Default::default()
        }],
        ..Default::default()
    };
    let gt = GroundTruth {
        expected_distill_segments: Some(vec![segment(1, "one"), segment(1, "two")]),
        ..Default::default()
    };
    let both = vec![row("fact", "one", None), row("fact", "two", None)];
    assert!(check_layer_b("C", &gt, &both).is_ok());
    assert!(check_layer_b("C", &gt, &vec![row("fact", "one", None)]).is_err());
}

#[test]
fn case_level_tokens_are_looked_for_in_all_rows() {
    let mut gt = expecting(ExpectedKp::default());
    gt.expected_distill_case_level = vec![texts(&["alpha"]), texts(&["beta"])];
    gt.expected_distill_case_level_forbidden = texts(&["session"]);
    let rows = vec![row("fact", "Alpha", None), row("fact", "x", Some("beta"))];
    assert!(check_layer_b("C", &gt, &rows).is_ok());
    let bad = check_layer_b("C", &gt, &vec![row("fact", "alpha Session", None)]).unwrap_err();
    assert!(
        bad.contains("case-level: no distilled row text matches any of [\"beta\"]"),
        "{bad}"
    );
    assert!(
        bad.contains("case-level forbidden token \"session\" appeared in a distilled row"),
        "{bad}"
    );
}

#[test]
fn rows_are_located_by_token() {
    let rows = vec![
        (3, "first".to_string(), None),
        (5, "second".to_string(), Some("Token".to_string())),
        (7, "third token".to_string(), None),
    ];
    assert_eq!(find_distilled_id(&rows, &texts(&["token"])), Some(5));
    assert_eq!(find_distilled_id(&rows, &texts(&["none"])), None);
    assert_eq!(find_distilled_id(&rows, &[]), None);
}

#[test]
fn rows_are_listed() {
    assert_eq!(dump_kps(&vec![]), " <none>");
    assert_eq!(
        dump_kps(&vec![row("a", "b", Some("c")), row("d", "e", None)]),
        "\n    [0] kind=a summary=b\n        detail=c\n    [1] kind=d summary=e\n        detail=<none>"
    );
}

#[test]
fn case_that_expects_nothing_gets_no_kind_note() {
    let mut gt = expecting(ExpectedKp {
        kind: Some("decision".to_string()),
        summary_must_contain_any: texts(&["postgres"]),
        summary_must_not_contain: vec![],
        detail_must_mention_all: vec![],
        detail_must_not_mention: vec![],
    });
    let rows = vec![row("fact", "Use Postgres", None)];
    assert_eq!(kind_notes("C", &gt, &rows).len(), 1);
    gt.expected_distill.as_mut().unwrap().expected_kp_count = 0;
    assert!(kind_notes("C", &gt, &rows).is_empty());
}
