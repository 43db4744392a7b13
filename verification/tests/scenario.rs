use opencrab::corpus::ConsolidationRelation;
use opencrab::corpus::ExpectedSearch;
use opencrab::corpus::GroundTruth;
use opencrab::scenario::annotated_relation;
use opencrab::scenario::canon_ids;
use opencrab::scenario::check_audit;
use opencrab::scenario::check_search;
use opencrab::scenario::label_note;
use opencrab::scenario::locate_cases;
use opencrab::scenario::search_limit;
use opencrab::scenario::CorpusCase;
use opencrab::scenario::JudgedPair;

fn texts(words: &[&str]) -> Vec<String> {
    words.iter().map(|w| w.to_string()).collect()
}

fn groups(words: &[&[&str]]) -> Vec<Vec<String>> {
    words.iter().map(|g| texts(g)).collect()
}

/// A case with its locator groups and its relations to other cases.
fn case(id: &str, locators: &[&[&str]], relations: &[(&str, &str)]) -> CorpusCase {
    CorpusCase {
        id: id.to_string(),
        truth: GroundTruth {
            expected_distill_case_level: groups(locators),
            consolidation_relations: relations
                .iter()
                .map(|(with_case, relation)| ConsolidationRelation {
                    with_case: with_case.to_string(),
                    relation: relation.to_string(),
                    ..Default::default()
                })
                .collect(),
            ..Default::default()
        },
    }
}

fn judged(a: &str, b: &str, relation: &str) -> JudgedPair {
    JudgedPair {
        case_a: a.to_string(),
        case_b: b.to_string(),
        distance: "0.7900".to_string(),
        relation: relation.to_string(),
        superseded_id: None,
        dry_run: 1,
        applied: 0,
    }
}

fn wanted() -> ExpectedSearch {
    ExpectedSearch {
        query: "which queue".to_string(),
        limit: 0,
        expected_top1_summary_must_match_any: texts(&["kafka"]),
        expected_top1_summary_must_not_match: texts(&["redis"]),
        expected_topk_members: groups(&[&["NATS", "pulsar"]]),
    }
}

#[test]
fn search_asks_for_three_hits_unless_told() {
    let mut es = wanted();
    assert_eq!(search_limit(&es), 3);
    es.limit = 5;
    assert_eq!(search_limit(&es), 5);
}

#[test]
fn clean_search_meets_first_hit_and_groups() {
    let hits = texts(&["Picked Kafka", "Pulsar was slower"]);
    assert_eq!(check_search("C1", &wanted(), &hits), Ok(()));
}

#[test]
fn search_without_hits_is_a_fault() {
    assert_eq!(
        check_search("C1", &wanted(), &vec![]),
        Err(
            "[C1] query=\"which queue\": no hits; top-3 missing member-set [\"NATS\", \"pulsar\"]"
                .to_string()
        )
    );
}

#[test]
fn first_hit_is_held_to_both_lists() {
    let hits = texts(&["Chose Redis", "nats"]);
    assert_eq!(
        check_search("C1", &wanted(), &hits),
        Err(
            "[C1] query=\"which queue\": top1 \"Chose Redis\" matches none of [\"kafka\"]; \
             top1 \"Chose Redis\" hit must_not [\"redis\"]"
                .to_string()
        )
    );
}

#[test]
fn pair_has_one_name() {
    let name = ("C002".to_string(), "C010".to_string());
    assert_eq!(canon_ids("C002", "C010"), name);
    assert_eq!(canon_ids("C010", "C002"), name);
    assert_eq!(canon_ids("C1", "C10"), ("C1".to_string(), "C10".to_string()));
    assert_eq!(canon_ids("é", "z"), ("z".to_string(), "é".to_string()));
    assert_eq!(canon_ids("", "a"), (String::new(), "a".to_string()));
}

#[test]
fn narrow_case_claims_before_broad_one() {
    let cases = vec![
        case("broad", &[&["Kafka"]], &[]),
        case("none", &[], &[]),
        case("narrow", &[&["kafka"], &["exactly-once"]], &[]),
        case("also broad", &[&["kafka"]], &[]),
    ];
    let rows = vec![
        (11, "Kafka with exactly-once".to_string(), None),
        (12, "Queues".to_string(), Some("kafka it is".to_string())),
    ];
    // The narrow case takes the first row, the first broad one the other.
    assert_eq!(locate_cases(&cases, &rows), vec![(2, 11), (0, 12)]);
    assert_eq!(locate_cases(&cases, &vec![]), vec![]);
}

#[test]
fn last_word_on_a_pair_counts() {
    let cases = vec![
        case("C1", &[], &[("C2", "duplicate"), ("C2", "complement")]),
        case("C2", &[], &[("C1", "supersede")]),
        case("C3", &[], &[]),
    ];
    assert_eq!(annotated_relation(&cases, "C1", "C2"), Some("supersede"));
    assert_eq!(annotated_relation(&cases, "C2", "C1"), Some("supersede"));
    assert_eq!(annotated_relation(&cases, "C1", "C3"), None);
    let first = vec![case("C1", &[], &[("C2", "duplicate"), ("C2", "complement")])];
    assert_eq!(annotated_relation(&first, "C2", "C1"), Some("complement"));
}

#[test]
fn misjudged_pairs_fail() {
    let cases = vec![
        case("C1", &[], &[("C2", "false_neighbor"), ("C3", "duplicate")]),
        case("C4", &[], &[("C5", "contradiction"), ("C6", "complement")]),
        case("C019", &[], &[("C024", "false_neighbor")]),
    ];
    let pairs = vec![
        judged("C2", "C1", "supersede"),
        judged("C1", "C3", "complement"),
        judged("C4", "C5", "no_action"),
        judged("C4", "C6", "no_action"),
        judged("C019", "C024", "duplicate"),
        judged("C1", "C9", "duplicate"),
    ];
    let report = check_audit(0, 0, &pairs, &cases);
    assert_eq!(
        report.failures,
        texts(&[
            "HELD-OUT C2<->C1: gate ①: expected false_neighbor but judged supersede (soft-deletes useful memory) [L2=0.7900]",
            "HELD-OUT C1<->C3: gate ②: clear duplicate judged complement (must merge) [L2=0.7900]",
            "HELD-OUT C4<->C5: gate ③: contradiction judged no_action [L2=0.7900]",
            "HELD-OUT C019<->C024: gate ④/①: expected false_neighbor but judged duplicate (soft-deletes useful memory) [L2=0.7900]",
        ])
    );
    assert!(report.not_evaluated.is_empty());
}

#[test]
fn merges_pass_whatever_their_label() {
    let cases = vec![case("C1", &[], &[("C2", "duplicate"), ("C3", "supersede")])];
    for relation in ["duplicate", "supersede"] {
        let pairs = vec![judged("C1", "C2", relation), judged("C1", "C3", relation)];
        assert!(check_audit(0, 0, &pairs, &cases).failures.is_empty());
    }
}

#[test]
fn shown_pairs_are_no_test() {
    let cases = vec![case("C031", &[], &[("C032", "duplicate")])];
    for relation in ["complement", "error"] {
        let report = check_audit(0, 0, &vec![judged("C032", "C031", relation)], &cases);
        assert!(report.failures.is_empty());
        assert!(report.not_evaluated.is_empty());
    }
}

#[test]
fn failed_judgement_is_no_pass() {
    let cases = vec![case("C1", &[], &[("C2", "contradiction")])];
    let report = check_audit(0, 0, &vec![judged("C1", "C2", "error")], &cases);
    assert!(report.failures.is_empty());
    assert_eq!(
        report.not_evaluated,
        texts(&["C1<->C2 (expected contradiction) — judge error"])
    );
}

#[test]
fn dry_run_must_change_nothing() {
    let mut pair = judged("C1", "C2", "duplicate");
    pair.applied = 1;
    let report = check_audit(2, 1, &vec![pair], &vec![]);
    assert_eq!(
        report.failures,
        texts(&[
            "dry-run set superseded_by on 2 row(s) — must be 0",
            "dry-run wrote 1 log_contradiction row(s) — must be 0",
            "audit C1<->C2: dry_run/applied must be 1/0, got 1/1",
        ])
    );
}

#[test]
fn labels_are_remarked_on() {
    let mut pair = judged("C1", "C2", "supersede");
    pair.superseded_id = Some(7);
    assert_eq!(
        label_note("supersede", &pair),
        Some(
            "watched C1<->C2: supersede ✓ superseded_id=Some(7) (reconcile vs older-by-ts)"
                .to_string()
        )
    );
    assert_eq!(
        label_note("duplicate", &pair),
        Some(
            "advisory C1<->C2: expected duplicate, judged supersede (both merge — label only)"
                .to_string()
        )
    );
    assert_eq!(
        label_note("supersede", &judged("C1", "C2", "duplicate")),
        Some(
            "WATCHED C1<->C2: supersede mislabelled duplicate (still merges, loses direction — prompt-fix signal)"
                .to_string()
        )
    );
    assert_eq!(
        label_note("no_action", &judged("C1", "C2", "complement")),
        Some(
            "advisory C1<->C2: expected no_action, judged complement (both leave-live — label only)"
                .to_string()
        )
    );
    assert_eq!(label_note("contradiction", &judged("C1", "C2", "contradiction")), None);
}
