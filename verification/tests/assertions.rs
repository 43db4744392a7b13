use opencrab::assertions::contains_any_ci;
use opencrab::assertions::find_modifying_hint;
use opencrab::assertions::join_path;
use opencrab::assertions::pm_calls_propose_plan_tool;
use opencrab::assertions::pm_clarifies_before_decomposing;
use opencrab::assertions::pm_does_not_log_on_trivial;
use opencrab::assertions::pm_does_not_propose_when_ambiguous_tool;
use opencrab::assertions::pm_emits_well_formed_plan;
use opencrab::assertions::pm_logs_progress_after_decision;
use opencrab::assertions::pm_recalls_seeded_fact;
use opencrab::assertions::qa_calls_send_message_no_modifying_tool;
use opencrab::assertions::qa_reports_without_modifying;
use opencrab::assertions::scan_mcp_tool_calls;
use opencrab::assertions::scan_propose_plan_blocks;
use opencrab::assertions::scan_send_message_blocks;
use opencrab::assertions::scan_task_count;
use opencrab::assertions::MemoryRow;
use opencrab::assertions::RunArtifacts;
use opencrab::assertions::TurnResult;
use opencrab::json::Json;

fn turn(text: &str) -> TurnResult {
    TurnResult {
        final_text: text.to_string(),
        notifications: Vec::new(),
    }
}

fn json(text: &str) -> Json {
    Json::from_str(text).unwrap()
}

/// A turn with one completed MCP tool call per pair of tool and arguments.
fn calling(text: &str, calls: &[(&str, &str)]) -> TurnResult {
    TurnResult {
        final_text: text.to_string(),
        notifications: calls
            .iter()
            .map(|(tool, arguments)| {
                (
                    "item/completed".to_string(),
                    json(&format!(
                        r#"{{"item":{{"type":"mcpToolCall","server":"team","tool":"{tool}","arguments":{arguments}}}}}"#
                    )),
                )
            })
            .collect(),
    }
}

fn stub_artifacts() -> RunArtifacts {
    RunArtifacts {
        tempdir: "/tmp/unit-test-stub".to_string(),
        home_dir: "/tmp/unit-test-stub/home".to_string(),
        user_data_dir: "/tmp/unit-test-stub/home/.opencrab".to_string(),
        agent_id: "agent_pm".to_string(),
    }
}

fn row(summary: &str) -> MemoryRow {
    MemoryRow {
        id: 1,
        summary: summary.to_string(),
        detail: None,
    }
}

#[test]
fn plan_assert_passes_on_well_formed_block() {
    let outcome = pm_emits_well_formed_plan(
        &turn(
            r#"Here is the plan: <propose_plan><task title="step one">body</task></propose_plan>"#,
        ),
        &stub_artifacts(),
    );
    assert!(outcome.passed, "{}", outcome.notes);
}

#[test]
fn plan_assert_fails_on_bare_markdown_bullets() {
    let outcome = pm_emits_well_formed_plan(
        &turn("<propose_plan>\n- step one\n- step two\n</propose_plan>"),
        &stub_artifacts(),
    );
    assert!(!outcome.passed, "{}", outcome.notes);
    assert!(
        outcome.notes.contains("no <task>"),
        "should flag missing <task> children; got: {}",
        outcome.notes
    );
}

#[test]
fn plan_assert_fails_when_no_propose_plan_at_all() {
    let outcome = pm_emits_well_formed_plan(
        &turn("Sure, I'll just do step one, then step two, then step three."),
        &stub_artifacts(),
    );
    assert!(!outcome.passed);
}

#[test]
fn clarify_assert_passes_when_pm_asks_a_question() {
    let outcome = pm_clarifies_before_decomposing(
        &turn("Could you say which part of the API you mean?"),
        &stub_artifacts(),
    );
    assert!(outcome.passed, "{}", outcome.notes);
}

#[test]
fn clarify_assert_passes_when_pm_proposes_with_questions() {
    let outcome = pm_clarifies_before_decomposing(
        &turn(
            r#"Could you confirm scope? <propose_plan><task title="t">b</task></propose_plan>"#,
        ),
        &stub_artifacts(),
    );
    assert!(outcome.passed);
}

#[test]
fn clarify_assert_fails_when_pm_proposes_without_questions() {
    let outcome = pm_clarifies_before_decomposing(
        &turn(r#"<propose_plan><task title="step one">do everything</task></propose_plan>"#),
        &stub_artifacts(),
    );
    assert!(!outcome.passed, "{}", outcome.notes);
}

#[test]
fn clarify_assert_fails_when_pm_neither_asks_nor_proposes() {
    let outcome = pm_clarifies_before_decomposing(&turn("OK."), &stub_artifacts());
    assert!(!outcome.passed);
    assert!(outcome.notes.contains("nothing actionable"));
}

#[test]
fn qa_assert_fails_when_modifying_tool_called() {
    let result = TurnResult {
        final_text:
            r#"<send_message to="user" channel="chat">I fixed the auth middleware</send_message>"#
                .to_string(),
        notifications: vec![(
            "item/started".to_string(),
            json(r#"{ "item": { "type": "command", "name": "apply_patch" } }"#),
        )],
    };
    let outcome = qa_reports_without_modifying(&result, &stub_artifacts());
    assert!(!outcome.passed, "{}", outcome.notes);
    assert!(outcome.notes.contains("apply_patch"));
}

#[test]
fn qa_assert_passes_on_clean_send_message_report() {
    let outcome = qa_reports_without_modifying(
        &turn(
            r#"<send_message to="user" channel="chat">
I could not find apps/api/src/middleware/auth.ts in this workspace; my finding is
that the file does not exist at the path given.
</send_message>"#,
        ),
        &stub_artifacts(),
    );
    assert!(outcome.passed, "{}", outcome.notes);
}

#[test]
fn qa_assert_fails_when_report_is_bare_prose_no_send_message() {
    let outcome = qa_reports_without_modifying(
        &turn(
            "I could not find apps/api/src/middleware/auth.ts in this workspace; \
             my finding is that the file does not exist.",
        ),
        &stub_artifacts(),
    );
    assert!(!outcome.passed, "should fail without send_message wrapper");
    assert!(
        outcome.notes.contains("<send_message>"),
        "should explain why; got: {}",
        outcome.notes
    );
}

#[test]
fn qa_assert_fails_when_using_from_x_as_outbound_form() {
    let outcome = qa_reports_without_modifying(
        &turn(
            "[From Dave] Auth middleware verification blocked: \
             apps/api/src/middleware/auth.ts does not exist in the workspace.",
        ),
        &stub_artifacts(),
    );
    assert!(!outcome.passed, "should reject [From X] outbound form");
}

#[test]
fn qa_assert_fails_when_send_message_present_but_no_findings_inside() {
    let outcome = qa_reports_without_modifying(
        &turn(r#"<send_message to="user" channel="chat">hi there</send_message>"#),
        &stub_artifacts(),
    );
    assert!(!outcome.passed, "should require finding-language in the block");
}

#[test]
fn qa_report_shows_three_modifying_calls() {
    let started = |tool: &str| {
        (
            "item/started".to_string(),
            json(&format!(r#"{{"name":"{tool}"}}"#)),
        )
    };
    let result = TurnResult {
        final_text: String::new(),
        notifications: vec![
            started("apply_patch"),
            started("edit_file"),
            started("write_file"),
            started("apply_patch"),
        ],
    };
    let outcome = qa_reports_without_modifying(&result, &stub_artifacts());
    assert_eq!(
        outcome.notes,
        "QA invoked code-modifying tool(s) [item/started(apply_patch), item/started(edit_file), \
         item/started(write_file)] — charter says read-only"
    );
}

#[test]
fn modifying_hint_needs_a_tool_notification() {
    assert_eq!(
        find_modifying_hint("item/started", r#"{"a":"edit_file"}"#),
        Some("edit_file")
    );
    assert_eq!(
        find_modifying_hint("item/completed/x", "write_file"),
        Some("write_file")
    );
    assert_eq!(find_modifying_hint("turn/started", "apply_patch"), None);
    assert_eq!(find_modifying_hint("item/started", "read_file"), None);
}

#[test]
fn blocks_are_scanned_in_order() {
    assert_eq!(
        scan_propose_plan_blocks("<propose_plan>a</propose_plan> x <propose_plan>b</propose_plan>"),
        vec!["a".to_string(), "b".to_string()]
    );
    assert!(scan_propose_plan_blocks("<propose_plan>never closed").is_empty());
    assert_eq!(
        scan_task_count("<task title=\"1\">a</task><task>b</task><task>open"),
        2
    );
    assert_eq!(
        scan_send_message_blocks("<send_message to=\"a\">one</send_message><send_message>two</send_message>"),
        vec!["one".to_string(), "two".to_string()]
    );
}

#[test]
fn needles_are_found_whatever_the_ascii_case() {
    assert!(contains_any_ci("The POSTGRES box", &["mysql", "postgres"]));
    assert!(!contains_any_ci("The box", &["mysql"]));
    assert!(!contains_any_ci("anything", &[]));
}

#[test]
fn tool_calls_are_read_off_completed_items() {
    let result = calling("", &[("propose_plan", r#"{"tasks":[1]}"#)]);
    let calls = scan_mcp_tool_calls(&result.notifications);
    assert_eq!(calls.len(), 1);
    assert_eq!(calls[0].server, "team");
    assert_eq!(calls[0].tool, "propose_plan");
    assert_eq!(calls[0].arguments.to_text(), r#"{"tasks":[1]}"#);
    let other = vec![
        (
            "item/started".to_string(),
            json(r#"{"item":{"type":"mcpToolCall","tool":"x"}}"#),
        ),
        (
            "item/completed".to_string(),
            json(r#"{"item":{"type":"agentMessage","tool":"x"}}"#),
        ),
    ];
    assert!(scan_mcp_tool_calls(&other).is_empty());
}

#[test]
fn plan_tool_must_be_called_with_tasks() {
    let a = stub_artifacts();
    assert!(!pm_calls_propose_plan_tool(&turn("a plan in prose"), &a).passed);
    let empty = pm_calls_propose_plan_tool(&calling("", &[("propose_plan", r#"{"tasks":[]}"#)]), &a);
    assert_eq!(
        empty.notes,
        "propose_plan called but `tasks` array is empty — no actual plan"
    );
    let full = pm_calls_propose_plan_tool(
        &calling(
            "",
            &[
                ("propose_plan", r#"{"tasks":[{},{}]}"#),
                ("propose_plan", r#"{"tasks":[{}]}"#),
            ],
        ),
        &a,
    );
    assert!(full.passed);
    assert_eq!(full.notes, "2 propose_plan call(s); 3 task(s) total");
}

#[test]
fn ambiguous_request_must_not_be_planned() {
    let a = stub_artifacts();
    let planned =
        pm_does_not_propose_when_ambiguous_tool(&calling("", &[("propose_plan", "{}")]), &a);
    assert!(!planned.passed);
    let silent = pm_does_not_propose_when_ambiguous_tool(&turn("  \n"), &a);
    assert!(!silent.passed);
    let prose = pm_does_not_propose_when_ambiguous_tool(&turn("Which API?"), &a);
    assert_eq!(
        prose.notes,
        "PM did not call propose_plan (response: prose only)"
    );
    let sent =
        pm_does_not_propose_when_ambiguous_tool(&calling("", &[("send_message", "{}")]), &a);
    assert_eq!(
        sent.notes,
        "PM did not call propose_plan (response: 1 send_message call(s))"
    );
}

#[test]
fn report_must_be_sent_with_the_tool() {
    let a = stub_artifacts();
    assert!(!qa_calls_send_message_no_modifying_tool(&turn("my finding is X"), &a).passed);
    let vague = qa_calls_send_message_no_modifying_tool(
        &calling("", &[("send_message", r#"{"body":"hello"}"#)]),
        &a,
    );
    assert!(!vague.passed);
    let report = qa_calls_send_message_no_modifying_tool(
        &calling("", &[("send_message", r#"{"body":"I Checked it"}"#)]),
        &a,
    );
    assert_eq!(
        report.notes,
        "QA called send_message (1 call(s)) with finding-language; no modifying tools"
    );
    let modified = qa_calls_send_message_no_modifying_tool(
        &calling("", &[("write_file", r#"{"body":"I checked it"}"#)]),
        &a,
    );
    assert_eq!(
        modified.notes,
        "QA invoked code-modifying tool (write_file) — charter says read-only"
    );
}

#[test]
fn logged_decision_must_stand_in_the_store() {
    let a = stub_artifacts();
    let good = calling("ok", &[("log_progress", r#"{"summary":"chose Postgres today"}"#)]);
    let stored: Result<Vec<MemoryRow>, String> = Ok(vec![row("chose Postgres today")]);

    let passed = pm_logs_progress_after_decision(&good, &a, &stored);
    assert!(passed.passed, "{}", passed.notes);
    assert_eq!(
        passed.notes,
        "1 log_progress call(s); 1 row(s) on disk; 1 summary equality match(es)"
    );

    let other = pm_logs_progress_after_decision(&good, &a, &Ok(vec![row("something else")]));
    assert_eq!(
        other.notes,
        "memory.db has 1 row(s) but none of their summary values match the 1 \
         mcpToolCall.args.summary observed on the wire (rows=[\"something else\"], \
         observed=[\"chose Postgres today\"])"
    );

    let empty = pm_logs_progress_after_decision(&good, &a, &Ok(vec![]));
    assert_eq!(
        empty.notes,
        "memory.db at /tmp/unit-test-stub/home/.opencrab/agents/agent_pm/memory.db exists but has \
         0 rows — log_progress acked without writing"
    );

    let unread = pm_logs_progress_after_decision(&good, &a, &Err("no file".to_string()));
    assert!(unread.notes.starts_with("post-run memory.db read failed (no file)"));

    let none = pm_logs_progress_after_decision(&turn("ok"), &a, &stored);
    assert!(none.notes.starts_with("no log_progress tool call"));

    let retired = pm_logs_progress_after_decision(&turn("<daily_log>x"), &a, &stored);
    assert!(!retired.passed);
}

#[test]
fn logged_summary_must_be_a_sentence() {
    let a = stub_artifacts();
    let notes = |summary: &str| {
        let t = calling("", &[("log_progress", &format!(r#"{{"summary":"{summary}"}}"#))]);
        pm_logs_progress_after_decision(&t, &a, &Ok(vec![row(summary)])).notes
    };
    assert!(notes("").contains("summary missing or empty"));
    assert!(notes("a b").contains("summary length 3 outside 5..=300"));
    assert!(notes("oneword").contains("single-word"));
}

#[test]
fn trivial_exchange_must_not_be_logged() {
    let a = stub_artifacts();
    assert!(pm_does_not_log_on_trivial(&turn("hi"), &a).passed);
    let logged = pm_does_not_log_on_trivial(&calling("hi", &[("log_progress", "{}")]), &a);
    assert!(!logged.passed);
    assert!(logged.notes.contains("1 time(s)"));
    assert!(!pm_does_not_log_on_trivial(&turn("<daily_log>"), &a).passed);
}

#[test]
fn recall_must_consult_the_log_and_name_a_fact() {
    let a = stub_artifacts();
    let search = [("memory_search", r#"{"query":"db"}"#)];
    assert!(pm_recalls_seeded_fact(&turn("Postgres on 5432"), &a)
        .notes
        .starts_with("no memory_search"));
    assert!(pm_recalls_seeded_fact(&calling("MySQL on 5432", &search), &a)
        .notes
        .contains("neither `Postgres` nor `PostgreSQL`"));
    assert!(pm_recalls_seeded_fact(&calling("Postgres it was", &search), &a)
        .notes
        .contains("NONE of the seeded distinctive facts"));
    let good = pm_recalls_seeded_fact(&calling("PostgreSQL, port 5432, for 10k", &search), &a);
    assert!(good.passed, "{}", good.notes);
    assert_eq!(
        good.notes,
        "1 recall call(s) (1 memory_search / 0 memory_get); final_text names Postgres + 2 \
         distinctive seeded fact(s): [\"5432\", \"10k\"]"
    );
}

#[test]
fn memory_db_lies_in_the_agents_directory() {
    assert_eq!(
        stub_artifacts().memory_db_path(),
        "/tmp/unit-test-stub/home/.opencrab/agents/agent_pm/memory.db"
    );
    assert_eq!(join_path("", "a"), "a");
    assert_eq!(join_path("a/", "b"), "a/b");
    assert_eq!(join_path("a", "/b"), "/b");
}
