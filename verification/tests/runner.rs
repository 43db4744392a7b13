use opencrab::assertions::RunArtifacts;
use opencrab::assertions::TurnResult;
use opencrab::fixture::check_turn;
use opencrab::fixture::fixtures;
use opencrab::fixture::seed_f_mem_recall;
use opencrab::fixture::select_fixtures;
use opencrab::fixture::AssertionKind;
use opencrab::fixture::PRELUDE_ROWS;
use opencrab::json::Json;
use opencrab::runner::build_config_toml;
use opencrab::runner::compose_args;
use opencrab::runner::extract_final_text;
use opencrab::runner::extract_thread_id;
use opencrab::runner::initialize_params;
use opencrab::runner::thread_start_params;
use opencrab::runner::turn_start_params;
use opencrab::runner::ComposeOutput;
use opencrab::runner::DriveAction;
use opencrab::runner::FixtureDrive;
use opencrab::runner::CLIENT_VERSION;

fn json(text: &str) -> Json {
    Json::from_str(text).unwrap()
}

fn said(id: &str, text: &str) -> (String, Json) {
    (
        "item/completed".to_string(),
        json(&format!(
            r#"{{"item":{{"type":"agentMessage","id":"{id}","text":"{text}"}}}}"#
        )),
    )
}

fn composed() -> ComposeOutput {
    ComposeOutput {
        developer_instructions: "dev".to_string(),
        kickoff_prompt: "kick".to_string(),
    }
}

#[test]
fn parameters_have_their_shapes() {
    assert_eq!(
        initialize_params(CLIENT_VERSION).to_text(),
        r#"{"capabilities":{"experimentalApi":true},"clientInfo":{"name":"codex_monitor","title":"Codex Monitor","version":"opencrab-eval/0.1"}}"#
    );
    assert_eq!(
        thread_start_params("/w", "dev", None, Some("/m")).to_text(),
        r#"{"approvalPolicy":"never","cwd":"/w","developerInstructions":"dev","sandbox":"danger-full-access"}"#
    );
    assert_eq!(
        thread_start_params("/w", "dev", Some("/t"), Some("/m"))
            .get("config")
            .unwrap()
            .to_text(),
        r#"{"mcp_servers.opencrab-memory":{"args":["--agent-id","_eval"],"command":"/m"},"mcp_servers.opencrab-team":{"args":[],"command":"/t"}}"#
    );
    assert_eq!(
        turn_start_params("t1", "hello").to_text(),
        r#"{"input":[{"text":"hello","textElements":[],"type":"text"}],"threadId":"t1"}"#
    );
}

#[test]
fn configuration_names_the_team_server_where_there_is_one() {
    let plain = build_config_toml("tok", None);
    assert!(plain.contains("experimental_bearer_token = \"tok\"\n"));
    assert!(!plain.contains("mcp_servers"));
    assert!(build_config_toml("tok", Some("/t"))
        .ends_with("\n[mcp_servers.opencrab-team]\ncommand = \"/t\"\nargs = []\n"));
}

#[test]
fn composer_arguments_are_in_order() {
    assert_eq!(
        compose_args("s", "r", "u", "p", "a", true),
        vec![
            "--yes",
            "tsx",
            "s",
            "--sidecar-root",
            "r",
            "--user-data",
            "u",
            "--project-data",
            "p",
            "--agent-id",
            "a",
            "--tools-mode"
        ]
    );
    assert_eq!(compose_args("s", "r", "u", "p", "a", false).len(), 11);
}

#[test]
fn thread_id_is_read_in_any_shape() {
    for text in [
        r#"{"threadId":"t"}"#,
        r#"{"thread":{"id":"t"}}"#,
        r#"{"result":{"thread":{"id":"t"}}}"#,
    ] {
        assert_eq!(extract_thread_id(&json(text)).as_deref(), Some("t"));
    }
    assert_eq!(extract_thread_id(&json(r#"{"id":"t"}"#)), None);
}

#[test]
fn final_text_takes_each_message_once() {
    let list = vec![
        said("1", "one"),
        ("item/started".to_string(), said("2", "early").1),
        said("1", "one again"),
        said("3", ""),
        said("2", "two"),
    ];
    assert_eq!(extract_final_text(&list), "one\n\ntwo");
    assert_eq!(extract_final_text(&vec![]), "");
}

#[test]
fn smooth_run_gives_the_user_turn() {
    let (mut drive, action) = FixtureDrive::start("/w", &composed(), Some("/t"), None, "turn");
    match action {
        DriveAction::Request { method, budget_secs, .. } => {
            assert_eq!((method, budget_secs), ("thread/start", 30));
        }
        other => panic!("{other:?}"),
    }
    match drive.on_answer(Ok(json(r#"{"threadId":"t1"}"#))) {
        DriveAction::Request { method, params, budget_secs } => {
            assert_eq!((method, budget_secs), ("turn/start", 60));
            assert_eq!(params.to_text(), turn_start_params("t1", "kick").to_text());
        }
        other => panic!("{other:?}"),
    }
    match drive.on_answer(Ok(Json::Null)) {
        DriveAction::Drain { stop_method, budget_secs } => {
            assert_eq!((stop_method, budget_secs), ("turn/completed", 180));
        }
        other => panic!("{other:?}"),
    }
    match drive.on_drained(Ok(vec![said("k", "kickoff answer")])) {
        DriveAction::Request { params, .. } => {
            assert_eq!(params.to_text(), turn_start_params("t1", "turn").to_text());
        }
        other => panic!("{other:?}"),
    }
    assert!(matches!(
        drive.on_answer(Ok(Json::Null)),
        DriveAction::Drain { .. }
    ));
    match drive.on_drained(Ok(vec![said("u", "user answer")])) {
        DriveAction::Finish(turn) => {
            assert_eq!(turn.final_text, "user answer");
            assert_eq!(turn.notifications.len(), 1);
        }
        other => panic!("{other:?}"),
    }
}

#[test]
fn failures_end_a_run() {
    let (mut drive, _) = FixtureDrive::start("/w", &composed(), None, None, "turn");
    match drive.on_answer(Ok(json(r#"{"x":1}"#))) {
        DriveAction::Fail(e) => {
            assert_eq!(e, r#"thread/start response missing thread id: {"x":1}"#);
        }
        other => panic!("{other:?}"),
    }
    let (mut drive, _) = FixtureDrive::start("/w", &composed(), None, None, "turn");
    assert!(matches!(
        drive.on_answer(Err("gone".to_string())),
        DriveAction::Fail(e) if e == "gone"
    ));
    let (mut drive, _) = FixtureDrive::start("/w", &composed(), None, None, "turn");
    drive.on_answer(Ok(json(r#"{"threadId":"t"}"#)));
    drive.on_answer(Ok(Json::Null));
    assert!(matches!(
        drive.on_drained(Err("late".to_string())),
        DriveAction::Fail(e) if e == "late"
    ));
}

#[test]
fn fixtures_are_selected_by_id() {
    let ids: Vec<&str> = fixtures().iter().map(|f| f.id).collect();
    assert_eq!(
        ids,
        vec![
            "01-pm-clear",
            "02-pm-ambiguous",
            "03-qa-verification",
            "F-mem-write",
            "F-mem-trivial-control",
            "F-mem-recall"
        ]
    );
    assert_eq!(select_fixtures(None).len(), 6);
    let mem = select_fixtures(Some("F-mem"));
    assert_eq!(mem.len(), 3);
    assert!(mem[2].seeds_memory && !mem[0].seeds_memory);
    assert_eq!(mem[0].assertion, AssertionKind::LogsDecision);
    assert!(select_fixtures(Some("none")).is_empty());
}

#[test]
fn fixtures_are_held_to_their_assertions() {
    let artifacts = RunArtifacts {
        tempdir: "/t".to_string(),
        home_dir: "/h".to_string(),
        user_data_dir: "/u".to_string(),
        agent_id: "a".to_string(),
    };
    let quiet = TurnResult {
        final_text: "hi".to_string(),
        notifications: vec![],
    };
    let none = Ok(vec![]);
    for f in fixtures() {
        let outcome = check_turn(f.assertion, &quiet, &artifacts, &none);
        let expected = matches!(
            f.assertion,
            AssertionKind::AsksBeforePlanning | AssertionKind::KeepsSilent
        );
        assert_eq!(outcome.passed, expected, "{}: {}", f.id, outcome.notes);
    }
}

#[test]
fn seeded_fact_is_the_oldest_of_more_rows_than_are_shown() {
    let rows = seed_f_mem_recall();
    assert_eq!(rows.len(), 12);
    assert!(rows.len() - 1 > PRELUDE_ROWS);
    assert_eq!(rows[0].ts, 1_775_952_000_000);
    assert!(rows[0].detail.contains("notes-pg-primary.internal.example.com:5432"));
    for w in rows.windows(2) {
        assert_eq!(w[1].ts - w[0].ts, 86_400_000);
    }
    assert!(rows[1..]
        .iter()
        .all(|r| !r.detail.contains("notes-pg-primary")));
}
