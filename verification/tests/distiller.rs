use opencrab::distiller::extract_json_array_slice;
use opencrab::distiller::extraction_user_block;
use opencrab::distiller::knowledge_points_in;
use opencrab::distiller::normalize_kind;
use opencrab::distiller::parse_knowledge_points;
use opencrab::distiller::settle_chat;
use opencrab::distiller::should_distill;
use opencrab::distiller::strip_code_fence;
use opencrab::distiller::strip_think_blocks;
use opencrab::distiller::transient_status;
use opencrab::distiller::truncate_transcript;
use opencrab::distiller::DistillAction;
use opencrab::distiller::DistillCandidate;
use opencrab::distiller::DistillPass;
use opencrab::distiller::DistillPhase;
use opencrab::distiller::DistillStats;
use opencrab::distiller::ExtractError;
use opencrab::distiller::HttpEvent;
use opencrab::distiller::HttpExtractor;
use opencrab::distiller::KnowledgePoint;
use opencrab::distiller::DISTILL_IDLE_MS;
use opencrab::distiller::DISTILL_MAX_PENDING;
use opencrab::distiller::DISTILL_MAX_TRANSCRIPT_CHARS;
use opencrab::json::Json;
use opencrab::prompts::CONSOLIDATION_PROMPT;
use opencrab::prompts::EXTRACTION_PROMPT;
use std::collections::BTreeMap;
use std::collections::VecDeque;

fn test_http_extractor(base_url: &str, model: &str, api_key: &str) -> HttpExtractor {
    HttpExtractor {
        base_url: base_url.to_string(),
        model: model.to_string(),
        api_key: api_key.to_string(),
    }
}

fn message(role: &str, kind: &str, text: &str) -> String {
    format!(
        r#"{{"type":"response_item","payload":{{"type":"message","role":"{role}","content":[{{"type":"{kind}","text":"{text}"}}]}}}}"#
    )
}

fn user_msg_str(text: &str) -> String {
    message("user", "input_text", text)
}

fn assistant_msg_str(text: &str) -> String {
    message("assistant", "output_text", text)
}

fn compacted_str(summary: &str) -> String {
    format!(r#"{{"type":"compacted","payload":{{"message":"{summary}"}}}}"#)
}

fn reasoning_str(text: &str) -> String {
    format!(
        r#"{{"type":"response_item","payload":{{"type":"reasoning","summary":[{{"type":"summary_text","text":"{text}"}}]}}}}"#
    )
}

fn event_msg_str() -> String {
    r#"{"type":"event_msg","payload":{"type":"token_count"}}"#.to_string()
}

#[derive(Clone)]
enum FakeResult {
    Points(Vec<KnowledgePoint>),
    Transient(String),
    Client(String),
    Parse(String),
}

/// An extractor that answers from a queue, then with its fallback.
struct FakeExtractor {
    queue: VecDeque<FakeResult>,
    fallback: FakeResult,
    calls: Vec<(String, Option<String>)>,
}

impl FakeExtractor {
    fn always(fallback: FakeResult) -> Self {
        Self::with_sequence(vec![], fallback)
    }

    fn with_sequence(seq: Vec<FakeResult>, fallback: FakeResult) -> Self {
        Self {
            queue: seq.into_iter().collect(),
            fallback,
            calls: vec![],
        }
    }

    fn extract(
        &mut self,
        transcript: String,
        prior_summary: Option<String>,
    ) -> Result<Vec<KnowledgePoint>, ExtractError> {
        self.calls.push((transcript, prior_summary));
        match self.queue.pop_front().unwrap_or(self.fallback.clone()) {
            FakeResult::Points(kps) => Ok(kps),
            FakeResult::Transient(m) => Err(ExtractError::HttpTransient(m)),
            FakeResult::Client(m) => Err(ExtractError::HttpClient(m)),
            FakeResult::Parse(m) => Err(ExtractError::Parse(m)),
        }
    }
}

/// One thread with its lines, and the log that distillation writes.
struct Store {
    thread: DistillCandidate,
    events: BTreeMap<i64, String>,
    log: Vec<(KnowledgePoint, Option<String>)>,
}

impl Store {
    fn seed(
        last_line_no: i64,
        last_distilled_line_no: i64,
        last_growth_ts: Option<i64>,
        project_hash: Option<&str>,
        lines: &[String],
    ) -> Store {
        Store {
            thread: DistillCandidate {
                thread_id: "thr1".to_string(),
                project_hash: project_hash.map(|h| h.to_string()),
                last_line_no,
                last_distilled_line_no,
                last_growth_ts,
            },
            events: lines
                .iter()
                .enumerate()
                .map(|(i, l)| (i as i64 + 1, l.clone()))
                .collect(),
            log: vec![],
        }
    }

    fn cursor(&self) -> i64 {
        self.thread.last_distilled_line_no
    }

    /// Runs a pass, doing what it asks for.
    fn distill_once(&mut self, fake: &mut FakeExtractor, now_ms: i64) -> DistillStats {
        let candidates = if self.thread.last_line_no > self.thread.last_distilled_line_no {
            vec![self.thread.clone()]
        } else {
            vec![]
        };
        let mut pass = DistillPass::start(candidates, now_ms);
        let mut action = pass.step();
        loop {
            match action {
                DistillAction::Done => return pass.stats,
                DistillAction::ReadLines { after, up_to, .. } => {
                    let rows: Vec<(i64, &str)> = self
                        .events
                        .iter()
                        .filter(|(n, _)| **n > after && **n <= up_to)
                        .map(|(n, p)| (*n, p.as_str()))
                        .collect();
                    pass.on_lines(&rows);
                    action = pass.step();
                }
                DistillAction::Extract {
                    transcript,
                    prior_summary,
                } => {
                    assert!(pass.phase == DistillPhase::Reply);
                    let reply = fake.extract(transcript, prior_summary);
                    action = pass.on_reply(reply);
                }
                DistillAction::Advance { line_no, .. } => {
                    self.thread.last_distilled_line_no = line_no;
                    action = pass.step();
                }
                DistillAction::Write {
                    project_hash,
                    points,
                    line_no,
                    ..
                } => {
                    for p in points {
                        self.log.push((p, project_hash.clone()));
                    }
                    self.thread.last_distilled_line_no = line_no;
                    action = pass.step();
                }
                DistillAction::Leave => action = pass.step(),
            }
        }
    }
}

const NOW: i64 = 1_000_000;
const IDLE: Option<i64> = Some(NOW - DISTILL_IDLE_MS - 1);

fn point(summary: &str, detail: Option<&str>, kind: &str) -> KnowledgePoint {
    KnowledgePoint {
        summary: summary.into(),
        detail: detail.map(|d| d.into()),
        kind: kind.into(),
    }
}

#[test]
fn s3be_a1_clean_json_array_parses() {
    let s = r#"[
        {"summary":"x","detail":"d","kind":"decision"},
        {"summary":"y","detail":null,"kind":"fact"}
    ]"#;
    let kps = parse_knowledge_points(s).unwrap();
    assert_eq!(kps.len(), 2);
    assert_eq!(kps[0].summary, "x");
    assert_eq!(kps[0].detail.as_deref(), Some("d"));
    assert_eq!(kps[0].kind, "decision");
    assert_eq!(kps[1].summary, "y");
    assert!(kps[1].detail.is_none());
    assert_eq!(kps[1].kind, "fact");
}

#[test]
fn s3be_a2_strips_json_code_fence() {
    let s = "```json\n[{\"summary\":\"in-a-fence\",\"detail\":null,\"kind\":\"pattern\"}]\n```";
    let kps = parse_knowledge_points(s).unwrap();
    assert_eq!(kps.len(), 1);
    assert_eq!(kps[0].summary, "in-a-fence");
    assert_eq!(kps[0].kind, "pattern");

    // Unlabeled ``` fence also works.
    let unlabeled =
        "```\n[{\"summary\":\"plain-fence\",\"detail\":null,\"kind\":\"fact\"}]\n```";
    let kps2 = parse_knowledge_points(unlabeled).unwrap();
    assert_eq!(kps2.len(), 1);
    assert_eq!(kps2[0].summary, "plain-fence");
}

#[test]
fn s3be_a3_extracts_array_from_prose_wrapper() {
    let s = r#"Here is the JSON you asked for: [{"summary":"sliced","detail":null,"kind":"fact"}]. Hope this helps!"#;
    let kps = parse_knowledge_points(s).unwrap();
    assert_eq!(kps.len(), 1);
    assert_eq!(kps[0].summary, "sliced");
}

#[test]
fn s3be_a4_defaults_and_kind_normalization() {
    // Missing kind → "fact"; missing detail → None; invalid kind → "fact";
    // valid kind in different case → normalised lowercase.
    let s = r#"[
        {"summary":"missing-kind","detail":"d1"},
        {"summary":"missing-detail","kind":"failure"},
        {"summary":"bad-kind","detail":null,"kind":"banana"},
        {"summary":"upper-kind","detail":null,"kind":"DECISION"}
    ]"#;
    let kps = parse_knowledge_points(s).unwrap();
    assert_eq!(kps.len(), 4);

    assert_eq!(kps[0].kind, "fact");
    assert_eq!(kps[0].detail.as_deref(), Some("d1"));

    assert_eq!(kps[1].kind, "failure");
    assert!(kps[1].detail.is_none());

    assert_eq!(
        kps[2].kind, "fact",
        "unknown kind values fall back to 'fact'"
    );

    assert_eq!(kps[3].kind, "decision", "kind is normalised to lowercase");
}

#[test]
fn s3be_a5_empty_array_and_empty_summary_skip() {
    // "[]" → Ok(empty).
    assert_eq!(parse_knowledge_points("[]").unwrap(), Vec::new());
    // Element with empty / missing summary is skipped silently.
    let s = r#"[
        {"summary":"","detail":"ignored","kind":"failure"},
        {"summary":"   ","kind":"fact"},
        {"summary":"survivor","kind":"pattern"}
    ]"#;
    let kps = parse_knowledge_points(s).unwrap();
    assert_eq!(kps.len(), 1, "empty/whitespace summaries are silently dropped");
    assert_eq!(kps[0].summary, "survivor");
    assert_eq!(kps[0].kind, "pattern");
}

#[test]
fn s3be_a6_total_garbage_returns_err_no_panic() {
    assert!(parse_knowledge_points("absolutely no JSON here").is_err());
    assert!(parse_knowledge_points("").is_err());
    // Top-level non-array between brackets.
    assert!(
        parse_knowledge_points("{\"summary\":\"x\"}").is_err(),
        "no '[' → Err"
    );
    // Brackets but the body between them is gibberish.
    assert!(parse_knowledge_points("[this is not JSON]").is_err());
}

#[test]
fn s3be_b1_body_with_prior_summary_includes_prior_block() {
    let extractor = test_http_extractor("https://api.example/v1", "qwen-test", "sk-test");
    let body = extractor.build_request_body("USER: hi", Some("earlier we agreed X."));

    assert_eq!(body.get("model").and_then(|v| v.as_str()), Some("qwen-test"));
    let temperature = body
        .to_value()
        .get("temperature")
        .and_then(|v| v.as_f64())
        .unwrap();
    assert!(
        (0.0..=0.5).contains(&temperature),
        "temperature stays low: got {temperature}"
    );

    let messages = body.get("messages").and_then(|v| v.as_array()).unwrap();
    assert_eq!(messages.len(), 2);

    assert_eq!(messages[0].get("role").and_then(|v| v.as_str()), Some("system"));
    assert_eq!(
        messages[0].get("content").and_then(|v| v.as_str()),
        Some(EXTRACTION_PROMPT),
        "system message must be EXTRACTION_PROMPT verbatim"
    );

    assert_eq!(messages[1].get("role").and_then(|v| v.as_str()), Some("user"));
    let user_content = messages[1].get("content").and_then(|v| v.as_str()).unwrap();
    assert!(user_content.contains("[PRIOR CONTEXT SUMMARY]"));
    assert!(user_content.contains("earlier we agreed X."));
    assert!(user_content.contains("[TRANSCRIPT]"));
    assert!(user_content.contains("USER: hi"));
    // Prior block must come before the transcript block.
    let prior_idx = user_content.find("[PRIOR CONTEXT SUMMARY]").unwrap();
    let transcript_idx = user_content.find("[TRANSCRIPT]").unwrap();
    assert!(
        prior_idx < transcript_idx,
        "prior must precede transcript"
    );
}

#[test]
fn s3be_b1_body_without_prior_summary_omits_prior_block() {
    let extractor = test_http_extractor("https://api.example/v1", "model-x", "k");
    let body = extractor.build_request_body("USER: hi", None);

    let user_content = body.get("messages").and_then(|v| v.as_array()).unwrap()[1]
        .get("content")
        .and_then(|v| v.as_str())
        .unwrap();
    assert!(
        !user_content.contains("[PRIOR CONTEXT SUMMARY]"),
        "no PRIOR block when prior_summary is None: got {user_content:?}"
    );
    assert!(user_content.contains("[TRANSCRIPT]"));
    assert!(user_content.contains("USER: hi"));

    // model field propagates from the extractor.
    assert_eq!(body.get("model").and_then(|v| v.as_str()), Some("model-x"));
}

#[test]
fn s3d_h1_chat_completions_url_does_not_inject_v1() {
    let e1 = test_http_extractor("https://api.openai.com/v1", "m", "k");
    assert_eq!(
        e1.chat_completions_url(),
        "https://api.openai.com/v1/chat/completions"
    );
    let e2 = test_http_extractor("https://api.openai.com/v1/", "m", "k");
    assert_eq!(
        e2.chat_completions_url(),
        "https://api.openai.com/v1/chat/completions"
    );
    // Anti-regression: no double `/v1/v1` even if the base ended with /.
    assert!(!e1.chat_completions_url().contains("/v1/v1"));
    assert!(!e2.chat_completions_url().contains("/v1/v1"));
    // A non-v1-style base (e.g. dashscope) keeps its own version prefix.
    let e3 = test_http_extractor(
        "https://dashscope.aliyuncs.com/compatible-mode/v1",
        "qwen-max",
        "sk-test",
    );
    assert_eq!(
        e3.chat_completions_url(),
        "https://dashscope.aliyuncs.com/compatible-mode/v1/chat/completions"
    );
}

#[test]
fn s3d_h2_prompt_has_multiple_examples_and_empty_result_demo() {
    // The failure example.
    assert!(
        EXTRACTION_PROMPT.contains("\"kind\":\"failure\""),
        "Example 1 (failure) is missing"
    );
    // The decision example .
    assert!(
        EXTRACTION_PROMPT.contains("\"kind\":\"decision\""),
        "Example 2 (decision) is missing"
    );
    // The empty-result demo: contains the literal user/assistant
    // pair AND shows `[]` as the expected output.
    assert!(
        EXTRACTION_PROMPT.contains("thanks, that worked!"),
        "Example 3 (empty result) user line is missing"
    );
    assert!(
        EXTRACTION_PROMPT.contains("Glad it helped!"),
        "Example 3 (empty result) assistant line is missing"
    );
    // Soft cap line (with an en dash).
    assert!(
        EXTRACTION_PROMPT.contains("0–5"),
        "Soft cap '0–5 points' is missing from OUTPUT FORMAT"
    );
}

#[test]
fn s3cfg_b1_strips_paired_think_blocks_before_parsing() {
    let s = "<think>let me output [stuff] and reason</think>\n\
             [{\"summary\":\"s\",\"detail\":null,\"kind\":\"fact\"}]";
    let kps = parse_knowledge_points(s).unwrap();
    assert_eq!(kps.len(), 1, "exactly one KP after think-strip");
    assert_eq!(kps[0].summary, "s");
    assert_eq!(kps[0].kind, "fact");
}

#[test]
fn s3cfg_b1_strips_multiple_paired_think_blocks() {
    let s = "<think>first thinking with [</think>some text\n\
             <think>second [thinking step</think>\n\
             [{\"summary\":\"sharp\",\"kind\":\"decision\"}]";
    let kps = parse_knowledge_points(s).unwrap();
    assert_eq!(kps.len(), 1);
    assert_eq!(kps[0].summary, "sharp");
    assert_eq!(kps[0].kind, "decision");
}

#[test]
fn s3cfg_b2_no_think_blocks_unchanged_behavior() {
    let clean = r#"[{"summary":"plain","detail":"d","kind":"pattern"}]"#;
    let kps = parse_knowledge_points(clean).unwrap();
    assert_eq!(kps.len(), 1);
    assert_eq!(kps[0].summary, "plain");
    assert_eq!(kps[0].detail.as_deref(), Some("d"));
    assert_eq!(kps[0].kind, "pattern");

    // Fenced: the think-strip pass should
    // be a no-op when there are no think tags, so the fence path
    // continues to work.
    let fenced = "```json\n[{\"summary\":\"in-fence\",\"kind\":\"fact\"}]\n```";
    let kps2 = parse_knowledge_points(fenced).unwrap();
    assert_eq!(kps2.len(), 1);
    assert_eq!(kps2[0].summary, "in-fence");
}

#[test]
fn s3cfg_b1_unclosed_think_block_left_untouched_and_parse_errs() {
    let s = "<think>this never closes, and there is no array";
    assert!(parse_knowledge_points(s).is_err());
}

#[test]
fn s3be_c1_from_env_all_set_returns_some() {
    let extractor = from_env(
        Some("https://test.example/v1"),
        Some("qwen-test"),
        Some("sk-test"),
    )
    .expect("all three vars set → Some");
    assert_eq!(extractor.base_url, "https://test.example/v1");
    assert_eq!(extractor.model, "qwen-test");
    assert_eq!(extractor.api_key, "sk-test");
}

fn from_env(
    base_url: Option<&str>,
    model: Option<&str>,
    api_key: Option<&str>,
) -> Option<HttpExtractor> {
    HttpExtractor::from_env(
        base_url.map(|s| s.to_string()),
        model.map(|s| s.to_string()),
        api_key.map(|s| s.to_string()),
    )
}

#[test]
fn s3be_c1_from_env_missing_any_returns_none() {
    let (b, m, k) = (Some("https://x/v1"), Some("m"), Some("k"));
    assert!(from_env(None, m, k).is_none());
    assert!(from_env(b, None, k).is_none());
    assert!(from_env(b, m, None).is_none());
    assert!(from_env(b, m, k).is_some());
}

#[test]
fn s3be_c1_from_env_empty_string_treated_as_missing() {
    assert!(from_env(Some("   "), Some("m"), Some("k")).is_none());
}

fn load(env: Option<(&str, &str, &str)>, file: Option<&str>) -> Option<HttpExtractor> {
    HttpExtractor::load(
        env.map(|e| e.0.to_string()),
        env.map(|e| e.1.to_string()),
        env.map(|e| e.2.to_string()),
        file,
    )
}

#[test]
fn s3cfg_a1_env_present_takes_priority_over_file() {
    let extractor = load(
        Some(("https://env.example/v1", "env-model", "sk-env")),
        Some(r#"{"base_url":"https://this-must-not-win.example/v1","model":"wrong-model","api_key":"sk-wrong"}"#),
    )
    .expect("env should produce Some");
    assert_eq!(extractor.base_url, "https://env.example/v1");
    assert_eq!(extractor.model, "env-model");
    assert_eq!(extractor.api_key, "sk-env");
}

#[test]
fn s3cfg_a2_env_absent_falls_back_to_distiller_json() {
    let extractor = load(
        None,
        Some(r#"{"base_url":"https://file-fallback.example/v1","model":"file-model","api_key":"sk-file"}"#),
    )
    .expect("file fallback should produce Some");
    assert_eq!(extractor.base_url, "https://file-fallback.example/v1");
    assert_eq!(extractor.model, "file-model");
    assert_eq!(extractor.api_key, "sk-file");
}

#[test]
fn s3cfg_a3_neither_env_nor_file_returns_none() {
    assert!(load(None, None).is_none(), "no env + no file → distillation disabled");
    assert!(load(None, Some("not json")).is_none());
    assert!(load(None, Some(r#"{"base_url":"b","model":"m","api_key":" "}"#)).is_none());
}

#[test]
fn credentials_file_values_are_trimmed() {
    let v = Json::from_str(r#"{"base_url":" b ","model":"m\n","api_key":"k"}"#).unwrap();
    assert_eq!(
        HttpExtractor::from_file_value(&v),
        Some(test_http_extractor("b", "m", "k"))
    );
    assert_eq!(HttpExtractor::from_file_value(&Json::Null), None);
}

#[test]
fn s3d_a1_not_idle_low_pending_does_not_trigger() {
    let mut store = Store::seed(
        3,
        0,
        Some(NOW - 1_000),
        None,
        &[user_msg_str("hello"), assistant_msg_str("hi"), user_msg_str("ok")],
    );
    let mut fake = FakeExtractor::always(FakeResult::Points(vec![]));
    let stats = store.distill_once(&mut fake, NOW);
    assert_eq!(stats.threads_seen, 1);
    assert_eq!(stats.threads_triggered, 0);
    assert_eq!(stats.points_written, 0);
    assert_eq!(fake.calls.len(), 0, "must not call LLM when not triggered");
    assert_eq!(store.cursor(), 0, "cursor must not move");
}

#[test]
fn s3d_a2_idle_triggers_distill() {
    let mut store = Store::seed(
        3,
        0,
        IDLE,
        None,
        &[user_msg_str("hello"), assistant_msg_str("hi"), user_msg_str("ok")],
    );
    let mut fake = FakeExtractor::always(FakeResult::Points(vec![point("x", None, "fact")]));
    let stats = store.distill_once(&mut fake, NOW);
    assert_eq!(stats.threads_triggered, 1);
    assert!(fake.calls.len() >= 1, "idle thread should call LLM");
}

#[test]
fn s3d_a3_pending_overflow_triggers_even_when_not_idle() {
    let mut store = Store::seed(
        DISTILL_MAX_PENDING + 1,
        0,
        Some(NOW - 1_000),
        None,
        &[user_msg_str("flooding the buffer")],
    );
    let mut fake = FakeExtractor::always(FakeResult::Points(vec![]));
    let stats = store.distill_once(&mut fake, NOW);
    assert_eq!(stats.threads_triggered, 1);
}

#[test]
fn thread_that_never_grew_is_not_idle() {
    let cand = |last_line_no: i64, last_growth_ts: Option<i64>| DistillCandidate {
        thread_id: "t".to_string(),
        project_hash: None,
        last_line_no,
        last_distilled_line_no: 0,
        last_growth_ts,
    };
    assert!(!should_distill(&cand(1, None), NOW));
    assert!(!should_distill(&cand(1, Some(NOW - DISTILL_IDLE_MS)), NOW));
    assert!(should_distill(&cand(1, IDLE), NOW));
    assert!(!should_distill(&cand(DISTILL_MAX_PENDING, None), NOW));
    assert!(should_distill(&cand(DISTILL_MAX_PENDING + 1, None), NOW));
}

#[test]
fn s3d_b1_writes_kps_with_distill_origin_kind_and_project_hash() {
    let mut store = Store::seed(
        3,
        0,
        IDLE,
        Some("proj-abc123"),
        &[
            user_msg_str("how do I do X?"),
            assistant_msg_str("by Y because Z"),
            assistant_msg_str("done"),
        ],
    );
    let kps = vec![
        point(
            "Use Y for X",
            Some("Because Z applies in this repo's setup"),
            "decision",
        ),
        point(
            "Cache invalidation note",
            Some("a fenestration sentinel for FTS"),
            "fact",
        ),
    ];
    let mut fake = FakeExtractor::always(FakeResult::Points(kps));
    let stats = store.distill_once(&mut fake, NOW);
    assert_eq!(stats.points_written, 2);
    assert_eq!(store.log.len(), 2);
    for (_, project_hash) in &store.log {
        assert_eq!(project_hash.as_deref(), Some("proj-abc123"));
    }
    assert_eq!(store.log[0].0.summary, "Use Y for X");
    assert_eq!(store.log[0].0.kind, "decision");
    assert_eq!(store.log[1].0.summary, "Cache invalidation note");
    assert_eq!(store.log[1].0.kind, "fact");
    assert_eq!(store.cursor(), 3);
}

fn compacted_thread(summary: &str) -> Store {
    Store::seed(
        5,
        0,
        IDLE,
        None,
        &[
            user_msg_str("u1"),
            assistant_msg_str("a1"),
            compacted_str(summary),
            user_msg_str("u2"),
            assistant_msg_str("a2"),
        ],
    )
}

#[test]
fn s3d_c1_compacted_thread_passes_prior_summary_to_extractor() {
    let mut store = compacted_thread("rollup-summary");
    let mut fake = FakeExtractor::always(FakeResult::Points(vec![]));
    store.distill_once(&mut fake, NOW);
    assert_eq!(fake.calls.len(), 2, "two segments → two extract calls");
    assert!(
        fake.calls[0].1.is_none(),
        "first segment has no prior_summary (no boundary before it)"
    );
    assert_eq!(
        fake.calls[1].1.as_deref(),
        Some("rollup-summary"),
        "second segment carries the marker's message as prior_summary"
    );
    assert_eq!(store.cursor(), 5);
}

#[test]
fn s3d_c2_empty_transcript_segment_skips_llm_but_advances_cursor() {
    let mut store = Store::seed(
        3,
        0,
        IDLE,
        None,
        &[
            reasoning_str("internal thought"),
            event_msg_str(),
            reasoning_str("more thinking"),
        ],
    );
    let mut fake = FakeExtractor::always(FakeResult::Points(vec![]));
    let stats = store.distill_once(&mut fake, NOW);
    assert_eq!(
        fake.calls.len(),
        0,
        "all-Dropped segment must not invoke the LLM"
    );
    assert_eq!(stats.segments_processed, 1, "the segment still counts");
    assert_eq!(
        store.cursor(),
        3,
        "cursor advances past the empty segment so we don't see it again"
    );
    assert!(store.log.is_empty());
}

#[test]
fn s3d_d1_transient_error_does_not_advance_cursor() {
    let mut store = Store::seed(2, 0, IDLE, None, &[user_msg_str("u"), assistant_msg_str("a")]);
    let mut fake = FakeExtractor::always(FakeResult::Transient("503 backend".into()));
    let stats = store.distill_once(&mut fake, NOW);
    assert_eq!(stats.transient_errors, 1);
    assert_eq!(stats.points_written, 0);
    assert_eq!(
        store.cursor(),
        0,
        "cursor must stay put on transient — next pass retries"
    );
    assert!(store.log.is_empty());
}

#[test]
fn s3d_d2_client_error_does_not_advance_cursor() {
    let mut store = Store::seed(2, 0, IDLE, None, &[user_msg_str("u"), assistant_msg_str("a")]);
    let mut fake = FakeExtractor::always(FakeResult::Client("401 unauthorized".into()));
    let stats = store.distill_once(&mut fake, NOW);
    assert_eq!(stats.client_errors, 1);
    assert_eq!(stats.points_written, 0);
    assert_eq!(store.cursor(), 0);
    assert!(store.log.is_empty());
}

#[test]
fn s3d_d3_parse_error_advances_cursor_past_segment_continues_to_next() {
    let mut store = compacted_thread("rollup");
    let mut fake = FakeExtractor::with_sequence(
        vec![
            FakeResult::Parse("LLM emitted prose-only".into()),
            FakeResult::Points(vec![point("from seg2", None, "fact")]),
        ],
        FakeResult::Points(vec![]),
    );
    let stats = store.distill_once(&mut fake, NOW);
    assert_eq!(stats.parse_skips, 1, "exactly one parse skip");
    assert_eq!(stats.points_written, 1, "second segment's KP still landed");
    assert_eq!(
        store.cursor(),
        5,
        "cursor advanced past BOTH the parse-skipped segment AND the good one"
    );
    assert_eq!(store.log.len(), 1);
    assert_eq!(store.log[0].0.summary, "from seg2");
    assert_eq!(store.log[0].0.kind, "fact");
}

#[test]
fn s3d_e1_fully_distilled_thread_does_not_re_trigger() {
    let lines: Vec<String> = (1..=5).map(|i| user_msg_str(&format!("u{i}"))).collect();
    let mut store = Store::seed(5, 5, IDLE, None, &lines);
    let mut fake = FakeExtractor::always(FakeResult::Points(vec![]));
    let stats = store.distill_once(&mut fake, NOW);
    assert_eq!(stats.threads_seen, 0);
    assert_eq!(stats.threads_triggered, 0);
    assert_eq!(fake.calls.len(), 0);
}

#[test]
fn s3d_f1_long_transcript_is_truncated_with_marker() {
    let huge = "X".repeat(DISTILL_MAX_TRANSCRIPT_CHARS + 1_000);
    let mut store = Store::seed(
        2,
        0,
        IDLE,
        None,
        &[user_msg_str(&huge), assistant_msg_str("tail message")],
    );
    let mut fake = FakeExtractor::always(FakeResult::Points(vec![]));
    store.distill_once(&mut fake, NOW);
    let transcript = fake.calls.pop().expect("LLM should have been called once").0;
    let char_count = transcript.chars().count();
    assert!(
        char_count <= DISTILL_MAX_TRANSCRIPT_CHARS,
        "got {char_count} chars, max {DISTILL_MAX_TRANSCRIPT_CHARS}"
    );
    assert!(
        transcript.starts_with("[...earlier content truncated...]"),
        "must start with truncation marker"
    );
    assert!(transcript.ends_with("tail message"));
}

#[test]
fn transcript_that_fits_is_kept_whole() {
    let t = "字".repeat(DISTILL_MAX_TRANSCRIPT_CHARS);
    assert_eq!(truncate_transcript(&t), t);
    let longer = format!("{t}!");
    let cut = truncate_transcript(&longer);
    assert_eq!(cut.chars().count(), DISTILL_MAX_TRANSCRIPT_CHARS);
    assert!(cut.ends_with("字!"));
}

#[test]
fn failed_segment_stops_its_thread_only() {
    // The transient failure comes on the second segment: the first stays
    // written, and the cursor stays after it.
    let mut store = compacted_thread("m");
    let mut fake = FakeExtractor::with_sequence(
        vec![
            FakeResult::Points(vec![point("first", None, "fact")]),
            FakeResult::Transient("x".into()),
        ],
        FakeResult::Points(vec![]),
    );
    let stats = store.distill_once(&mut fake, NOW);
    assert_eq!((stats.points_written, stats.transient_errors), (1, 1));
    assert_eq!(store.cursor(), 3);
    // The next pass reads on after it.
    let mut fake = FakeExtractor::always(FakeResult::Points(vec![]));
    store.distill_once(&mut fake, NOW);
    assert_eq!(fake.calls.len(), 1);
    assert_eq!(store.cursor(), 5);
}

#[test]
fn errors_say_what_they_are() {
    let cases = [
        (ExtractError::Config("a".into()), "distill config error: a", false),
        (
            ExtractError::HttpTransient("b".into()),
            "distill http transient: b",
            true,
        ),
        (
            ExtractError::HttpClient("c".into()),
            "distill http client error: c",
            false,
        ),
        (ExtractError::Parse("d".into()), "distill parse error: d", false),
    ];
    for (e, shown, retryable) in cases {
        assert_eq!(e.message(), shown);
        assert_eq!(e.is_retryable(), retryable);
    }
}

#[test]
fn chat_replies_are_settled_by_status() {
    let url = "http://h/chat/completions";
    let refused = |code: u16| {
        settle_chat(
            url,
            HttpEvent::Refused {
                code,
                shown: format!("{code} X"),
                body: "b".to_string(),
            },
        )
        .unwrap_err()
    };
    for code in [408u16, 429, 500, 503, 599] {
        assert!(transient_status(code));
        assert!(matches!(refused(code), ExtractError::HttpTransient(_)));
    }
    for code in [400u16, 401, 404, 422, 600] {
        assert!(!transient_status(code));
        assert!(matches!(refused(code), ExtractError::HttpClient(_)));
    }
    assert!(matches!(
        settle_chat(url, HttpEvent::SendFailed("x".into())),
        Err(ExtractError::HttpTransient(_))
    ));
    assert!(matches!(
        settle_chat(url, HttpEvent::TimedOut),
        Err(ExtractError::HttpTransient(_))
    ));
    assert!(matches!(
        settle_chat(url, HttpEvent::Undecodable("x".into())),
        Err(ExtractError::Parse(_))
    ));
    let answered = |text: &str| settle_chat(url, HttpEvent::Answered(Json::from_str(text).unwrap()));
    assert_eq!(
        answered(r#"{"choices":[{"message":{"content":"hi"}}]}"#).unwrap(),
        "hi"
    );
    assert!(matches!(
        answered(r#"{"choices":[]}"#),
        Err(ExtractError::Parse(_))
    ));
}

#[test]
fn request_body_is_the_chat_shape() {
    let e = test_http_extractor("b", "m", "k");
    assert_eq!(
        e.build_chat_body("sys", "usr").to_text(),
        r#"{"messages":[{"content":"sys","role":"system"},{"content":"usr","role":"user"}],"model":"m","temperature":0.2}"#
    );
    assert!(CONSOLIDATION_PROMPT.contains("superseded_id"));
}

#[test]
fn replies_are_cleaned_up() {
    assert_eq!(strip_think_blocks("a<think>b</think>c"), "ac");
    assert_eq!(strip_think_blocks("a<think>b"), "a<think>b");
    assert_eq!(strip_code_fence("```json\n[1]\n```"), "[1]\n");
    assert_eq!(strip_code_fence("``` [1]```\n"), " [1]");
    assert_eq!(strip_code_fence(" plain "), "plain");
    assert_eq!(extract_json_array_slice("x [1] y [2] z").unwrap(), "[1] y [2]");
    assert!(extract_json_array_slice("] [").is_err());
    assert_eq!(normalize_kind(" Pattern "), "pattern");
    assert_eq!(normalize_kind("PATTERNS"), "fact");
    assert_eq!(
        knowledge_points_in(&Json::from_str(r#"[{"summary":" s ","detail":"","kind":"fact"},7]"#).unwrap())
            .unwrap(),
        vec![point("s", None, "fact")]
    );
    assert!(knowledge_points_in(&Json::Null).is_err());
    assert!(extraction_user_block("t", Some(" ")).contains("[TRANSCRIPT]"));
}
