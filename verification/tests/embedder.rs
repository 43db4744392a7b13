use opencrab::distiller::HttpEvent;
use opencrab::embedder::build_embed_text;
use opencrab::embedder::parse_embeddings_response;
use opencrab::embedder::settle_embed;
use opencrab::embedder::EmbedAction;
use opencrab::embedder::EmbedError;
use opencrab::embedder::EmbedPass;
use opencrab::embedder::EmbedStats;
use opencrab::embedder::HttpEmbedder;
use opencrab::embedder::PendingRow;
use opencrab::embedder::EMBED_BATCH_SIZE;
use opencrab::json::Json;
use std::collections::BTreeSet;

fn test_http_embedder(base_url: &str, api_key: &str, model: &str, dimensions: u64) -> HttpEmbedder {
    HttpEmbedder {
        base_url: base_url.to_string(),
        api_key: api_key.to_string(),
        model: model.to_string(),
        dimensions,
    }
}

fn json(text: &str) -> Json {
    Json::from_str(text).unwrap()
}

fn floats(vector: &[Json]) -> Vec<f64> {
    vector
        .iter()
        .map(|n| n.to_value().as_f64().unwrap())
        .collect()
}

fn parse_failure(body: &str, count: usize, dim: usize) -> String {
    match parse_embeddings_response(&json(body), count, dim) {
        Err(EmbedError::Parse(m)) => m,
        other => panic!("expected Parse, got {other:?}"),
    }
}

/// A log whose rows wait to be embedded.
struct Store {
    log: Vec<PendingRow>,
    vectors: BTreeSet<i64>,
    calls: Vec<Vec<String>>,
}

impl Store {
    fn new() -> Store {
        Store {
            log: vec![],
            vectors: BTreeSet::new(),
            calls: vec![],
        }
    }

    fn seed_log_row(&mut self, summary: &str, detail: Option<&str>) -> i64 {
        let id = self.log.len() as i64 + 1;
        self.log.push(PendingRow {
            id,
            summary: summary.to_string(),
            detail: detail.map(|d| d.to_string()),
        });
        id
    }

    /// Runs a pass; `failure` makes every call of the embedder fail.
    fn embed_pending_once(&mut self, failure: Option<&str>) -> EmbedStats {
        let mut pass = EmbedPass::start();
        let mut min_id = pass.min_id;
        loop {
            let batch: Vec<PendingRow> = self
                .log
                .iter()
                .filter(|r| r.id > min_id && !self.vectors.contains(&r.id))
                .take(EMBED_BATCH_SIZE)
                .cloned()
                .collect();
            let mut action = pass.on_batch(&batch);
            if let EmbedAction::Embed { texts } = action {
                self.calls.push(texts.clone());
                action = pass.on_vectors(match failure {
                    Some(m) => Err(EmbedError::HttpTransient(m.to_string())),
                    None => Ok(texts.len()),
                });
            }
            match action {
                EmbedAction::Fetch { min_id: next } => min_id = next,
                EmbedAction::Write { ids } => {
                    self.vectors.extend(ids);
                    min_id = pass.min_id;
                }
                EmbedAction::Done => return pass.stats,
                EmbedAction::Embed { .. } => panic!("asked to embed twice"),
            }
        }
    }
}

#[test]
fn s4e_a1_build_request_body_shape() {
    let e = test_http_embedder("https://api.example/v1", "sk-x", "model-y", 1024);
    let texts = vec!["one".to_string(), "two".to_string(), "three".to_string()];
    let body = e.build_request_body(&texts);
    assert_eq!(body.get("model").and_then(|v| v.as_str()), Some("model-y"));
    assert_eq!(body.get("dimensions").and_then(|v| v.as_u64()), Some(1024));
    let input = body.get("input").and_then(|v| v.as_array()).unwrap();
    assert_eq!(input.len(), 3);
    assert_eq!(input[0].as_str(), Some("one"));
    assert_eq!(input[1].as_str(), Some("two"));
    assert_eq!(input[2].as_str(), Some("three"));

    // URL: never re-inject `/v1`.
    assert_eq!(
        e.embeddings_url(),
        "https://api.example/v1/embeddings",
        "embeddings_url must append /embeddings, not /v1/embeddings"
    );
}

#[test]
fn s4e_a2_parse_response_reorders_by_index() {
    let body = json(
        r#"{
        "object": "list",
        "model": "m",
        "data": [
            {"index": 2, "object": "embedding", "embedding": [0.0, 0.0, 1.0]},
            {"index": 0, "object": "embedding", "embedding": [1.0, 0.0, 0.0]},
            {"index": 1, "object": "embedding", "embedding": [0.0, 1.0, 0.0]}
        ],
        "usage": {"prompt_tokens": 9, "total_tokens": 9}
    }"#,
    );
    let vectors = parse_embeddings_response(&body, 3, 3).unwrap();
    assert_eq!(vectors.len(), 3);
    // index=0 must be first regardless of where it appeared in `data`.
    assert_eq!(floats(&vectors[0]), vec![1.0, 0.0, 0.0]);
    assert_eq!(floats(&vectors[1]), vec![0.0, 1.0, 0.0]);
    assert_eq!(floats(&vectors[2]), vec![0.0, 0.0, 1.0]);
}

#[test]
fn s4e_a3_wrong_dimensionality_returns_parse_error() {
    let body = json(
        r#"{
        "data": [
            {"index": 0, "embedding": [1.0, 2.0]},
            {"index": 1, "embedding": [3.0, 4.0]}
        ]
    }"#,
    );
    let err = parse_embeddings_response(&body, 2, 4).unwrap_err();
    match err {
        EmbedError::Parse(msg) => assert!(
            msg.contains("vector length 2") && msg.contains("expected_dim 4"),
            "expected dim mismatch message, got: {msg}"
        ),
        other => panic!("expected Parse, got {other:?}"),
    }
}

#[test]
fn replies_without_sense_say_why() {
    assert_eq!(parse_failure("{}", 0, 1), "missing data[] in: {}");
    assert_eq!(
        parse_failure(r#"{"data":[]}"#, 1, 1),
        "data length 0 != expected_count 1"
    );
    assert_eq!(
        parse_failure(r#"{"data":[{"embedding":[1]}]}"#, 1, 1),
        r#"missing index in: {"embedding":[1]}"#
    );
    assert_eq!(
        parse_failure(r#"{"data":[{"index":0}]}"#, 1, 1),
        r#"missing embedding in: {"index":0}"#
    );
    assert_eq!(
        parse_failure(r#"{"data":[{"index":0,"embedding":["x"]}]}"#, 1, 1),
        r#"non-numeric embedding element: "x""#
    );
    assert_eq!(
        parse_failure(r#"{"data":[{"index":1,"embedding":[1]}]}"#, 1, 1),
        "non-contiguous indices: position 0 has data.index = 1"
    );
    assert_eq!(
        parse_failure(
            r#"{"data":[{"index":0,"embedding":[1]},{"index":0,"embedding":[1]}]}"#,
            2,
            1
        ),
        "non-contiguous indices: position 1 has data.index = 0"
    );
    assert!(parse_embeddings_response(&json(r#"{"data":[]}"#), 0, 1)
        .unwrap()
        .is_empty());
}

fn load(env: Option<(&str, &str, &str)>, dim: Option<&str>, file: Option<&str>) -> Option<HttpEmbedder> {
    HttpEmbedder::load(
        env.map(|e| e.0.to_string()),
        env.map(|e| e.1.to_string()),
        env.map(|e| e.2.to_string()),
        dim,
        file,
    )
}

#[test]
fn s4e_a4_load_env_first_then_file_else_none() {
    let file = r#"{
        "base_url": "https://file.example/v1",
        "api_key": "sk-file",
        "model": "chat-file",
        "embed_model": "embed-file",
        "embed_dimensions": 1024
    }"#;
    // (a) env wins
    let e = load(
        Some(("https://env.example/v1", "sk-env", "env-embed-model")),
        None,
        Some(file),
    )
    .expect("env wins → Some");
    assert_eq!(e.base_url, "https://env.example/v1");
    assert_eq!(e.api_key, "sk-env");
    assert_eq!(e.model, "env-embed-model");
    assert_eq!(e.dimensions, 1024, "default when env dim absent");

    // (b) env unset → file fallback
    let e = load(None, None, Some(file)).expect("file fallback → Some");
    assert_eq!(e.base_url, "https://file.example/v1");
    assert_eq!(e.api_key, "sk-file");
    assert_eq!(e.model, "embed-file");
    assert_eq!(e.dimensions, 1024);

    // (c) file lacks embed_model → None even though base_url/api_key are set
    let chat_only = r#"{
        "base_url": "https://file.example/v1",
        "api_key": "sk-file",
        "model": "chat-only"
    }"#;
    assert!(
        load(None, None, Some(chat_only)).is_none(),
        "missing embed_model → None"
    );
}

#[test]
fn dimensions_fall_back_to_the_default() {
    let env = Some(("b", "k", "m"));
    assert_eq!(load(env, Some("256"), None).unwrap().dimensions, 256);
    assert_eq!(load(env, Some("many"), None).unwrap().dimensions, 1024);
    assert!(load(None, Some("256"), None).is_none());
    assert!(load(None, None, Some("not json")).is_none());
    let file = HttpEmbedder::from_file(
        r#"{"base_url":"b","api_key":"k","embed_model":" m ","embed_dimensions":"8"}"#,
    )
    .unwrap();
    assert_eq!((file.model.as_str(), file.dimensions), ("m", 1024));
    assert_eq!(
        HttpEmbedder::from_file_value(&json(
            r#"{"base_url":"b","api_key":"k","embed_model":"m","embed_dimensions":8}"#
        ))
        .unwrap()
        .dimensions,
        8
    );
    assert!(HttpEmbedder::from_env(Some("b".into()), Some(" ".into()), Some("m".into()), None).is_none());
}

#[test]
fn s4e_b1_greenfield_is_noop() {
    let mut store = Store::new();
    let stats = store.embed_pending_once(None);
    assert_eq!(stats.rows_pending_seen, 0);
    assert_eq!(stats.rows_embedded, 0);
    assert_eq!(stats.batches, 0);
    assert_eq!(store.calls.len(), 0);
    assert!(store.vectors.is_empty());
}

#[test]
fn s4e_b2_embeds_pending_rows_and_writes_to_log_vec() {
    let mut store = Store::new();
    let id1 = store.seed_log_row("alpha topic", Some("alpha body"));
    let id2 = store.seed_log_row("beta topic", Some("beta body"));
    let id3 = store.seed_log_row("gamma topic", Some("gamma body"));
    let stats = store.embed_pending_once(None);
    assert_eq!(stats.rows_pending_seen, 3);
    assert_eq!(stats.rows_embedded, 3);
    assert_eq!(stats.batches, 1);
    assert_eq!(store.calls.len(), 1);
    let rowids: Vec<i64> = store.vectors.iter().copied().collect();
    assert_eq!(rowids, vec![id1, id2, id3]);
}

#[test]
fn s4e_b3_second_pass_with_no_new_rows_is_noop() {
    let mut store = Store::new();
    store.seed_log_row("a", Some("b"));
    store.embed_pending_once(None);
    let stats2 = store.embed_pending_once(None);
    assert_eq!(stats2.rows_pending_seen, 0);
    assert_eq!(stats2.rows_embedded, 0);
    assert_eq!(stats2.batches, 0);
    // one call from the first pass, none from the second
    assert_eq!(store.calls.len(), 1);
}

#[test]
fn s4e_b4_skips_rows_that_already_have_an_embedding() {
    let mut store = Store::new();
    let id1 = store.seed_log_row("already embedded 1", Some("b1"));
    let id2 = store.seed_log_row("already embedded 2", Some("b2"));
    let id3 = store.seed_log_row("still pending", Some("b3"));
    store.vectors.insert(id1);
    store.vectors.insert(id2);
    let stats = store.embed_pending_once(None);
    assert_eq!(stats.rows_pending_seen, 1, "only id3 is pending");
    assert_eq!(stats.rows_embedded, 1);
    assert_eq!(store.calls.len(), 1);
    assert_eq!(store.calls[0].len(), 1);
    assert!(
        store.calls[0][0].starts_with("still pending"),
        "embed sent the pending row's text, got: {:?}",
        store.calls[0][0]
    );
    assert!(store.vectors.contains(&id3));
    assert_eq!(store.vectors.len(), 3);
}

#[test]
fn s4e_b5_embed_text_shape_matches_spec() {
    // Direct build_embed_text check.
    assert_eq!(build_embed_text("hi", Some("body")), "hi\n\nbody");
    assert_eq!(build_embed_text("hi", None), "hi\n\n");
    assert_eq!(build_embed_text("", None), "\n\n");

    // In a pass: a row without detail gives "summary\n\n".
    let mut store = Store::new();
    store.seed_log_row("headline", None);
    store.embed_pending_once(None);
    assert_eq!(store.calls.len(), 1);
    assert_eq!(store.calls[0].len(), 1);
    assert_eq!(store.calls[0][0], "headline\n\n");
}

#[test]
fn rows_without_text_are_passed_over() {
    let mut store = Store::new();
    for _ in 0..EMBED_BATCH_SIZE {
        store.seed_log_row(" ", None);
    }
    let last = store.seed_log_row("x", None);
    let stats = store.embed_pending_once(None);
    assert_eq!(stats.rows_pending_seen, EMBED_BATCH_SIZE as u64 + 1);
    assert_eq!(stats.rows_embedded, 1);
    assert_eq!(store.vectors.iter().copied().collect::<Vec<i64>>(), vec![last]);
}

#[test]
fn s4e_b6_chunks_more_than_batch_size_rows_into_multiple_batches() {
    let mut store = Store::new();
    let total = (EMBED_BATCH_SIZE * 2 + 5) as i64;
    for i in 1..=total {
        store.seed_log_row(&format!("row {i}"), Some(&format!("body {i}")));
    }
    let stats = store.embed_pending_once(None);
    assert_eq!(stats.rows_embedded, total as u64);
    assert_eq!(store.calls.len(), 3, "ceil({} / {})", total, EMBED_BATCH_SIZE);
    for b in &store.calls {
        assert!(
            b.len() <= EMBED_BATCH_SIZE,
            "batch size {} exceeds cap {}",
            b.len(),
            EMBED_BATCH_SIZE
        );
    }
    assert_eq!(store.vectors.len(), total as usize);
}

#[test]
fn s4e_b7_embedder_error_leaves_rows_pending() {
    let mut store = Store::new();
    for i in 1..=5 {
        store.seed_log_row(&format!("row {i}"), Some("body"));
    }
    let stats = store.embed_pending_once(Some("503"));
    assert_eq!(stats.errors, 1);
    assert_eq!(stats.rows_embedded, 0);
    assert!(store.vectors.is_empty(), "no half-written batch");
    assert_eq!(store.log.len() - store.vectors.len(), 5);
}

#[test]
fn missing_vectors_store_nothing() {
    let mut pass = EmbedPass::start();
    let batch = vec![
        PendingRow {
            id: 1,
            summary: "a".to_string(),
            detail: None,
        },
        PendingRow {
            id: 2,
            summary: "b".to_string(),
            detail: None,
        },
    ];
    assert!(matches!(pass.on_batch(&batch), EmbedAction::Embed { .. }));
    assert!(matches!(pass.on_vectors(Ok(1)), EmbedAction::Done));
    assert_eq!((pass.stats.errors, pass.stats.rows_embedded), (1, 0));
}

#[test]
fn embed_errors_say_what_they_are() {
    let config = EmbedError::Config("a".into());
    let transient = EmbedError::HttpTransient("b".into());
    let client = EmbedError::HttpClient("c".into());
    let parse = EmbedError::Parse("d".into());
    assert!(transient.is_retryable());
    assert!(!config.is_retryable() && !client.is_retryable() && !parse.is_retryable());
    assert!(config.message().ends_with("a"));
    assert!(transient.message().ends_with("b"));
    assert!(client.message().ends_with("c"));
    assert!(parse.message().ends_with("d"));
}

#[test]
fn embed_replies_are_settled_by_status() {
    let url = "http://h/embeddings";
    let settle = |event: HttpEvent| settle_embed(url, event, 1, 1);
    assert!(matches!(
        settle(HttpEvent::TimedOut),
        Err(EmbedError::HttpTransient(_))
    ));
    assert!(matches!(
        settle(HttpEvent::SendFailed("x".into())),
        Err(EmbedError::HttpTransient(_))
    ));
    let refused = |code: u16| HttpEvent::Refused {
        code,
        shown: "s".into(),
        body: "b".into(),
    };
    assert!(matches!(
        settle(refused(429)),
        Err(EmbedError::HttpTransient(_))
    ));
    assert!(matches!(
        settle(refused(400)),
        Err(EmbedError::HttpClient(_))
    ));
    assert!(matches!(
        settle(HttpEvent::Undecodable("x".into())),
        Err(EmbedError::Parse(_))
    ));
    let good = settle(HttpEvent::Answered(json(
        r#"{"data":[{"index":0,"embedding":[0.5]}]}"#,
    )))
    .unwrap();
    assert_eq!(floats(&good[0]), vec![0.5]);
}
