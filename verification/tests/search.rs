use opencrab::embedder::EmbedError;
use opencrab::schema::BASELINE_SQL;
use opencrab::schema::STEP_1_SQL;
use opencrab::schema::STEP_4_SQL;
use opencrab::schema::STEP_7_SQL;
use opencrab::schema::STEP_8_SQL;
use opencrab::search::build_fts_match;
use opencrab::search::check_query_embedding;
use opencrab::search::clamp_limit;
use opencrab::search::get;
use opencrab::search::hits_in_order;
use opencrab::search::log_progress;
use opencrab::search::match_blocks;
use opencrab::search::merge_rankings;
use opencrab::search::plan_search;
use opencrab::search::rrf_merge;
use opencrab::search::search_ids;
use opencrab::search::split_blocks;
use opencrab::search::split_runs;
use opencrab::search::truncate_snippet;
use opencrab::search::LogText;
use opencrab::search::MemoryEntry;
use opencrab::search::MemoryHit;
use opencrab::search::QueryEmbedding;
use opencrab::search::RankedRow;
use opencrab::search::VectorPath;
use opencrab::search::DEFAULT_SEARCH_LIMIT;
use opencrab::search::MAX_SEARCH_LIMIT;
use opencrab::search::MAX_SNIPPET_CHARS;
use opencrab::search::SEARCH_POOL_MIN;
use rusqlite::Connection;

/// A log with its full-text index, and the rows nearest to any query.
struct Memory {
    conn: Connection,
    nearest: Vec<i64>,
}

impl Memory {
    fn new() -> Memory {
        let conn = Connection::open_in_memory().unwrap();
        for sql in [BASELINE_SQL, STEP_1_SQL, STEP_4_SQL, STEP_7_SQL, STEP_8_SQL] {
            conn.execute_batch(sql).unwrap();
        }
        Memory {
            conn,
            nearest: vec![],
        }
    }

    fn log_progress(&self, summary: &str, detail: Option<&str>) -> Result<i64, String> {
        let Some(row) = log_progress(1_000, summary, detail) else {
            return Err("empty summary".to_string());
        };
        self.conn
            .execute(
                "INSERT INTO log(ts, summary, detail) VALUES (?1, ?2, ?3)",
                (row.ts, row.summary, row.detail),
            )
            .unwrap();
        Ok(self.conn.last_insert_rowid())
    }

    fn row(&self, id: i64) -> Option<LogText> {
        self.conn
            .query_row(
                "SELECT ts, summary, detail FROM log WHERE id = ?1",
                (id,),
                |r| {
                    Ok(LogText {
                        ts: r.get(0)?,
                        summary: r.get(1)?,
                        detail: r.get(2)?,
                    })
                },
            )
            .ok()
    }

    fn get(&self, id: i64) -> MemoryEntry {
        get(id, self.row(id))
    }

    fn ranked(&self, id: i64) -> RankedRow {
        let superseded_by = self
            .conn
            .query_row("SELECT superseded_by FROM log WHERE id = ?1", (id,), |r| {
                r.get(0)
            })
            .unwrap();
        RankedRow { id, superseded_by }
    }

    fn fts_ranked_ids(&self, expr: &str, pool_size: usize) -> Vec<i64> {
        let mut stmt = self
            .conn
            .prepare(
                "SELECT log.id FROM log_fts JOIN log ON log.id = log_fts.rowid \
                 WHERE log_fts MATCH ?1 AND log.superseded_by IS NULL \
                 ORDER BY bm25(log_fts) LIMIT ?2",
            )
            .unwrap();
        let rows = stmt
            .query_map((expr, pool_size as i64), |r| r.get::<_, i64>(0))
            .unwrap();
        rows.map(|r| r.unwrap()).collect()
    }

    /// Searches, with how embedding the query ended where there is an embedder.
    fn search(&self, embedding: Option<QueryEmbedding>, query: &str, limit: usize) -> Vec<MemoryHit> {
        let Some(plan) = plan_search(query, limit) else {
            return vec![];
        };
        let fts = match &plan.fts_match {
            Some(expr) => {
                let found = self.fts_ranked_ids(expr, plan.pool_size);
                found.iter().map(|id| self.ranked(*id)).collect()
            }
            None => vec![],
        };
        let vector = match embedding {
            Some(embedding) => {
                let nearest = check_query_embedding(&embedding, 1024)
                    .ok()
                    .map(|_| Ok(self.nearest.iter().map(|id| self.ranked(*id)).collect()));
                VectorPath::Tried {
                    embedding,
                    dimensions: 1024,
                    nearest,
                }
            }
            None => VectorPath::NoEmbedder,
        };
        let ids = search_ids(query, limit, &fts, &vector);
        let rows: Vec<Option<LogText>> = ids.iter().map(|id| self.row(*id)).collect();
        hits_in_order(&ids, &rows)
    }
}

fn ids(hits: &[MemoryHit]) -> Vec<i64> {
    hits.iter().map(|h| h.id).collect()
}

fn embedded() -> Option<QueryEmbedding> {
    Some(QueryEmbedding::Vectors(vec![1024]))
}

#[test]
fn clamp_limit_defaults_and_bounds() {
    assert_eq!(clamp_limit(None), DEFAULT_SEARCH_LIMIT);
    assert_eq!(clamp_limit(Some(0)), 1);
    assert_eq!(clamp_limit(Some(1)), 1);
    assert_eq!(clamp_limit(Some(9999)), MAX_SEARCH_LIMIT);
}

#[test]
fn fts_match_short_cjk_observe() {
    let two = build_fts_match("缓存");
    assert!(two.is_none(), "2-char CJK query has no trigram-matchable term (>=3 floor)");
    let three = build_fts_match("缓存层");
    assert!(three.is_some(), "3-char CJK query is trigram-matchable");
}

#[test]
fn s4w_a2_rrf_merge_math_is_correct_on_known_inputs() {
    // Two lists, three docs, disagreement.
    let fts = vec![1_i64, 2, 3];
    let vec_list = vec![3_i64, 1, 2];
    // Hand-computed RRF (K=60, rank 1-based):
    //   id 1: 1/61 + 1/62 = 0.032526
    //   id 2: 1/62 + 1/63 = 0.031883
    //   id 3: 1/63 + 1/61 = 0.032265
    // Order (desc): 1, 3, 2.
    let merged = rrf_merge(&[&fts, &vec_list], 10);
    assert_eq!(merged, vec![1_i64, 3, 2]);

    // Ties on score → broken by id ASC.
    let merged2 = rrf_merge(&[&vec![1_i64, 2], &vec![2_i64, 1]], 10);
    // id 1: 1/61 + 1/62 = 0.032526
    // id 2: 1/62 + 1/61 = 0.032526 (same)
    // tie → smaller id wins
    assert_eq!(merged2, vec![1_i64, 2]);
}

#[test]
fn merging_cuts_to_the_limit() {
    assert_eq!(rrf_merge(&[&[5, 4, 3, 2, 1]], 2), vec![5, 4]);
    assert!(rrf_merge(&[], 5).is_empty());
    assert!(rrf_merge(&[&[1]], 0).is_empty());
    // an id that stands twice in a list earns twice
    assert_eq!(rrf_merge(&[&[1, 2, 2]], 5), vec![2, 1]);
}

#[test]
fn long_lists_are_merged_exactly() {
    let a: Vec<i64> = (1..=200).collect();
    let b: Vec<i64> = (1..=200).rev().collect();
    let merged = rrf_merge(&[&a, &b], 400);
    assert_eq!(merged.len(), 200);
    // the ends outrank the middle, and mirrored ids tie
    assert_eq!(&merged[..4], &[1, 200, 2, 199]);
    assert_eq!(&merged[198..], &[100, 101]);
}

#[test]
fn log_progress_inserts_summary_only() {
    let m = Memory::new();
    let id = m.log_progress("wrote a kickoff plan", None).unwrap();
    assert!(id > 0);
    let entry = m.get(id);
    assert!(entry.found);
    assert_eq!(entry.id, id);
    assert_eq!(entry.summary, "wrote a kickoff plan");
    assert_eq!(entry.detail, None);
    assert!(entry.ts > 0);
}

#[test]
fn log_progress_inserts_summary_and_detail() {
    let m = Memory::new();
    let id = m
        .log_progress(
            "shipped auth refactor",
            Some("Replaced the legacy session middleware with the JWT/OAuth flow."),
        )
        .unwrap();
    let entry = m.get(id);
    assert!(entry.found);
    assert_eq!(entry.summary, "shipped auth refactor");
    assert_eq!(
        entry.detail.as_deref(),
        Some("Replaced the legacy session middleware with the JWT/OAuth flow.")
    );
}

#[test]
fn log_progress_trims_summary_and_rejects_empty() {
    let m = Memory::new();
    assert!(m.log_progress("", None).is_err());
    assert!(m.log_progress("   \n\t  ", None).is_err());
    // Trim is applied so leading/trailing whitespace does not survive.
    let id = m.log_progress("  trimmed ok  ", None).unwrap();
    assert_eq!(m.get(id).summary, "trimmed ok");
}

#[test]
fn fts_round_trip_search_then_get() {
    let m = Memory::new();
    let id_a = m
        .log_progress(
            "auth refactor day 1",
            Some("Refactored the OAuth middleware to use the new token model."),
        )
        .unwrap();
    m.log_progress(
        "lunch break notes",
        Some("Unrelated standup notes about lunch and the cafeteria."),
    )
    .unwrap();

    let hits = m.search(None, "OAuth", 6);
    assert_eq!(hits.len(), 1, "hits = {hits:?}");
    assert_eq!(hits[0].id, id_a);
    assert_eq!(hits[0].summary, "auth refactor day 1");
    assert!(
        hits[0].snippet.contains("OAuth"),
        "snippet = {}",
        hits[0].snippet
    );
    assert!(hits[0].ts > 0);

    let entry = m.get(id_a);
    assert!(entry.found);
    assert_eq!(
        entry.detail.as_deref(),
        Some("Refactored the OAuth middleware to use the new token model.")
    );
}

#[test]
fn search_ranks_more_relevant_first_via_bm25() {
    let m = Memory::new();
    let id_two = m
        .log_progress(
            "review alpha vs beta",
            Some("We chose the alpha approach over beta after the review."),
        )
        .unwrap();
    let id_one = m
        .log_progress("tiny note", Some("Logged a few alpha notes."))
        .unwrap();

    let hits = m.search(None, "alpha beta", 6);
    assert_eq!(hits.len(), 2);
    assert_eq!(hits[0].id, id_two, "two-term match must rank first");
    assert_eq!(hits[1].id, id_one);
}

#[test]
fn search_returns_empty_for_query_with_no_searchable_terms() {
    let m = Memory::new();
    m.log_progress("real entry", Some("Real content here.")).unwrap();
    assert_eq!(m.search(None, "  !!!  ??? ", 6), Vec::new());
}

#[test]
fn search_returns_empty_on_fresh_db() {
    assert_eq!(Memory::new().search(None, "anything", 6), Vec::new());
}

#[test]
fn search_respects_the_limit() {
    let m = Memory::new();
    for n in 0..10 {
        m.log_progress(
            &format!("entry {n}"),
            Some("shared keyword line one keyword line"),
        )
        .unwrap();
    }
    let hits = m.search(None, "keyword", 3);
    assert_eq!(hits.len(), 3);
}

#[test]
fn search_skips_rows_with_null_detail() {
    let m = Memory::new();
    // summary-only rows are intentionally not full-text searchable.
    m.log_progress("keyword in summary only", None).unwrap();
    assert_eq!(m.search(None, "keyword", 6), Vec::new());
}

#[test]
fn get_reports_not_found_for_unknown_id() {
    let entry = Memory::new().get(999);
    assert!(!entry.found);
    assert_eq!(entry.id, 999);
    assert_eq!(entry.summary, "");
    assert_eq!(entry.detail, None);
}

#[test]
fn fts_match_cjk_substring() {
    let m = Memory::new();
    // Only `detail` is indexed, so the text to be matched must stand there.
    let target = m
        .log_progress(
            "会话存储选型",
            Some("我们的会话状态要持久化，最终选 Postgres 存储"),
        )
        .unwrap();
    // A neighbour in meaning without a chunk of the query.
    let noise_word = m
        .log_progress("状态机", Some("状态机设计采用事件驱动模式"))
        .unwrap();
    // Holds the query's 3-gram "状态用" but none of its chunks.
    let noise_trigram = m
        .log_progress("监控看板", Some("性能状态用量监控看板，与本主题无关"))
        .unwrap();

    let expr = build_fts_match("会话状态用什么存").expect("CJK query → MATCH expr");
    let hits = m.fts_ranked_ids(&expr, 50);
    assert!(hits.contains(&target), "RECALL: target row matched via detail 中文子串");
    assert!(
        !hits.contains(&noise_word),
        "PRECISION: 状态机设计 row must NOT match"
    );
    assert!(
        !hits.contains(&noise_trigram),
        "PRECISION: row sharing only the 3-gram 状态用 must NOT match — bounded segmentation, not a per-char 3-gram sweep"
    );
}

#[test]
fn fts_match_english_substring() {
    let m = Memory::new();
    let a = m.log_progress("a", Some("we are testing the parser")).unwrap(); // testing ⊃ test
    let b = m.log_progress("b", Some("won the contest yesterday")).unwrap(); // contest ⊃ test
    let c = m.log_progress("c", Some("completely unrelated body")).unwrap(); // no "test"
    let expr = build_fts_match("test").expect("english query");
    let hits = m.fts_ranked_ids(&expr, 50);
    assert!(
        hits.contains(&a) && hits.contains(&b),
        "trigram: 'test' substring-matches testing & contest"
    );
    assert!(!hits.contains(&c), "unrelated row not matched");
}

#[test]
fn queries_become_quoted_terms() {
    assert_eq!(
        split_blocks("OAuth2, 会话-x"),
        vec!["OAuth2", "", "会话", "x"]
    );
    assert_eq!(
        build_fts_match("alpha beta alpha").as_deref(),
        Some("\"alpha\" OR \"beta\"")
    );
    assert_eq!(build_fts_match("a bc"), None);
    assert_eq!(
        build_fts_match("会话状态用什么存").as_deref(),
        Some("\"会话状态\" OR \"用什么存\"")
    );
    assert_eq!(match_blocks(&vec![]), None);
    // a word that CJK text adjoins is matched whole
    assert_eq!(
        split_runs(&vec!["Redis缓存层v2".to_string()]),
        vec!["Redis", "缓存层", "v2"]
    );
    assert_eq!(
        build_fts_match("Redis缓存层").as_deref(),
        Some("\"Redis\" OR \"缓存层\"")
    );
    // `é` is a letter beyond ASCII
    assert_eq!(split_blocks("café!"), vec!["café", ""]);
}

#[test]
fn s4w_a1_rrf_merges_fts_and_vector_orderings_correctly() {
    let mut m = Memory::new();
    let id_a = m.log_progress("alpha", Some("alpha keyword keyword body")).unwrap();
    let id_b = m.log_progress("beta", Some("nothing matching here")).unwrap();
    let id_c = m.log_progress("gamma", Some("keyword tail")).unwrap();
    // The query lies on b's axis: b, then a, then c.
    m.nearest = vec![id_b, id_a, id_c];
    // The full-text ranking is a, then c.
    let merged = merge_rankings(&vec![id_a, id_c], &m.nearest, 40, 10);
    assert_eq!(
        merged,
        vec![id_a, id_c, id_b],
        "RRF must rank id_a (top of both lists indirectly) > id_c (both lists) > id_b (vector only)"
    );
    assert_eq!(
        ids(&m.search(embedded(), "keyword", 10)),
        vec![id_a, id_c, id_b],
        "RRF must rank id_a (top of both lists indirectly) > id_c (both lists) > id_b (vector only)"
    );
}

#[test]
fn s4w_b1_no_embedder_returns_pure_fts() {
    let m = Memory::new();
    let id_a = m.log_progress("a", Some("alpha beta keyword")).unwrap();
    m.log_progress("b", Some("nothing relevant")).unwrap();
    let hits = m.search(None, "keyword", 10);
    assert_eq!(hits.len(), 1);
    assert_eq!(hits[0].id, id_a);
}

#[test]
fn s4w_b2_embedder_error_falls_back_to_fts() {
    let mut m = Memory::new();
    let id_a = m.log_progress("a", Some("keyword in detail")).unwrap();
    let id_b = m.log_progress("b", Some("not relevant")).unwrap();
    m.nearest = vec![id_b, id_a];
    let failed = QueryEmbedding::Failed(EmbedError::HttpTransient("503 backend".into()));
    let hits = m.search(Some(failed), "keyword", 10);
    assert_eq!(hits.len(), 1, "FTS hits only — id_b has no 'keyword'");
    assert_eq!(hits[0].id, id_a);
}

#[test]
fn s4w_b3_empty_log_vec_returns_pure_fts() {
    let m = Memory::new();
    let id_a = m.log_progress("a", Some("keyword present")).unwrap();
    m.log_progress("b", Some("other content")).unwrap();
    let hits = m.search(embedded(), "keyword", 10);
    assert_eq!(hits.len(), 1);
    assert_eq!(hits[0].id, id_a);
}

#[test]
fn s4w_b4_query_embedding_dim_mismatch_falls_back_to_fts() {
    let mut m = Memory::new();
    let id_a = m.log_progress("a", Some("keyword body")).unwrap();
    let id_b = m.log_progress("b", Some("unrelated")).unwrap();
    m.nearest = vec![id_a, id_b];
    let hits = m.search(Some(QueryEmbedding::Vectors(vec![100])), "keyword", 10);
    assert_eq!(hits.len(), 1, "vector path dropped, FTS only");
    assert_eq!(hits[0].id, id_a);
}

#[test]
fn s4w_b5_embed_timeout_falls_back_to_fts() {
    let mut m = Memory::new();
    let id_a = m.log_progress("a", Some("keyword here")).unwrap();
    let id_b = m.log_progress("b", Some("unrelated")).unwrap();
    m.nearest = vec![id_b];
    let hits = m.search(Some(QueryEmbedding::TimedOut("50ms".into())), "keyword", 10);
    assert_eq!(hits.len(), 1);
    assert_eq!(hits[0].id, id_a);
}

#[test]
fn query_embedding_faults_say_why() {
    let why = |e: QueryEmbedding| check_query_embedding(&e, 3).unwrap_err();
    assert_eq!(
        why(QueryEmbedding::Vectors(vec![])),
        "embedder returned 0 vectors for 1 input"
    );
    assert_eq!(
        why(QueryEmbedding::Vectors(vec![2])),
        "query embedding dim 2 != embedder.dimensions() 3"
    );
    assert_eq!(why(QueryEmbedding::TimedOut("8s".into())), "embed timed out after 8s");
    assert!(why(QueryEmbedding::Failed(EmbedError::Parse("p".into()))).starts_with("embed error: "));
    assert!(check_query_embedding(&QueryEmbedding::Vectors(vec![3]), 3).is_ok());
}

#[test]
fn s4w_d1_search_filters_superseded_rows() {
    let mut m = Memory::new();
    let id_a = m.log_progress("a", Some("keyword alpha")).unwrap();
    let id_b = m.log_progress("b", Some("keyword beta")).unwrap();
    let id_c = m.log_progress("c", Some("keyword gamma")).unwrap();
    m.conn
        .execute(
            "UPDATE log SET superseded_by=?1 WHERE id=?2",
            (id_b, id_a),
        )
        .unwrap();
    // The query lies on a's axis: a, then b, then c.
    m.nearest = vec![id_a, id_b, id_c];
    let found = ids(&m.search(embedded(), "keyword", 10));
    assert!(!found.contains(&id_a), "superseded row must not surface: {found:?}");
    assert!(
        found.contains(&id_b) && found.contains(&id_c),
        "live survivors present: {found:?}"
    );
    assert_eq!(found.len(), 2, "result not emptied: {found:?}");
}

#[test]
fn s4w_c1_memory_hit_shape_unchanged() {
    let m = Memory::new();
    let id = m
        .log_progress(
            "headline",
            Some("body containing the keyword sentinel for FTS"),
        )
        .unwrap();
    let hits = m.search(None, "sentinel", 10);
    assert_eq!(hits.len(), 1);
    let h = &hits[0];
    assert_eq!(h.id, id);
    assert!(h.ts > 0);
    assert_eq!(h.summary, "headline");
    assert_eq!(h.snippet, "body containing the keyword sentinel for FTS");

    let entry = m.get(id);
    assert!(entry.found);
    assert_eq!(entry.summary, "headline");
    assert_eq!(
        entry.detail.as_deref(),
        Some("body containing the keyword sentinel for FTS")
    );
}

#[test]
fn plan_widens_the_pool_with_the_limit() {
    assert!(plan_search("  ", 5).is_none());
    assert!(plan_search("q", 0).is_none());
    let small = plan_search("keyword", 3).unwrap();
    assert_eq!(small.pool_size, SEARCH_POOL_MIN);
    assert_eq!(small.knn_k, SEARCH_POOL_MIN * 2);
    assert_eq!(small.fts_match.as_deref(), Some("\"keyword\""));
    let large = plan_search("q", 25).unwrap();
    assert_eq!(large.pool_size, 100);
    assert_eq!(large.fts_match, None);
}

#[test]
fn long_details_are_cut() {
    let exact = "字".repeat(MAX_SNIPPET_CHARS);
    assert_eq!(truncate_snippet(&exact), exact);
    let cut = truncate_snippet(&format!("{exact}x"));
    assert_eq!(cut, format!("{exact}…"));
}

#[test]
fn one_ranking_alone_keeps_its_order() {
    assert_eq!(merge_rankings(&vec![9, 2, 7], &vec![], 20, 2), vec![9, 2]);
    assert_eq!(merge_rankings(&vec![], &vec![5, 1, 8, 3], 3, 10), vec![5, 1, 8]);
}

#[test]
fn row_ahead_in_both_rankings_comes_first() {
    assert_eq!(merge_rankings(&vec![4, 9, 1], &vec![4, 1], 20, 10), vec![4, 1, 9]);
}

#[test]
fn note_is_read_back_as_it_was_given() {
    let m = Memory::new();
    let id = m.log_progress("  kept \n", Some(" as it is ")).unwrap();
    assert_eq!(
        m.get(id),
        MemoryEntry {
            id,
            found: true,
            ts: 1_000,
            summary: "kept".to_string(),
            detail: Some(" as it is ".to_string()),
        }
    );
    assert_eq!(
        m.get(id + 1),
        MemoryEntry {
            id: id + 1,
            found: false,
            ts: 0,
            summary: String::new(),
            detail: None,
        }
    );
}

fn live(ids: &[i64]) -> Vec<RankedRow> {
    ids.iter()
        .map(|id| RankedRow {
            id: *id,
            superseded_by: None,
        })
        .collect()
}

fn tried(lens: Vec<u64>, nearest: Option<Result<Vec<RankedRow>, String>>) -> VectorPath {
    VectorPath::Tried {
        embedding: QueryEmbedding::Vectors(lens),
        dimensions: 3,
        nearest,
    }
}

#[test]
fn search_without_its_vector_path_gives_the_full_text() {
    let fts = live(&[5, 2, 9]);
    let failed = Err("KNN query: no such table".to_string());
    let timed_out = VectorPath::Tried {
        embedding: QueryEmbedding::TimedOut("8s".to_string()),
        dimensions: 3,
        nearest: None,
    };
    for lost in [
        VectorPath::NoEmbedder,
        timed_out,
        tried(vec![3], Some(failed)),
        // a vector of another length is not searched for
        tried(vec![4], Some(Ok(live(&[9])))),
    ] {
        assert_eq!(search_ids("query", 2, &fts, &lost), vec![5, 2]);
    }
    let near = tried(vec![3], Some(Ok(live(&[2]))));
    assert_eq!(search_ids("query", 6, &fts, &near), vec![2, 5, 9]);
}

#[test]
fn replaced_rows_are_passed_over_by_both_rankers() {
    let mut fts = live(&[5, 2]);
    fts[0].superseded_by = Some(2);
    let mut near = live(&[7, 2, 8]);
    near[0].superseded_by = Some(8);
    let vector = tried(vec![3], Some(Ok(near)));
    assert_eq!(search_ids("query", 6, &fts, &vector), vec![2, 8]);
}

#[test]
fn blank_query_is_answered_at_any_limit() {
    let near = tried(vec![3], Some(Ok(live(&[2]))));
    assert!(plan_search(" \t", usize::MAX).is_none());
    assert!(search_ids(" \t", usize::MAX, &live(&[1]), &near).is_empty());
    assert!(search_ids("query", 0, &live(&[1]), &near).is_empty());
}
