use opencrab::json::Json;
use opencrab::render::classify;
use opencrab::render::parse_line;
use opencrab::render::render_item;
use opencrab::render::segment_lines;
use opencrab::render::segment_thread;
use opencrab::render::ParsedLine;
use opencrab::render::RenderedItem;

/// A JSON text as a compact line.
fn payload(text: &str) -> String {
    serde_json::from_str::<serde_json::Value>(text)
        .unwrap()
        .to_string()
}

#[test]
fn s3a_a1_classification_user_message_is_kept() {
    let line = payload(r#"{
        "type": "response_item",
        "payload": {
            "type": "message",
            "role": "user",
            "content": [{"type": "input_text", "text": "hello world"}]
        }
    }"#);
    match parse_line(&line) {
        ParsedLine::Kept(RenderedItem::Message { role, text }) => {
            assert_eq!(role, "user");
            assert_eq!(text, "hello world");
        }
        other => panic!("expected Kept(Message), got {other:?}"),
    }
}

#[test]
fn s3a_a1_classification_assistant_message_is_kept() {
    let line = payload(r#"{
        "type": "response_item",
        "payload": {
            "type": "message",
            "role": "assistant",
            "content": [{"type": "output_text", "text": "Alice here."}]
        }
    }"#);
    match parse_line(&line) {
        ParsedLine::Kept(RenderedItem::Message { role, text }) => {
            assert_eq!(role, "assistant");
            assert_eq!(text, "Alice here.");
        }
        other => panic!("expected Kept(Message assistant), got {other:?}"),
    }
}

#[test]
fn s3a_a1_classification_developer_message_is_dropped() {
    let line = payload(r#"{
        "type": "response_item",
        "payload": {
            "type": "message",
            "role": "developer",
            "content": [{"type": "input_text", "text": "system-side instructions"}]
        }
    }"#);
    assert_eq!(parse_line(&line), ParsedLine::Dropped);
}

#[test]
fn s3a_a1_classification_reasoning_is_dropped() {
    let line = payload(r#"{
        "type": "response_item",
        "payload": {
            "type": "reasoning",
            "summary": [{"type": "summary_text", "text": "thinking..."}]
        }
    }"#);
    assert_eq!(parse_line(&line), ParsedLine::Dropped);
}

#[test]
fn s3a_a1_classification_function_call_is_kept() {
    let line = payload(r#"{
        "type": "response_item",
        "payload": {
            "type": "function_call",
            "name": "do_thing",
            "arguments": "{\"x\":1}",
            "call_id": "call_abc"
        }
    }"#);
    match parse_line(&line) {
        ParsedLine::Kept(RenderedItem::ToolCall {
            name,
            arguments,
            call_id,
        }) => {
            assert_eq!(name, "do_thing");
            assert_eq!(arguments, "{\"x\":1}");
            assert_eq!(call_id, "call_abc");
        }
        other => panic!("expected Kept(ToolCall), got {other:?}"),
    }
}

#[test]
fn s3a_a1_classification_function_call_output_is_kept() {
    let line = payload(r#"{
        "type": "response_item",
        "payload": {
            "type": "function_call_output",
            "call_id": "call_abc",
            "output": {"content": "ok"}
        }
    }"#);
    match parse_line(&line) {
        ParsedLine::Kept(RenderedItem::ToolResult { output, .. }) => {
            assert_eq!(output, "ok");
        }
        other => panic!("expected Kept(ToolResult), got {other:?}"),
    }
}

#[test]
fn s3a_a1_classification_inner_compaction_is_dropped() {
    // Inner `response_item/compaction` is the encrypted-internal kind,
    // different from the top-level `compacted` boundary below.
    let line = payload(r#"{
        "type": "response_item",
        "payload": {"type": "compaction", "encrypted_content": "…opaque…"}
    }"#);
    assert_eq!(parse_line(&line), ParsedLine::Dropped);
}

#[test]
fn s3a_a1_classification_top_level_compacted_is_boundary() {
    let line = payload(r#"{
        "type": "compacted",
        "payload": {"message": "<segment summary text>"}
    }"#);
    match parse_line(&line) {
        ParsedLine::Boundary { summary } => {
            assert_eq!(summary, "<segment summary text>");
        }
        other => panic!("expected Boundary, got {other:?}"),
    }
}

#[test]
fn s3a_a1_classification_top_level_compacted_missing_message_defaults_empty() {
    let line = payload(r#"{"type": "compacted", "payload": {}}"#);
    assert_eq!(
        parse_line(&line),
        ParsedLine::Boundary {
            summary: String::new()
        }
    );
}

#[test]
fn s3a_a1_classification_event_msg_turn_context_session_meta_dropped() {
    for top in ["event_msg", "turn_context", "session_meta"] {
        let line = payload(&format!(r#"{{"type": "{top}", "payload": {{"type": "x"}}}}"#));
        assert_eq!(
            parse_line(&line),
            ParsedLine::Dropped,
            "top type {top} must be Dropped"
        );
    }
}

#[test]
fn s3a_a1_classification_unknown_top_type_dropped() {
    let line = payload(r#"{"type": "something_new", "payload": {"type": "x"}}"#);
    assert_eq!(parse_line(&line), ParsedLine::Dropped);
}

#[test]
fn s3a_a2_message_multi_content_blocks_concat_text_only() {
    let line = payload(r#"{
        "type": "response_item",
        "payload": {
            "type": "message",
            "role": "user",
            "content": [
                {"type": "input_text", "text": "first "},
                {"type": "input_image", "image_url": "data:..."},
                {"type": "output_text", "text": "second."},
                {"type": "input_text"},
                {"type": "input_text", "text": " end"}
            ]
        }
    }"#);
    match parse_line(&line) {
        ParsedLine::Kept(RenderedItem::Message { role, text }) => {
            assert_eq!(role, "user");
            assert_eq!(text, "first second. end");
        }
        other => panic!("expected Kept(Message), got {other:?}"),
    }
}

#[test]
fn s3a_a2_function_call_output_via_content_items() {
    let line = payload(r#"{
        "type": "response_item",
        "payload": {
            "type": "function_call_output",
            "call_id": "c-2",
            "output": {
                "content_items": [
                    {"type": "text", "text": "part1 "},
                    {"type": "text", "text": "part2"}
                ]
            }
        }
    }"#);
    match parse_line(&line) {
        ParsedLine::Kept(RenderedItem::ToolResult {
            call_id,
            output,
        }) => {
            assert_eq!(call_id.as_deref(), Some("c-2"));
            assert_eq!(output, "part1 part2");
        }
        other => panic!("expected Kept(ToolResult), got {other:?}"),
    }
}

#[test]
fn s3a_a2_function_call_arguments_passed_through_verbatim() {
    // Arguments is a raw JSON-encoded string per protocol — we don't
    // re-parse it; the distiller sees exactly what was stored.
    let line = payload(r#"{
        "type": "response_item",
        "payload": {
            "type": "function_call",
            "name": "log_progress",
            "arguments": "{\"summary\":\"hi\",\"detail\":\"world\"}",
            "call_id": "call_xyz"
        }
    }"#);
    match parse_line(&line) {
        ParsedLine::Kept(RenderedItem::ToolCall {
            name, arguments, ..
        }) => {
            assert_eq!(name, "log_progress");
            assert_eq!(arguments, "{\"summary\":\"hi\",\"detail\":\"world\"}");
        }
        other => panic!("expected Kept(ToolCall), got {other:?}"),
    }
}

#[test]
fn s3a_a3_invalid_json_is_dropped() {
    assert_eq!(parse_line("{not json"), ParsedLine::Dropped);
    assert_eq!(parse_line(""), ParsedLine::Dropped);
    assert_eq!(parse_line("null"), ParsedLine::Dropped);
    // Valid JSON but no `type` field.
    assert_eq!(parse_line("{\"foo\":1}"), ParsedLine::Dropped);
    // `type` of wrong shape (number).
    assert_eq!(parse_line("{\"type\":42}"), ParsedLine::Dropped);
    // response_item with no payload.
    assert_eq!(parse_line("{\"type\":\"response_item\"}"), ParsedLine::Dropped);
    // response_item with empty payload.
    assert_eq!(
        parse_line("{\"type\":\"response_item\",\"payload\":{}}"),
        ParsedLine::Dropped
    );
    // message with no role.
    let no_role = payload(r#"{
        "type": "response_item",
        "payload": {"type": "message", "content": []}
    }"#);
    assert_eq!(parse_line(&no_role), ParsedLine::Dropped);
}

#[test]
fn s3a_b1_renders_kept_items_with_role_labels() {
    let lines = vec![
        (
            1_i64,
            payload(r#"{
                "type": "response_item",
                "payload": {
                    "type": "message",
                    "role": "user",
                    "content": [{"type": "input_text", "text": "do the thing"}]
                }
            }"#),
        ),
        (
            2,
            payload(r#"{
                "type": "response_item",
                "payload": {
                    "type": "message",
                    "role": "assistant",
                    "content": [{"type": "output_text", "text": "on it"}]
                }
            }"#),
        ),
        (
            3,
            payload(r#"{
                "type": "response_item",
                "payload": {
                    "type": "function_call",
                    "name": "do_thing",
                    "arguments": "{\"x\":1}",
                    "call_id": "c1"
                }
            }"#),
        ),
        (
            4,
            payload(r#"{
                "type": "response_item",
                "payload": {
                    "type": "function_call_output",
                    "call_id": "c1",
                    "output": {"content": "done"}
                }
            }"#),
        ),
    ];
    let lines_ref: Vec<(i64, &str)> = lines.iter().map(|(n, s)| (*n, s.as_str())).collect();
    let segs = segment_thread(&lines_ref);
    assert_eq!(segs.len(), 1);
    assert_eq!(
        segs[0].transcript,
        "USER: do the thing\n\
         ASSISTANT: on it\n\
         TOOL CALL do_thing: {\"x\":1}\n\
         TOOL RESULT: done"
    );
}

fn user_msg(line_no: i64, text: &str) -> (i64, String) {
    (
        line_no,
        payload(&format!(r#"{{
            "type": "response_item",
            "payload": {{
                "type": "message",
                "role": "user",
                "content": [{{"type": "input_text", "text": "{text}"}}]
            }}
        }}"#)),
    )
}

fn assistant_msg(line_no: i64, text: &str) -> (i64, String) {
    (
        line_no,
        payload(&format!(r#"{{
            "type": "response_item",
            "payload": {{
                "type": "message",
                "role": "assistant",
                "content": [{{"type": "output_text", "text": "{text}"}}]
            }}
        }}"#)),
    )
}

fn compacted(line_no: i64, summary: &str) -> (i64, String) {
    (
        line_no,
        payload(&format!(r#"{{
            "type": "compacted",
            "payload": {{"message": "{summary}"}}
        }}"#)),
    )
}

fn reasoning(line_no: i64, text: &str) -> (i64, String) {
    (
        line_no,
        payload(&format!(r#"{{
            "type": "response_item",
            "payload": {{
                "type": "reasoning",
                "summary": [{{"type": "summary_text", "text": "{text}"}}]
            }}
        }}"#)),
    )
}

fn event_msg(line_no: i64) -> (i64, String) {
    (
        line_no,
        payload(r#"{"type": "event_msg", "payload": {"type": "token_count"}}"#),
    )
}

fn as_refs(v: &[(i64, String)]) -> Vec<(i64, &str)> {
    v.iter().map(|(n, s)| (*n, s.as_str())).collect()
}

// no compacted markers: one segment, prior_summary=None,
// start/end equal the first/last input line_no.
#[test]
fn s3a_c1_no_boundary_single_segment() {
    let lines = vec![
        user_msg(5, "u1"),
        assistant_msg(6, "a1"),
        user_msg(7, "u2"),
    ];
    let segs = segment_thread(&as_refs(&lines));
    assert_eq!(segs.len(), 1);
    assert_eq!(segs[0].start_line_no, 5);
    assert_eq!(segs[0].end_line_no, 7);
    assert!(segs[0].prior_summary.is_none());
    assert_eq!(segs[0].transcript, "USER: u1\nASSISTANT: a1\nUSER: u2");
}

// one mid-stream boundary: 2 segments, seg2.prior_summary
// == marker.message, marker is in neither transcript, seg1.end==C,
// seg2.start==C+1.
#[test]
fn s3a_c2_single_boundary_in_middle_splits_to_two_segments() {
    let lines = vec![
        user_msg(1, "u1"),
        assistant_msg(2, "a1"),
        compacted(3, "rollup-of-1-and-2"),
        user_msg(4, "u2"),
        assistant_msg(5, "a2"),
    ];
    let segs = segment_thread(&as_refs(&lines));
    assert_eq!(segs.len(), 2);

    assert_eq!(segs[0].start_line_no, 1);
    assert_eq!(segs[0].end_line_no, 3);
    assert!(segs[0].prior_summary.is_none());
    assert_eq!(segs[0].transcript, "USER: u1\nASSISTANT: a1");
    assert!(
        !segs[0].transcript.contains("rollup-of-1-and-2"),
        "marker must not leak into seg1 transcript"
    );

    assert_eq!(segs[1].start_line_no, 4);
    assert_eq!(segs[1].end_line_no, 5);
    assert_eq!(segs[1].prior_summary.as_deref(), Some("rollup-of-1-and-2"));
    assert_eq!(segs[1].transcript, "USER: u2\nASSISTANT: a2");
    assert!(
        !segs[1].transcript.contains("rollup-of-1-and-2"),
        "marker must not leak into seg2 transcript either"
    );
}

// multiple boundaries: ranges are contiguous and non-overlapping;
// each segment's prior_summary is its preceding marker's message.
#[test]
fn s3a_c3_multiple_boundaries_produce_contiguous_ranges() {
    let lines = vec![
        user_msg(1, "u1"),
        compacted(2, "sum-A"),
        assistant_msg(3, "a1"),
        compacted(4, "sum-B"),
        user_msg(5, "u2"),
        assistant_msg(6, "a2"),
    ];
    let segs = segment_thread(&as_refs(&lines));
    assert_eq!(segs.len(), 3);

    assert_eq!((segs[0].start_line_no, segs[0].end_line_no), (1, 2));
    assert!(segs[0].prior_summary.is_none());
    assert_eq!(segs[0].transcript, "USER: u1");

    assert_eq!((segs[1].start_line_no, segs[1].end_line_no), (3, 4));
    assert_eq!(segs[1].prior_summary.as_deref(), Some("sum-A"));
    assert_eq!(segs[1].transcript, "ASSISTANT: a1");

    assert_eq!((segs[2].start_line_no, segs[2].end_line_no), (5, 6));
    assert_eq!(segs[2].prior_summary.as_deref(), Some("sum-B"));
    assert_eq!(segs[2].transcript, "USER: u2\nASSISTANT: a2");

    // Contiguity: end_i + 1 == start_{i+1}.
    for win in segs.windows(2) {
        assert_eq!(win[0].end_line_no + 1, win[1].start_line_no);
    }
}

// trailing boundary: no empty tail segment; the marker's
// line_no is the previous segment's end.
#[test]
fn s3a_c4_trailing_boundary_does_not_produce_empty_tail_segment() {
    let lines = vec![
        user_msg(1, "u1"),
        assistant_msg(2, "a1"),
        compacted(3, "rollup"),
    ];
    let segs = segment_thread(&as_refs(&lines));
    assert_eq!(segs.len(), 1, "no trailing empty segment expected");
    assert_eq!(segs[0].start_line_no, 1);
    assert_eq!(segs[0].end_line_no, 3, "boundary's line_no closes the segment");
    assert_eq!(segs[0].transcript, "USER: u1\nASSISTANT: a1");
}

// Dropped lines (reasoning / event_msg) sit inside the
// segment's line range but contribute no transcript.
#[test]
fn s3a_c5_dropped_lines_keep_range_but_skip_transcript() {
    let lines = vec![
        user_msg(10, "u1"),
        reasoning(11, "mid-thought"),
        event_msg(12),
        assistant_msg(13, "a1"),
        compacted(14, "sum"),
        event_msg(15),
        user_msg(16, "u2"),
    ];
    let segs = segment_thread(&as_refs(&lines));
    assert_eq!(segs.len(), 2);

    assert_eq!((segs[0].start_line_no, segs[0].end_line_no), (10, 14));
    assert_eq!(
        segs[0].transcript, "USER: u1\nASSISTANT: a1",
        "reasoning + event_msg must not appear in the transcript"
    );

    assert_eq!((segs[1].start_line_no, segs[1].end_line_no), (15, 16));
    assert_eq!(segs[1].prior_summary.as_deref(), Some("sum"));
    assert_eq!(segs[1].transcript, "USER: u2");
}

#[test]
fn s3a_e1_render_module_uses_no_codex_protocol_types() {
    // An unfamiliar tool kind still classifies cleanly.
    let line = payload(r#"{
        "type": "response_item",
        "payload": {"type": "future_unknown_tool", "name": "x"}
    }"#);
    assert_eq!(parse_line(&line), ParsedLine::Dropped);
}

#[test]
fn tool_results_and_other_tools_are_rendered() {
    let shown = |payload: &str| match parse_line(&format!(
        r#"{{"type":"response_item","payload":{payload}}}"#
    )) {
        ParsedLine::Kept(item) => render_item(&item),
        other => panic!("expected Kept, got {other:?}"),
    };
    assert_eq!(
        shown(r#"{"type":"local_shell_call","input":"ls"}"#).as_deref(),
        Some("TOOL LOCAL_SHELL_CALL: ls")
    );
    assert_eq!(
        shown(r#"{"type":"local_shell_call","output":"ran"}"#).as_deref(),
        Some("[tool: local_shell_call]")
    );
    // the first key that holds a string decides, though it is empty
    assert_eq!(
        shown(r#"{"type":"web_search_call","text":"","query":"q"}"#).as_deref(),
        Some("[tool: web_search_call]")
    );
    assert_eq!(
        shown(r#"{"type":"function_call","arguments":"{}"}"#).as_deref(),
        Some("TOOL CALL <unknown>: {}")
    );
    assert_eq!(
        shown(r#"{"type":"message","role":"ASSISTANT","content":[{"type":"output_text","text":"ß"}]}"#)
            .as_deref(),
        Some("ASSISTANT: ß")
    );
    assert_eq!(
        render_item(&RenderedItem::Message {
            role: "user".to_string(),
            text: " \n".to_string(),
        }),
        None,
        "a blank message is not shown"
    );
}

#[test]
fn value_is_classified_like_its_line() {
    let text = r#"{"type":"compacted","payload":{"message":"m"}}"#;
    assert_eq!(
        classify(&Json::from_str(text).unwrap()),
        ParsedLine::Boundary {
            summary: "m".to_string()
        }
    );
    assert_eq!(classify(&Json::Null), ParsedLine::Dropped);
}

#[test]
fn no_lines_make_no_segment() {
    assert!(segment_thread(&[]).is_empty());
    assert!(segment_lines(&vec![]).is_empty());
}

#[test]
fn adjacent_markers_make_an_empty_segment() {
    let lines = vec![compacted(1, "a"), compacted(2, "b"), user_msg(3, "u")];
    let segs = segment_thread(&as_refs(&lines));
    let spans: Vec<(i64, i64)> = segs
        .iter()
        .map(|s| (s.start_line_no, s.end_line_no))
        .collect();
    assert_eq!(spans, vec![(1, 1), (2, 2), (3, 3)]);
    assert_eq!(segs[1].transcript, "");
    assert_eq!(segs[2].prior_summary.as_deref(), Some("b"));
}

#[test]
fn developer_role_is_dropped_in_any_case() {
    for role in ["developer", "Developer", "DEVELOPER"] {
        let line = format!(
            r#"{{"type":"response_item","payload":{{"type":"message","role":"{role}","content":[{{"type":"input_text","text":"x"}}]}}}}"#
        );
        assert_eq!(parse_line(&line), ParsedLine::Dropped);
    }
}
