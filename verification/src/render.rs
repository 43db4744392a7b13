//! Transcript rendering: what one rollout line contributes to a transcript,
//! and how a thread's lines fall into segments at its compaction markers.
use crate::json;
use crate::json::Json;
use crate::json::JsonView;
use crate::text;
use vstd::prelude::*;
use vstd::string::*;

verus! {

/// Classification of one rollout line.
#[derive(Debug, Clone, PartialEq, Eq)]
pub enum ParsedLine {
    /// Goes into the transcript.
    Kept(RenderedItem),
    /// A top-level `compacted` marker, which ends a segment. The summary is the
    /// marker's `payload.message`, empty where that is missing.
    Boundary { summary: String },
    /// Filtered out: another line type, an unknown shape, or no JSON at all.
    Dropped,
}

/// One item of a transcript, before rendering.
#[derive(Debug, Clone, PartialEq, Eq)]
pub enum RenderedItem {
    /// What someone said; the role is in lower case.
    Message { role: String, text: String },
    ToolCall { name: String, arguments: String, call_id: String },
    ToolResult { call_id: Option<String>, output: String },
    /// A tool item whose shape varies; `text` is the first string under the usual
    /// keys, or `None` where there is none or it is empty.
    ToolMisc { kind: String, text: Option<String> },
}

/// A run of lines that ends at a compaction marker or at the end of the input.
#[derive(Debug, Clone, PartialEq, Eq)]
pub struct Segment {
    pub start_line_no: i64,
    pub end_line_no: i64,
    /// The summary of the marker that precedes the segment, where there is one.
    pub prior_summary: Option<String>,
    pub transcript: String,
}

#[verifier::ext_equal]
pub ghost enum ItemView {
    Message { role: Seq<char>, text: Seq<char> },
    ToolCall { name: Seq<char>, arguments: Seq<char>, call_id: Seq<char> },
    ToolResult { call_id: Option<Seq<char>>, output: Seq<char> },
    ToolMisc { kind: Seq<char>, text: Option<Seq<char>> },
}

#[verifier::ext_equal]
pub ghost enum LineView {
    Kept(ItemView),
    Boundary(Seq<char>),
    Dropped,
}

#[verifier::ext_equal]
pub ghost struct SegmentView {
    pub start_line_no: i64,
    pub end_line_no: i64,
    pub prior_summary: Option<Seq<char>>,
    pub transcript: Seq<char>,
}

impl View for RenderedItem {
    type V = ItemView;

    open spec fn view(&self) -> ItemView {
        match *self {
            RenderedItem::Message { role, text } => ItemView::Message { role: role@, text: text@ },
            RenderedItem::ToolCall { name, arguments, call_id } => ItemView::ToolCall {
                name: name@,
                arguments: arguments@,
                call_id: call_id@,
            },
            RenderedItem::ToolResult { call_id, output } => ItemView::ToolResult {
                call_id: text::opt_view(call_id),
                output: output@,
            },
            RenderedItem::ToolMisc { kind, text } => ItemView::ToolMisc {
                kind: kind@,
                text: text::opt_view(text),
            },
        }
    }
}

impl View for ParsedLine {
    type V = LineView;

    open spec fn view(&self) -> LineView {
        match *self {
            ParsedLine::Kept(item) => LineView::Kept(item@),
            ParsedLine::Boundary { summary } => LineView::Boundary(summary@),
            ParsedLine::Dropped => LineView::Dropped,
        }
    }
}

impl View for Segment {
    type V = SegmentView;

    open spec fn view(&self) -> SegmentView {
        SegmentView {
            start_line_no: self.start_line_no,
            end_line_no: self.end_line_no,
            prior_summary: text::opt_view(self.prior_summary),
            transcript: self.transcript@,
        }
    }
}

// ---------------------------------------------------------------------------
// One line

/// The string under `key`, or the empty text.
pub open spec fn string_or_empty(v: JsonView, key: Seq<char>) -> Seq<char> {
    match v.string_field(key) {
        Some(s) => s,
        None => Seq::empty(),
    }
}

fn get_or_empty(v: &Json, key: &str) -> (r: String)
    ensures
        r@ == string_or_empty(v@, key@),
{
    match v.get_str(key) {
        Some(s) => s.to_owned(),
        None => String::new(),
    }
}

/// The text that a content item of a message holds.
pub open spec fn content_text(item: JsonView) -> Seq<char> {
    let kind = string_or_empty(item, "type"@);
    if kind == "input_text"@ || kind == "output_text"@ {
        string_or_empty(item, "text"@)
    } else {
        Seq::empty()
    }
}

/// The texts of the content items, one after the other.
pub open spec fn content_texts(items: Seq<JsonView>) -> Seq<char>
    decreases items.len(),
{
    if items.len() == 0 {
        Seq::empty()
    } else {
        content_texts(items.drop_last()) + content_text(items.last())
    }
}

/// The `text` fields of the items, one after the other.
pub open spec fn text_fields(items: Seq<JsonView>) -> Seq<char>
    decreases items.len(),
{
    if items.len() == 0 {
        Seq::empty()
    } else {
        text_fields(items.drop_last()) + string_or_empty(items.last(), "text"@)
    }
}

/// A message: kept with its text and its role in lower case, unless that role is
/// the developer's, the role is missing or the text is blank.
pub open spec fn message_line(p: JsonView) -> LineView {
    match p.string_field("role"@) {
        None => LineView::Dropped,
        Some(role) => {
            let body = match p.items_field("content"@) {
                Some(items) => content_texts(items),
                None => Seq::empty(),
            };
            let role = text::lowercase(role);
            if role == "developer"@ || text::trimmed(body).len() == 0 {
                LineView::Dropped
            } else {
                LineView::Kept(ItemView::Message { role, text: body })
            }
        },
    }
}

/// A function call: kept unless both its name and its arguments are empty.
pub open spec fn function_call_line(p: JsonView) -> LineView {
    let name = string_or_empty(p, "name"@);
    let arguments = string_or_empty(p, "arguments"@);
    if name.len() == 0 && arguments.len() == 0 {
        LineView::Dropped
    } else {
        LineView::Kept(
            ItemView::ToolCall { name, arguments, call_id: string_or_empty(p, "call_id"@) },
        )
    }
}

/// The text of a function's output: a bare string, or the `content` of an
/// object, or else the texts of its `content_items`.
pub open spec fn output_text(output: Option<JsonView>) -> Seq<char> {
    match output {
        None => Seq::empty(),
        Some(out) => match out.string() {
            Some(s) => s,
            None => match out.string_field("content"@) {
                Some(s) => s,
                None => match out.items_field("content_items"@) {
                    Some(items) => text_fields(items),
                    None => Seq::empty(),
                },
            },
        },
    }
}

/// The string under the first of the keys that holds one.
pub open spec fn misc_text(p: JsonView) -> Option<Seq<char>> {
    if p.string_field("text"@) is Some {
        p.string_field("text"@)
    } else if p.string_field("input"@) is Some {
        p.string_field("input"@)
    } else if p.string_field("query"@) is Some {
        p.string_field("query"@)
    } else if p.string_field("execution"@) is Some {
        p.string_field("execution"@)
    } else {
        p.string_field("content"@)
    }
}

/// A tool item of varying shape: always kept, its text where it has one.
pub open spec fn tool_misc_line(p: JsonView, kind: Seq<char>) -> LineView {
    let text = match misc_text(p) {
        Some(s) => if s.len() == 0 {
            None
        } else {
            Some(s)
        },
        None => None,
    };
    LineView::Kept(ItemView::ToolMisc { kind, text })
}

pub open spec fn is_misc_kind(kind: Seq<char>) -> bool {
    ||| kind == "local_shell_call"@
    ||| kind == "tool_search_call"@
    ||| kind == "tool_search_output"@
    ||| kind == "custom_tool_call"@
    ||| kind == "custom_tool_call_output"@
    ||| kind == "web_search_call"@
}

/// What a `response_item` line with this payload is.
pub open spec fn response_item_line(payload: Option<JsonView>) -> LineView {
    match payload {
        None => LineView::Dropped,
        Some(p) => match p.string_field("type"@) {
            None => LineView::Dropped,
            Some(kind) => if kind == "message"@ {
                message_line(p)
            } else if kind == "function_call"@ {
                function_call_line(p)
            } else if kind == "function_call_output"@ {
                LineView::Kept(
                    ItemView::ToolResult {
                        call_id: p.string_field("call_id"@),
                        output: output_text(p.field("output"@)),
                    },
                )
            } else if is_misc_kind(kind) {
                tool_misc_line(p, kind)
            } else {
                LineView::Dropped
            },
        },
    }
}

/// What a line that holds this value is.
pub open spec fn value_line(v: JsonView) -> LineView {
    match v.string_field("type"@) {
        None => LineView::Dropped,
        Some(kind) => if kind == "compacted"@ {
            LineView::Boundary(
                match v.field("payload"@) {
                    Some(p) => string_or_empty(p, "message"@),
                    None => Seq::empty(),
                },
            )
        } else if kind == "response_item"@ {
            response_item_line(v.field("payload"@))
        } else {
            LineView::Dropped
        },
    }
}

/// What a line with this text is. A text that is no JSON is dropped.
pub open spec fn text_line(payload: Seq<char>) -> LineView {
    match json::parsed(payload) {
        Ok(v) => value_line(v),
        Err(_) => LineView::Dropped,
    }
}

/// No message of the developer's is ever kept, whatever the case its role is
/// written in, nor any message with a blank text.
pub proof fn developer_messages_are_dropped(payload: Seq<char>)
    ensures
        text_line(payload) matches LineView::Kept(ItemView::Message { role, text: body }) ==> role
            != "developer"@ && text::trimmed(body).len() > 0,
{
}

/// Classifies one raw line. Anything that is not understood is `Dropped`.
pub fn parse_line(payload: &str) -> (r: ParsedLine)
    ensures
        r@ == text_line(payload@),
{
    match Json::from_str(payload) {
        Ok(v) => classify(&v),
        Err(_) => ParsedLine::Dropped,
    }
}

/// Classifies the value of a line.
pub fn classify(v: &Json) -> (r: ParsedLine)
    ensures
        r@ == value_line(v@),
{
    let kind = match v.get_str("type") {
        Some(t) => t,
        None => return ParsedLine::Dropped,
    };
    if text::same(kind, "compacted") {
        let summary = match v.get("payload") {
            Some(p) => get_or_empty(p, "message"),
            None => String::new(),
        };
        ParsedLine::Boundary { summary }
    } else if text::same(kind, "response_item") {
        match v.get("payload") {
            Some(p) => parse_response_item(p),
            None => ParsedLine::Dropped,
        }
    } else {
        ParsedLine::Dropped
    }
}

fn parse_response_item(p: &Json) -> (r: ParsedLine)
    ensures
        r@ == response_item_line(Some(p@)),
{
    let kind = match p.get_str("type") {
        Some(t) => t,
        None => return ParsedLine::Dropped,
    };
    if text::same(kind, "message") {
        parse_message(p)
    } else if text::same(kind, "function_call") {
        parse_function_call(p)
    } else if text::same(kind, "function_call_output") {
        parse_function_call_output(p)
    } else if text::same(kind, "local_shell_call") || text::same(kind, "tool_search_call")
        || text::same(kind, "tool_search_output") || text::same(kind, "custom_tool_call")
        || text::same(kind, "custom_tool_call_output") || text::same(kind, "web_search_call") {
        parse_tool_misc(p, kind)
    } else {
        ParsedLine::Dropped
    }
}

fn parse_message(p: &Json) -> (r: ParsedLine)
    ensures
        r@ == message_line(p@),
{
    let role = match p.get_str("role") {
        Some(t) => text::to_lowercase(t),
        None => return ParsedLine::Dropped,
    };
    if text::same(role.as_str(), "developer") {
        return ParsedLine::Dropped;
    }
    let mut buf = String::new();
    if let Some(items) = p.get_array("content") {
        let mut i: usize = 0;
        let ghost all = json::items_view(items@);
        while i < items.len()
            invariant
                i <= items@.len(),
                all == json::items_view(items@),
                buf@ == content_texts(all.take(i as int)),
            decreases items@.len() - i,
        {
            let item = &items[i];
            assert(all.take(i + 1).drop_last() =~= all.take(i as int));
            assert(all.take(i + 1).last() == item@);
            let kind = get_or_empty(item, "type");
            if text::same(kind.as_str(), "input_text") || text::same(kind.as_str(), "output_text") {
                buf.append(get_or_empty(item, "text").as_str());
            }
            assert(buf@ =~= content_texts(all.take(i + 1)));
            i += 1;
        }
        assert(all.take(i as int) =~= all);
    }
    if text::trim(buf.as_str()).is_empty() {
        return ParsedLine::Dropped;
    }
    ParsedLine::Kept(RenderedItem::Message { role, text: buf })
}

fn parse_function_call(p: &Json) -> (r: ParsedLine)
    ensures
        r@ == function_call_line(p@),
{
    let name = get_or_empty(p, "name");
    let arguments = get_or_empty(p, "arguments");
    let call_id = get_or_empty(p, "call_id");
    if name.as_str().is_empty() && arguments.as_str().is_empty() {
        return ParsedLine::Dropped;
    }
    ParsedLine::Kept(RenderedItem::ToolCall { name, arguments, call_id })
}

fn parse_function_call_output(p: &Json) -> (r: ParsedLine)
    ensures
        r@ == LineView::Kept(
            ItemView::ToolResult {
                call_id: p@.string_field("call_id"@),
                output: output_text(p@.field("output"@)),
            },
        ),
{
    let call_id = match p.get_str("call_id") {
        Some(s) => Some(s.to_owned()),
        None => None,
    };
    let output = match p.get("output") {
        None => String::new(),
        Some(out) => match out.as_str() {
            Some(s) => s.to_owned(),
            None => match out.get_str("content") {
                Some(s) => s.to_owned(),
                None => match out.get_array("content_items") {
                    Some(items) => concat_text_fields(items),
                    None => String::new(),
                },
            },
        },
    };
    ParsedLine::Kept(RenderedItem::ToolResult { call_id, output })
}

fn concat_text_fields(items: &Vec<Json>) -> (r: String)
    ensures
        r@ == text_fields(json::items_view(items@)),
{
    let mut buf = String::new();
    let mut i: usize = 0;
    let ghost all = json::items_view(items@);
    while i < items.len()
        invariant
            i <= items@.len(),
            all == json::items_view(items@),
            buf@ == text_fields(all.take(i as int)),
        decreases items@.len() - i,
    {
        assert(all.take(i + 1).drop_last() =~= all.take(i as int));
        assert(all.take(i + 1).last() == items@[i as int]@);
        buf.append(get_or_empty(&items[i], "text").as_str());
        i += 1;
    }
    assert(all.take(i as int) =~= all);
    buf
}

fn parse_tool_misc(p: &Json, kind: &str) -> (r: ParsedLine)
    ensures
        r@ == tool_misc_line(p@, kind@),
{
    let found = match p.get_str("text") {
        Some(s) => Some(s),
        None => match p.get_str("input") {
            Some(s) => Some(s),
            None => match p.get_str("query") {
                Some(s) => Some(s),
                None => match p.get_str("execution") {
                    Some(s) => Some(s),
                    None => p.get_str("content"),
                },
            },
        },
    };
    let text = match found {
        Some(s) => if s.is_empty() {
            None
        } else {
            Some(s.to_owned())
        },
        None => None,
    };
    ParsedLine::Kept(RenderedItem::ToolMisc { kind: kind.to_owned(), text })
}

// ---------------------------------------------------------------------------
// One item as a transcript line

pub open spec fn is_blank(s: Seq<char>) -> bool {
    text::trimmed(s).len() == 0
}

fn blank(s: &str) -> (r: bool)
    ensures
        r == is_blank(s@),
{
    text::trim(s).is_empty()
}

/// The transcript line of an item; an item with nothing to say has none.
pub open spec fn item_line(item: ItemView) -> Option<Seq<char>> {
    match item {
        ItemView::Message { role, text } => if is_blank(text) {
            None
        } else {
            Some(text::uppercase(role) + ": "@ + text)
        },
        ItemView::ToolCall { name, arguments, .. } => if is_blank(name) && is_blank(arguments) {
            None
        } else {
            Some(
                "TOOL CALL "@ + (if name.len() == 0 {
                    "<unknown>"@
                } else {
                    name
                }) + ": "@ + arguments,
            )
        },
        ItemView::ToolResult { output, .. } => if is_blank(output) {
            None
        } else {
            Some("TOOL RESULT: "@ + output)
        },
        ItemView::ToolMisc { kind, text } => if text is Some && !is_blank(text->0) {
            Some("TOOL "@ + text::uppercase(kind) + ": "@ + text->0)
        } else {
            Some("[tool: "@ + kind + "]"@)
        },
    }
}

/// Renders one kept item as a transcript line.
pub fn render_item(item: &RenderedItem) -> (r: Option<String>)
    ensures
        text::opt_view(r) == item_line(item@),
{
    match item {
        RenderedItem::Message { role, text } => {
            if blank(text.as_str()) {
                None
            } else {
                Some(text::to_uppercase(role.as_str()).concat(": ").concat(text.as_str()))
            }
        },
        RenderedItem::ToolCall { name, arguments, .. } => {
            if blank(name.as_str()) && blank(arguments.as_str()) {
                None
            } else {
                let n = if name.as_str().is_empty() {
                    "<unknown>"
                } else {
                    name.as_str()
                };
                Some(
                    "TOOL CALL ".to_owned().concat(n).concat(": ").concat(arguments.as_str()),
                )
            }
        },
        RenderedItem::ToolResult { output, .. } => {
            if blank(output.as_str()) {
                None
            } else {
                Some("TOOL RESULT: ".to_owned().concat(output.as_str()))
            }
        },
        RenderedItem::ToolMisc { kind, text } => {
            if let Some(t) = text {
                if !blank(t.as_str()) {
                    return Some(
                        "TOOL ".to_owned().concat(
                            text::to_uppercase(kind.as_str()).as_str(),
                        ).concat(": ").concat(t.as_str()),
                    );
                }
            }
            Some("[tool: ".to_owned().concat(kind.as_str()).concat("]"))
        },
    }
}

// ---------------------------------------------------------------------------
// Segments

/// The transcript lines that a run of lines contributes.
pub open spec fn kept_lines(lines: Seq<(i64, LineView)>) -> Seq<Seq<char>>
    decreases lines.len(),
{
    if lines.len() == 0 {
        Seq::empty()
    } else {
        let before = kept_lines(lines.drop_last());
        match lines.last().1 {
            LineView::Kept(item) => match item_line(item) {
                Some(t) => before.push(t),
                None => before,
            },
            _ => before,
        }
    }
}

/// The first position at or after `from` that holds a marker.
pub open spec fn next_marker(lines: Seq<(i64, LineView)>, from: int) -> Option<int>
    decreases lines.len() - from,
{
    if from >= lines.len() {
        None
    } else if lines[from].1 is Boundary {
        Some(from)
    } else {
        next_marker(lines, from + 1)
    }
}

/// The segment that a non-empty run of lines makes up.
pub open spec fn segment_over(
    lines: Seq<(i64, LineView)>,
    prior: Option<Seq<char>>,
) -> SegmentView {
    SegmentView {
        start_line_no: lines[0].0,
        end_line_no: lines.last().0,
        prior_summary: prior,
        transcript: text::joined(kept_lines(lines), "\n"@),
    }
}

/// The segments of a thread: each marker closes one and belongs to it, and its
/// summary opens the next; nothing follows a marker that is the last line.
pub open spec fn segments_of(
    lines: Seq<(i64, LineView)>,
    prior: Option<Seq<char>>,
) -> Seq<SegmentView>
    decreases lines.len(),
    via segments_of_decreases
{
    if lines.len() == 0 {
        Seq::empty()
    } else {
        match next_marker(lines, 0) {
            None => seq![segment_over(lines, prior)],
            Some(k) => seq![segment_over(lines.take(k + 1), prior)] + segments_of(
                lines.skip(k + 1),
                Some(lines[k].1->Boundary_0),
            ),
        }
    }
}

#[via_fn]
proof fn segments_of_decreases(lines: Seq<(i64, LineView)>, prior: Option<Seq<char>>) {
    next_marker_is_next(lines, 0);
}

/// What `next_marker` finds is a marker, and none lies before it.
pub proof fn next_marker_is_next(lines: Seq<(i64, LineView)>, from: int)
    requires
        0 <= from,
    ensures
        match next_marker(lines, from) {
            Some(k) => from <= k < lines.len() && lines[k].1 is Boundary && forall|j: int|
                from <= j < k ==> !((#[trigger] lines[j]).1 is Boundary),
            None => forall|j: int|
                from <= j < lines.len() ==> !((#[trigger] lines[j]).1 is Boundary),
        },
    decreases lines.len() - from,
{
    if from < lines.len() && !(lines[from].1 is Boundary) {
        next_marker_is_next(lines, from + 1);
    }
}

/// Where no line before `k` is a marker and `k` is one, `k` is the first.
proof fn next_marker_is(lines: Seq<(i64, LineView)>, from: int, k: int)
    requires
        0 <= from <= k < lines.len(),
        lines[k].1 is Boundary,
        forall|j: int| from <= j < k ==> !((#[trigger] lines[j]).1 is Boundary),
    ensures
        next_marker(lines, from) == Some(k),
{
    next_marker_is_next(lines, from);
    let m = next_marker(lines, from);
    match m {
        Some(i) => {
            if i < k {
                assert(lines[i].1 is Boundary);
            } else if k < i {
                assert(lines[k].1 is Boundary);
            }
        },
        None => {
            assert(lines[k].1 is Boundary);
        },
    }
}

/// What each line is.
pub open spec fn line_views(lines: Seq<(i64, ParsedLine)>) -> Seq<(i64, LineView)> {
    lines.map_values(|l: (i64, ParsedLine)| (l.0, l.1@))
}

/// What each line of text is.
pub open spec fn text_lines(lines: Seq<(i64, &str)>) -> Seq<(i64, LineView)> {
    lines.map_values(|l: (i64, &str)| (l.0, text_line(l.1@)))
}

pub open spec fn segment_views(segments: Seq<Segment>) -> Seq<SegmentView> {
    segments.map_values(|s: Segment| s@)
}

/// Splits a thread's classified lines into segments.
pub fn segment_lines(lines: &Vec<(i64, ParsedLine)>) -> (r: Vec<Segment>)
    ensures
        segment_views(r@) == segments_of(line_views(lines@), None),
{
    let ghost all = line_views(lines@);
    let mut segments: Vec<Segment> = Vec::new();
    let mut buf: Vec<String> = Vec::new();
    let mut start_line: Option<i64> = None;
    let mut prior: Option<String> = None;
    let ghost mut begun: int = 0;
    assert(all.skip(0) =~= all);
    assert(segment_views(segments@) + segments_of(all, None) =~= segments_of(all, None));
    let mut i: usize = 0;
    while i < lines.len()
        invariant
            0 <= begun <= i <= lines@.len(),
            all == line_views(lines@),
            segment_views(segments@) + segments_of(all.skip(begun), text::opt_view(prior))
                == segments_of(all, None),
            text::views(buf@) == kept_lines(all.subrange(begun, i as int)),
            start_line == (if begun < i {
                Some(all[begun].0)
            } else {
                None
            }),
            forall|j: int| begun <= j < i ==> !((#[trigger] all[j]).1 is Boundary),
        decreases lines@.len() - i,
    {
        let line_no = lines[i].0;
        let start = match start_line {
            Some(n) => n,
            None => line_no,
        };
        assert(all[i as int] == (line_no, lines@[i as int].1@));
        assert(all.subrange(begun, i + 1).drop_last() =~= all.subrange(begun, i as int));
        assert(all.subrange(begun, i + 1).last() == all[i as int]);
        match &lines[i].1 {
            ParsedLine::Kept(item) => {
                if let Some(s) = render_item(item) {
                    let ghost before = text::views(buf@);
                    buf.push(s);
                    assert(text::views(buf@) =~= before.push(s@));
                }
                start_line = Some(start);
            },
            ParsedLine::Boundary { summary } => {
                let transcript = text::join(&buf, "\n");
                let ghost old_segments = segment_views(segments@);
                let ghost old_prior = text::opt_view(prior);
                let segment = Segment {
                    start_line_no: start,
                    end_line_no: line_no,
                    prior_summary: prior,
                    transcript,
                };
                segments.push(segment);
                proof {
                    let rest = all.skip(begun);
                    let k = i - begun;
                    next_marker_is(rest, 0, k);
                    assert(rest.take(k + 1) =~= all.subrange(begun, i + 1));
                    assert(rest.skip(k + 1) =~= all.skip(i + 1));
                    assert(segment@ == segment_over(rest.take(k + 1), old_prior));
                    assert(segment_views(segments@) =~= old_segments.push(segment@));
                    assert(segments_of(rest, old_prior) == seq![segment@] + segments_of(
                        all.skip(i + 1),
                        Some(summary@),
                    ));
                    assert(segment_views(segments@) + segments_of(all.skip(i + 1), Some(summary@))
                        =~= old_segments + segments_of(rest, old_prior));
                    begun = i + 1;
                    assert(all.subrange(begun, begun) =~= Seq::empty());
                }
                buf = Vec::new();
                start_line = None;
                prior = Some(summary.clone());
                assert(text::views(buf@) =~= kept_lines(all.subrange(begun, i + 1)));
            },
            ParsedLine::Dropped => {
                start_line = Some(start);
            },
        }
        i += 1;
    }
    if let Some(start) = start_line {
        let transcript = text::join(&buf, "\n");
        let ghost old_segments = segment_views(segments@);
        let ghost old_prior = text::opt_view(prior);
        let segment = Segment {
            start_line_no: start,
            end_line_no: lines[lines.len() - 1].0,
            prior_summary: prior,
            transcript,
        };
        segments.push(segment);
        proof {
            let rest = all.skip(begun);
            next_marker_is_next(rest, 0);
            if let Some(k) = next_marker(rest, 0) {
                assert(rest[k] == all[begun + k]);
            }
            assert(rest =~= all.subrange(begun, i as int));
            assert(segment@ == segment_over(rest, old_prior));
            assert(segment_views(segments@) =~= old_segments + segments_of(rest, old_prior));
        }
    } else {
        assert(all.skip(begun) =~= Seq::empty());
        assert(segment_views(segments@) =~= segments_of(all, None));
    }
    segments
}

/// Segments a thread's raw lines at its top-level `compacted` markers.
pub fn segment_thread(lines: &[(i64, &str)]) -> (r: Vec<Segment>)
    ensures
        segment_views(r@) == segments_of(text_lines(lines@), None),
{
    let mut parsed: Vec<(i64, ParsedLine)> = Vec::new();
    let mut i: usize = 0;
    while i < lines.len()
        invariant
            i <= lines@.len(),
            parsed@.len() == i,
            forall|j: int|
                0 <= j < i ==> line_views(parsed@)[j] == #[trigger] text_lines(lines@)[j],
        decreases lines@.len() - i,
    {
        let ghost before = parsed@;
        parsed.push((lines[i].0, parse_line(lines[i].1)));
        assert(line_views(parsed@) =~= line_views(before).push(text_lines(lines@)[i as int]));
        i += 1;
    }
    assert(line_views(parsed@) =~= text_lines(lines@));
    segment_lines(&parsed)
}

// ---------------------------------------------------------------------------
// Laws of what a transcript says

/// A text is blank where it holds nothing but white space.
pub proof fn blank_is_all_white(s: Seq<char>)
    ensures
        is_blank(s) <==> text::is_white(s),
{
    text::trimming_keeps_the_middle(s);
    let (i, j) = choose|i: int, j: int|
        0 <= i <= j <= s.len() && text::trimmed(s) == #[trigger] s.subrange(i, j) && text::is_white(
            s.take(i),
        ) && text::is_white(s.skip(j));
    if is_blank(s) {
        assert(i == j);
        assert forall|k: int| 0 <= k < s.len() implies text::is_white_space(#[trigger] s[k]) by {
            if k < i {
                assert(s.take(i)[k] == s[k]);
            } else {
                assert(s.skip(j)[k - j] == s[k]);
            }
        }
    } else {
        let t = text::trimmed(s);
        assert(t[0] == s[i]);
        assert(!text::is_white_space(t[0])) by {
            text::trimming_keeps_the_middle(s);
        }
    }
}

/// What someone said stands in the transcript whole: the line of a message that is
/// not blank ends with the message's text, and before it stand the role in upper
/// case, a colon and a space.
pub proof fn messages_are_rendered_whole(role: Seq<char>, said: Seq<char>)
    ensures
        text::is_white(said) ==> item_line(ItemView::Message { role, text: said }) is None,
        !text::is_white(said) ==> {
            let line = item_line(ItemView::Message { role, text: said });
            &&& line is Some
            &&& text::ends(line->0, said)
            &&& line->0.take(line->0.len() - said.len()) == text::uppercase(role) + seq![':', ' ']
        },
{
    blank_is_all_white(said);
    reveal_strlit(": ");
    assert(": "@ =~= seq![':', ' ']);
    if !is_blank(said) {
        let head = text::uppercase(role) + ": "@;
        assert(item_line(ItemView::Message { role, text: said }) == Some(head + said));
        text::parts_stand_in_the_whole(head, said, Seq::empty());
        assert((head + said).len() - said.len() == head.len());
        assert((head + said).take(head.len() as int) =~= head);
    }
}

/// A tool call stands in the transcript with its name and its whole arguments; it
/// is left out only where both are blank.
pub proof fn tool_calls_are_rendered_whole(
    name: Seq<char>,
    arguments: Seq<char>,
    call_id: Seq<char>,
)
    ensures
        ({
            let line = item_line(ItemView::ToolCall { name, arguments, call_id });
            &&& line is None <==> text::is_white(name) && text::is_white(arguments)
            &&& line is Some ==> {
                &&& text::ends(line->0, arguments)
                &&& line->0.take(line->0.len() - arguments.len()) == "TOOL CALL "@ + (
                if name.len() > 0 {
                    name
                } else {
                    "<unknown>"@
                }) + seq![':', ' ']
            }
        }),
{
    blank_is_all_white(name);
    blank_is_all_white(arguments);
    reveal_strlit(": ");
    assert(": "@ =~= seq![':', ' ']);
    let n = if name.len() > 0 {
        name
    } else {
        "<unknown>"@
    };
    let head = "TOOL CALL "@ + n + ": "@;
    let line = item_line(ItemView::ToolCall { name, arguments, call_id });
    if !(is_blank(name) && is_blank(arguments)) {
        assert(line == Some(head + arguments));
        text::parts_stand_in_the_whole(head, arguments, Seq::empty());
        assert((head + arguments).len() - arguments.len() == head.len());
        assert((head + arguments).take(head.len() as int) =~= head);
    }
}

/// What a tool gave back stands in the transcript whole, unless it is blank.
pub proof fn tool_results_are_rendered_whole(call_id: Option<Seq<char>>, output: Seq<char>)
    ensures
        ({
            let line = item_line(ItemView::ToolResult { call_id, output });
            &&& line is None <==> text::is_white(output)
            &&& line is Some ==> {
                &&& text::ends(line->0, output)
                &&& line->0.take(line->0.len() - output.len()) == "TOOL RESULT: "@
            }
        }),
{
    blank_is_all_white(output);
    let head = "TOOL RESULT: "@;
    let line = item_line(ItemView::ToolResult { call_id, output });
    if !is_blank(output) {
        assert(line == Some(head + output));
        text::parts_stand_in_the_whole(head, output, Seq::empty());
        assert((head + output).len() - output.len() == head.len());
        assert((head + output).take(head.len() as int) =~= head);
    }
}

/// Any other tool item always has a line: with its kind in upper case and its whole
/// text where it has one to show, else with its kind alone.
pub proof fn other_tools_are_always_rendered(kind: Seq<char>, shown: Option<Seq<char>>)
    ensures
        ({
            let line = item_line(ItemView::ToolMisc { kind, text: shown });
            &&& line is Some
            &&& shown is Some && !text::is_white(shown->0) ==> {
                &&& text::ends(line->0, shown->0)
                &&& line->0.take(line->0.len() - shown->0.len()) == "TOOL "@ + text::uppercase(kind)
                    + seq![':', ' ']
            }
            &&& shown is None || text::is_white(shown->0) ==> line->0 == "[tool: "@ + kind + seq![
                ']',
            ]
        }),
{
    reveal_strlit(": ");
    reveal_strlit("]");
    assert(": "@ =~= seq![':', ' ']);
    assert("]"@ =~= seq![']']);
    if let Some(t) = shown {
        blank_is_all_white(t);
        let head = "TOOL "@ + text::uppercase(kind) + ": "@;
        text::parts_stand_in_the_whole(head, t, Seq::empty());
        assert((head + t).len() - t.len() == head.len());
        assert((head + t).take(head.len() as int) =~= head);
    }
}

/// Each line adds what it contributes by itself, in the order of the lines.
pub proof fn lines_contribute_in_order(a: Seq<(i64, LineView)>, b: Seq<(i64, LineView)>)
    ensures
        kept_lines(a + b) == kept_lines(a) + kept_lines(b),
    decreases b.len(),
{
    if b.len() == 0 {
        assert(a + b =~= a);
    } else {
        assert((a + b).drop_last() =~= a + b.drop_last());
        lines_contribute_in_order(a, b.drop_last());
    }
    assert(kept_lines(a + b) =~= kept_lines(a) + kept_lines(b));
}

/// A kept item contributes its line, where it has one; markers and dropped lines
/// contribute nothing.
pub proof fn one_line_contributes_its_item(n: i64, line: LineView)
    ensures
        match line {
            LineView::Kept(item) => match item_line(item) {
                Some(t) => kept_lines(seq![(n, line)]) == seq![t],
                None => kept_lines(seq![(n, line)]).len() == 0,
            },
            _ => kept_lines(seq![(n, line)]).len() == 0,
        },
{
    let one = seq![(n, line)];
    assert(one.drop_last() =~= Seq::empty());
    assert(kept_lines(one.drop_last()) =~= Seq::empty());
    if let LineView::Kept(item) = line {
        if let Some(t) = item_line(item) {
            assert(kept_lines(one) =~= seq![t]);
        }
    }
}

/// A marker parts a thread: the lines up to it are one segment, which it closes,
/// and what follows is segmented by itself, with the marker's summary before it.
pub proof fn markers_part_threads(
    a: Seq<(i64, LineView)>,
    n: i64,
    summary: Seq<char>,
    b: Seq<(i64, LineView)>,
    prior: Option<Seq<char>>,
)
    requires
        forall|j: int| 0 <= j < a.len() ==> !((#[trigger] a[j]).1 is Boundary),
    ensures
        ({
            let marker = seq![(n, LineView::Boundary(summary))];
            let segments = segments_of(a + marker + b, prior);
            &&& segments.len() > 0
            &&& segments[0].start_line_no == (if a.len() > 0 {
                a[0].0
            } else {
                n
            })
            &&& segments[0].end_line_no == n
            &&& segments[0].prior_summary == prior
            &&& segments[0].transcript == text::joined(kept_lines(a), seq!['\n'])
            &&& segments.skip(1) == segments_of(b, Some(summary))
        }),
{
    reveal_strlit("\n");
    assert("\n"@ =~= seq!['\n']);
    let marker = seq![(n, LineView::Boundary(summary))];
    let all = a + marker + b;
    let k = a.len() as int;
    assert forall|j: int| 0 <= j < k implies !((#[trigger] all[j]).1 is Boundary) by {
        assert(all[j] == a[j]);
    }
    assert(all[k] == marker[0]);
    next_marker_is(all, 0, k);
    assert(all.take(k + 1) =~= a + marker);
    assert(all.skip(k + 1) =~= b);
    lines_contribute_in_order(a, marker);
    one_line_contributes_its_item(n, LineView::Boundary(summary));
    assert(kept_lines(a + marker) =~= kept_lines(a));
    let tail = segments_of(b, Some(summary));
    assert(segments_of(all, prior).skip(1) =~= tail);
    if k > 0 {
        assert((a + marker)[0] == a[0]);
    }
    assert((a + marker).last() == marker[0]);
}

/// Lines without a marker are one segment, which says all that they contribute.
pub proof fn lines_without_markers_are_one_segment(
    lines: Seq<(i64, LineView)>,
    prior: Option<Seq<char>>,
)
    requires
        lines.len() > 0,
        forall|j: int| 0 <= j < lines.len() ==> !((#[trigger] lines[j]).1 is Boundary),
    ensures
        ({
            let segments = segments_of(lines, prior);
            &&& segments.len() == 1
            &&& segments[0].start_line_no == lines[0].0
            &&& segments[0].end_line_no == lines[lines.len() - 1].0
            &&& segments[0].prior_summary == prior
            &&& segments[0].transcript == text::joined(kept_lines(lines), seq!['\n'])
        }),
{
    reveal_strlit("\n");
    assert("\n"@ =~= seq!['\n']);
    next_marker_is_next(lines, 0);
    if let Some(k) = next_marker(lines, 0) {
        assert(lines[k].1 is Boundary);
    }
}

proof fn contribution_is_in_its_run(lines: Seq<(i64, LineView)>, i: int, line: Seq<char>)
    requires
        0 <= i < lines.len(),
        lines[i].1 is Kept,
        item_line(lines[i].1->Kept_0) == Some(line),
    ensures
        text::has(text::joined(kept_lines(lines), "\n"@), line),
{
    let one = seq![lines[i]];
    assert(lines =~= lines.take(i) + one + lines.skip(i + 1));
    lines_contribute_in_order(lines.take(i) + one, lines.skip(i + 1));
    lines_contribute_in_order(lines.take(i), one);
    one_line_contributes_its_item(lines[i].0, lines[i].1);
    assert(one =~= seq![(lines[i].0, lines[i].1)]);
    let k = kept_lines(lines.take(i)).len() as int;
    assert(kept_lines(lines)[k] == line);
    text::each_part_is_in_the_whole(kept_lines(lines), "\n"@, k);
}

/// Every item that is kept stands in full in the transcript of its segment, the one
/// behind as many markers as stand before the item.
pub proof fn kept_items_stand_in_their_segment(
    lines: Seq<(i64, LineView)>,
    prior: Option<Seq<char>>,
    i: int,
    line: Seq<char>,
)
    requires
        0 <= i < lines.len(),
        lines[i].1 is Kept,
        item_line(lines[i].1->Kept_0) == Some(line),
    ensures
        marker_count(lines.take(i)) < segments_of(lines, prior).len(),
        text::has(
            segments_of(lines, prior)[marker_count(lines.take(i)) as int].transcript,
            line,
        ),
    decreases lines.len(),
{
    next_marker_is_next(lines, 0);
    match next_marker(lines, 0) {
        None => {
            assert forall|j: int| 0 <= j < lines.take(i).len() implies !((#[trigger] lines.take(
                i,
            )[j]).1 is Boundary) by {
                assert(lines.take(i)[j] == lines[j]);
            }
            marker_count_none(lines.take(i));
            contribution_is_in_its_run(lines, i, line);
        },
        Some(k) => {
            let first = lines.take(k + 1);
            let rest = lines.skip(k + 1);
            let summary = Some(lines[k].1->Boundary_0);
            assert(i != k);
            if i < k {
                assert forall|j: int| 0 <= j < lines.take(i).len() implies !((
                #[trigger] lines.take(i)[j]).1 is Boundary) by {
                    assert(lines.take(i)[j] == lines[j]);
                }
                marker_count_none(lines.take(i));
                assert(first[i] == lines[i]);
                contribution_is_in_its_run(first, i, line);
            } else {
                assert(rest[i - k - 1] == lines[i]);
                kept_items_stand_in_their_segment(rest, summary, i - k - 1, line);
                marker_count_split(lines.take(i), k + 1);
                assert(lines.take(i).take(k + 1) =~= first);
                assert(lines.take(i).skip(k + 1) =~= rest.take(i - k - 1));
                assert(first.drop_last() =~= lines.take(k));
                assert forall|j: int| 0 <= j < lines.take(k).len() implies !((
                #[trigger] lines.take(k)[j]).1 is Boundary) by {
                    assert(lines.take(k)[j] == lines[j]);
                }
                marker_count_none(lines.take(k));
                assert(marker_count(first) == 1);
                let m = marker_count(rest.take(i - k - 1)) as int;
                assert(segments_of(lines, prior)[m + 1] == segments_of(rest, summary)[m]);
            }
        },
    }
}

/// Every message that is kept occurs word for word in the transcript of its segment.
pub proof fn kept_messages_stand_in_their_segment(
    lines: Seq<(i64, LineView)>,
    prior: Option<Seq<char>>,
    i: int,
    role: Seq<char>,
    said: Seq<char>,
)
    requires
        0 <= i < lines.len(),
        lines[i].1 == LineView::Kept(ItemView::Message { role, text: said }),
        !text::is_white(said),
    ensures
        marker_count(lines.take(i)) < segments_of(lines, prior).len(),
        text::has(
            segments_of(lines, prior)[marker_count(lines.take(i)) as int].transcript,
            text::uppercase(role) + seq![':', ' '] + said,
        ),
        text::has(
            segments_of(lines, prior)[marker_count(lines.take(i)) as int].transcript,
            said,
        ),
{
    messages_are_rendered_whole(role, said);
    let line = item_line(ItemView::Message { role, text: said })->0;
    let head = text::uppercase(role) + seq![':', ' '];
    assert(line =~= head + said);
    kept_items_stand_in_their_segment(lines, prior, i, line);
    let t = segments_of(lines, prior)[marker_count(lines.take(i)) as int].transcript;
    let at = choose|at: int| #[trigger] text::occurs_at(t, line, at);
    let n = head.len() as int;
    assert(t.subrange(at + n, at + n + said.len()) =~= line.skip(n));
    assert(line.skip(n) =~= said);
    assert(text::occurs_at(t, said, at + n));
}

// ---------------------------------------------------------------------------
// Laws of what a line is

/// The texts of a message's content follow one another as its items do.
pub proof fn contents_follow_one_another(a: Seq<JsonView>, b: Seq<JsonView>)
    ensures
        content_texts(a + b) == content_texts(a) + content_texts(b),
        text_fields(a + b) == text_fields(a) + text_fields(b),
    decreases b.len(),
{
    if b.len() == 0 {
        assert(a + b =~= a);
    } else {
        assert((a + b).drop_last() =~= a + b.drop_last());
        contents_follow_one_another(a, b.drop_last());
    }
    assert(content_texts(a + b) =~= content_texts(a) + content_texts(b));
    assert(text_fields(a + b) =~= text_fields(a) + text_fields(b));
}

/// A content item gives its whole text, where it is text that came in or went out;
/// items of other kinds, or without a text, give nothing.
pub proof fn content_items_give_their_text(fields: Map<Seq<char>, JsonView>, kind: Seq<char>)
    requires
        fields.contains_key("type"@),
        fields["type"@] == JsonView::Str(kind),
    ensures
        ({
            let given = content_texts(seq![JsonView::Object(fields)]);
            let known = kind == "input_text"@ || kind == "output_text"@;
            &&& known && fields.contains_key("text"@) && fields["text"@] is Str ==> given
                == fields["text"@]->Str_0
            &&& !known || !fields.contains_key("text"@) || !(fields["text"@] is Str)
                ==> given.len() == 0
        }),
{
    let one = seq![JsonView::Object(fields)];
    assert(one.drop_last() =~= Seq::empty());
    assert(content_texts(one.drop_last()) =~= Seq::empty());
    assert(content_texts(one) =~= content_text(one.last()));
}

/// An item of an output gives its whole text, where it has one.
pub proof fn output_items_give_their_text(fields: Map<Seq<char>, JsonView>)
    ensures
        ({
            let given = text_fields(seq![JsonView::Object(fields)]);
            if fields.contains_key("text"@) && fields["text"@] is Str {
                given == fields["text"@]->Str_0
            } else {
                given.len() == 0
            }
        }),
{
    let one = seq![JsonView::Object(fields)];
    assert(one.drop_last() =~= Seq::empty());
    assert(text_fields(one.drop_last()) =~= Seq::empty());
    assert(text_fields(one) =~= string_or_empty(one.last(), "text"@));
}

/// `line` is the object of a response item with this payload, of this kind.
pub open spec fn is_response_item(
    line: Map<Seq<char>, JsonView>,
    payload: Map<Seq<char>, JsonView>,
    kind: Seq<char>,
) -> bool {
    &&& line.contains_key("type"@)
    &&& line["type"@] == JsonView::Str("response_item"@)
    &&& line.contains_key("payload"@)
    &&& line["payload"@] == JsonView::Object(payload)
    &&& payload.contains_key("type"@)
    &&& payload["type"@] == JsonView::Str(kind)
}

proof fn kinds_differ()
    ensures
        "response_item"@ != "compacted"@,
        "function_call"@ != "message"@,
        "function_call_output"@ != "message"@,
        "function_call_output"@ != "function_call"@,
        forall|k: Seq<char>| #[trigger]
            is_misc_kind(k) ==> k != "message"@ && k != "function_call"@ && k
                != "function_call_output"@,
{
    reveal_strlit("response_item");
    reveal_strlit("compacted");
    reveal_strlit("message");
    reveal_strlit("function_call");
    reveal_strlit("function_call_output");
    reveal_strlit("local_shell_call");
    reveal_strlit("tool_search_call");
    reveal_strlit("tool_search_output");
    reveal_strlit("custom_tool_call");
    reveal_strlit("custom_tool_call_output");
    reveal_strlit("web_search_call");
    assert("response_item"@.len() == 13 && "compacted"@.len() == 9);
    assert("message"@.len() == 7 && "function_call"@.len() == 13);
    assert("function_call_output"@.len() == 20);
}

/// A message is kept with all that its content says and its role in lower case,
/// unless the role is the developer's or nothing but white space was said.
pub proof fn messages_are_kept_with_their_content(
    line: Map<Seq<char>, JsonView>,
    payload: Map<Seq<char>, JsonView>,
    role: Seq<char>,
    items: Seq<JsonView>,
)
    requires
        is_response_item(line, payload, "message"@),
        payload.contains_key("role"@),
        payload["role"@] == JsonView::Str(role),
        payload.contains_key("content"@),
        payload["content"@] == JsonView::Array(items),
    ensures
        ({
            let said = content_texts(items);
            if text::lowercase(role) == "developer"@ || text::is_white(said) {
                value_line(JsonView::Object(line)) == LineView::Dropped
            } else {
                value_line(JsonView::Object(line)) == LineView::Kept(
                    ItemView::Message { role: text::lowercase(role), text: said },
                )
            }
        }),
{
    kinds_differ();
    blank_is_all_white(content_texts(items));
}

/// A call of a function is kept with its name, its arguments and its id as they
/// are, unless both name and arguments are empty.
pub proof fn calls_are_kept_as_they_are(
    line: Map<Seq<char>, JsonView>,
    payload: Map<Seq<char>, JsonView>,
    name: Seq<char>,
    arguments: Seq<char>,
    call_id: Seq<char>,
)
    requires
        is_response_item(line, payload, "function_call"@),
        payload.contains_key("name"@),
        payload["name"@] == JsonView::Str(name),
        payload.contains_key("arguments"@),
        payload["arguments"@] == JsonView::Str(arguments),
        payload.contains_key("call_id"@),
        payload["call_id"@] == JsonView::Str(call_id),
    ensures
        value_line(JsonView::Object(line)) == (if name.len() == 0 && arguments.len() == 0 {
            LineView::Dropped
        } else {
            LineView::Kept(ItemView::ToolCall { name, arguments, call_id })
        }),
{
    kinds_differ();
}

/// The output of a function is kept whole, whichever way it is written: as a bare
/// string, as an object's content or as a list of texts.
pub proof fn outputs_are_kept_whole(
    line: Map<Seq<char>, JsonView>,
    payload: Map<Seq<char>, JsonView>,
    call_id: Seq<char>,
    output: JsonView,
)
    requires
        is_response_item(line, payload, "function_call_output"@),
        payload.contains_key("call_id"@),
        payload["call_id"@] == JsonView::Str(call_id),
        payload.contains_key("output"@),
        payload["output"@] == output,
    ensures
        value_line(JsonView::Object(line)) matches LineView::Kept(
            ItemView::ToolResult { call_id: id, output: given },
        ) && {
            &&& id == Some(call_id)
            &&& output matches JsonView::Str(s) ==> given == s
            &&& output matches JsonView::Object(fields) ==> {
                &&& fields.contains_key("content"@) && fields["content"@] is Str ==> given
                    == fields["content"@]->Str_0
                &&& !fields.contains_key("content"@) && fields.contains_key("content_items"@)
                    && fields["content_items"@] is Array ==> given == text_fields(
                    fields["content_items"@]->Array_0,
                )
            }
        },
{
    kinds_differ();
}

/// Any other tool item is kept with its kind, and with its text where it has one.
pub proof fn other_tool_items_are_kept(
    line: Map<Seq<char>, JsonView>,
    payload: Map<Seq<char>, JsonView>,
    kind: Seq<char>,
)
    requires
        is_response_item(line, payload, kind),
        kind == "local_shell_call"@ || kind == "tool_search_call"@ || kind == "tool_search_output"@
            || kind == "custom_tool_call"@ || kind == "custom_tool_call_output"@ || kind
            == "web_search_call"@,
    ensures
        value_line(JsonView::Object(line)) matches LineView::Kept(
            ItemView::ToolMisc { kind: k, text: shown },
        ) && {
            &&& k == kind
            &&& payload.contains_key("text"@) && payload["text"@] is Str
                && payload["text"@]->Str_0.len() > 0 ==> shown == Some(payload["text"@]->Str_0)
        },
{
    kinds_differ();
    assert(is_misc_kind(kind));
}

/// The text of such an item is the string under the first of five keys that holds one, in
/// their order; an empty string counts as none.
pub proof fn first_text_of_a_tool_item_counts(payload: Map<Seq<char>, JsonView>, kind: Seq<char>)
    ensures
        ({
            let says = |key: Seq<char>| payload.contains_key(key) && payload[key] is Str;
            let told = |key: Seq<char>|
                if payload[key]->Str_0.len() > 0 {
                    Some(payload[key]->Str_0)
                } else {
                    None
                };
            let shown = tool_misc_line(JsonView::Object(payload), kind);
            let one = says("text"@);
            let two = !one && says("input"@);
            let three = !one && !says("input"@) && says("query"@);
            let none_of_three = !one && !says("input"@) && !says("query"@);
            let four = none_of_three && says("execution"@);
            let five = none_of_three && !says("execution"@) && says("content"@);
            &&& one ==> shown == LineView::Kept(ItemView::ToolMisc { kind, text: told("text"@) })
            &&& two ==> shown == LineView::Kept(ItemView::ToolMisc { kind, text: told("input"@) })
            &&& three ==> shown == LineView::Kept(
                ItemView::ToolMisc { kind, text: told("query"@) },
            )
            &&& four ==> shown == LineView::Kept(
                ItemView::ToolMisc { kind, text: told("execution"@) },
            )
            &&& five ==> shown == LineView::Kept(
                ItemView::ToolMisc { kind, text: told("content"@) },
            )
            &&& !one && !two && !three && !four && !five ==> shown == LineView::Kept(
                ItemView::ToolMisc { kind, text: None },
            )
        }),
{
}

/// A compaction marker ends a segment, with its message as the summary.
pub proof fn markers_carry_their_message(
    line: Map<Seq<char>, JsonView>,
    payload: Map<Seq<char>, JsonView>,
    message: Seq<char>,
)
    requires
        line.contains_key("type"@),
        line["type"@] == JsonView::Str("compacted"@),
        line.contains_key("payload"@),
        line["payload"@] == JsonView::Object(payload),
        payload.contains_key("message"@),
        payload["message"@] == JsonView::Str(message),
    ensures
        value_line(JsonView::Object(line)) == LineView::Boundary(message),
{
}

/// Lines of other types are dropped, and so are response items of other kinds.
pub proof fn other_lines_are_dropped(
    line: Map<Seq<char>, JsonView>,
    payload: Map<Seq<char>, JsonView>,
    kind: Seq<char>,
)
    ensures
        line.contains_key("type"@) && line["type"@] == JsonView::Str(kind) && kind != "compacted"@
            && kind != "response_item"@ ==> value_line(JsonView::Object(line))
            == LineView::Dropped,
        !line.contains_key("type"@) ==> value_line(JsonView::Object(line)) == LineView::Dropped,
        is_response_item(line, payload, kind) && kind != "message"@ && kind != "function_call"@
            && kind != "function_call_output"@ && kind != "local_shell_call"@ && kind
            != "tool_search_call"@ && kind != "tool_search_output"@ && kind != "custom_tool_call"@
            && kind != "custom_tool_call_output"@ && kind != "web_search_call"@ ==> value_line(
            JsonView::Object(line),
        ) == LineView::Dropped,
{
    kinds_differ();
}

/// A message without a role, or without content, is dropped.
pub proof fn messages_need_a_role_and_content(
    line: Map<Seq<char>, JsonView>,
    payload: Map<Seq<char>, JsonView>,
)
    requires
        is_response_item(line, payload, "message"@),
        !payload.contains_key("role"@) || !payload.contains_key("content"@),
    ensures
        value_line(JsonView::Object(line)) == LineView::Dropped,
{
    kinds_differ();
    blank_is_all_white(Seq::empty());
}

// ---------------------------------------------------------------------------
// Laws of segmentation

/// The markers among the lines.
pub open spec fn marker_count(lines: Seq<(i64, LineView)>) -> nat
    decreases lines.len(),
{
    if lines.len() == 0 {
        0
    } else {
        marker_count(lines.drop_last()) + (if lines.last().1 is Boundary {
            1nat
        } else {
            0nat
        })
    }
}

proof fn marker_count_split(lines: Seq<(i64, LineView)>, k: int)
    requires
        0 <= k <= lines.len(),
    ensures
        marker_count(lines) == marker_count(lines.take(k)) + marker_count(lines.skip(k)),
    decreases lines.len(),
{
    if k == lines.len() {
        assert(lines.take(k) =~= lines);
        assert(lines.skip(k) =~= Seq::empty());
    } else {
        marker_count_split(lines.drop_last(), k);
        assert(lines.drop_last().take(k) =~= lines.take(k));
        assert(lines.drop_last().skip(k) =~= lines.skip(k).drop_last());
    }
}

proof fn marker_count_none(lines: Seq<(i64, LineView)>)
    requires
        forall|j: int| 0 <= j < lines.len() ==> !((#[trigger] lines[j]).1 is Boundary),
    ensures
        marker_count(lines) == 0,
    decreases lines.len(),
{
    if lines.len() > 0 {
        assert forall|j: int| 0 <= j < lines.drop_last().len() implies !((
        #[trigger] lines.drop_last()[j]).1 is Boundary) by {
            assert(lines.drop_last()[j] == lines[j]);
        }
        marker_count_none(lines.drop_last());
    }
}

/// The segments run from the first line to the last. There is one per marker,
/// and one more exactly when the last line is no marker: a trailing marker
/// opens no empty segment. The first carries the prior summary that the thread
/// came with, every later one the summary of a marker.
pub proof fn segments_span_thread(lines: Seq<(i64, LineView)>, prior: Option<Seq<char>>)
    ensures
        ({
            let segments = segments_of(lines, prior);
            &&& segments.len() == marker_count(lines) + (if lines.len() > 0 && !(
            lines.last().1 is Boundary) {
                1nat
            } else {
                0nat
            })
            &&& lines.len() > 0 ==> {
                &&& segments.len() > 0
                &&& segments[0].start_line_no == lines[0].0
                &&& segments[0].prior_summary == prior
                &&& segments.last().end_line_no == lines.last().0
            }
            &&& forall|k: int|
                0 < k < segments.len() ==> (#[trigger] segments[k]).prior_summary is Some
        }),
    decreases lines.len(),
{
    next_marker_is_next(lines, 0);
    if lines.len() > 0 {
        match next_marker(lines, 0) {
            None => {
                marker_count_none(lines);
            },
            Some(k) => {
                let rest = lines.skip(k + 1);
                let summary = Some(lines[k].1->Boundary_0);
                segments_span_thread(rest, summary);
                marker_count_split(lines, k + 1);
                let first = lines.take(k + 1);
                assert(first.drop_last() =~= lines.take(k));
                marker_count_none(lines.take(k));
                assert(marker_count(first) == 1);
                let tail = segments_of(rest, summary);
                let segments = segments_of(lines, prior);
                assert forall|j: int| 0 < j < segments.len() implies (
                #[trigger] segments[j]).prior_summary is Some by {
                    assert(segments[j] == tail[j - 1]);
                    if j == 1 {
                        assert(tail[0].prior_summary == summary);
                    }
                }
                if rest.len() == 0 {
                    assert(k + 1 == lines.len());
                } else {
                    assert(rest.last() == lines.last());
                    assert(segments.last() == tail.last());
                }
            },
        }
    }
}

/// Where line numbers run on without a gap, so do the segments: each starts on
/// the line after the one before it ends, so no line is skipped or repeated.
pub proof fn segments_are_contiguous(lines: Seq<(i64, LineView)>, prior: Option<Seq<char>>)
    requires
        forall|i: int| 0 <= i < lines.len() ==> (#[trigger] lines[i]).0 == lines[0].0 + i,
    ensures
        ({
            let segments = segments_of(lines, prior);
            &&& forall|k: int|
                0 <= k < segments.len() ==> (#[trigger] segments[k]).start_line_no
                    <= segments[k].end_line_no
            &&& forall|k: int|
                0 <= k < segments.len() - 1 ==> segments[k + 1].start_line_no == (
                #[trigger] segments[k]).end_line_no + 1
        }),
    decreases lines.len(),
{
    next_marker_is_next(lines, 0);
    if lines.len() > 0 {
        match next_marker(lines, 0) {
            None => {
                assert(lines.last() == lines[lines.len() - 1]);
            },
            Some(k) => {
                let rest = lines.skip(k + 1);
                let summary = Some(lines[k].1->Boundary_0);
                assert forall|i: int| 0 <= i < rest.len() implies (#[trigger] rest[i]).0
                    == rest[0].0 + i by {
                    assert(rest[i] == lines[k + 1 + i]);
                    assert(rest[0] == lines[k + 1]);
                }
                segments_are_contiguous(rest, summary);
                segments_span_thread(rest, summary);
                let tail = segments_of(rest, summary);
                let segments = segments_of(lines, prior);
                assert(lines.take(k + 1).last() == lines[k]);
                assert forall|j: int| 0 <= j < segments.len() implies (
                #[trigger] segments[j]).start_line_no <= segments[j].end_line_no by {
                    if j > 0 {
                        assert(segments[j] == tail[j - 1]);
                    }
                }
                assert forall|j: int| 0 <= j < segments.len() - 1 implies segments[j
                    + 1].start_line_no == (#[trigger] segments[j]).end_line_no + 1 by {
                    assert(segments[j + 1] == tail[j]);
                    if j > 0 {
                        assert(segments[j] == tail[j - 1]);
                        assert(tail[j].start_line_no == tail[j - 1].end_line_no + 1);
                    } else {
                        assert(rest.len() > 0);
                        assert(rest[0] == lines[k + 1]);
                    }
                }
            },
        }
    }
}

} // verus!
