//! Distillation: the tolerant reading of an extractor's reply, the shape of a
//! request, and the pass that walks threads and their segments.
use crate::json;
use crate::json::Json;
use crate::json::JsonView;
use crate::prompts::EXTRACTION_PROMPT;
use crate::render;
use crate::render::Segment;
use crate::render::SegmentView;
use crate::text;
use vstd::prelude::*;
use vstd::string::*;

verus! {

/// One distilled knowledge point.
#[derive(Debug, Clone, PartialEq, Eq)]
pub struct KnowledgePoint {
    pub summary: String,
    pub detail: Option<String>,
    /// One of "decision", "failure", "pattern" and "fact".
    pub kind: String,
}

#[verifier::ext_equal]
pub ghost struct PointView {
    pub summary: Seq<char>,
    pub detail: Option<Seq<char>>,
    pub kind: Seq<char>,
}

impl View for KnowledgePoint {
    type V = PointView;

    open spec fn view(&self) -> PointView {
        PointView {
            summary: self.summary@,
            detail: text::opt_view(self.detail),
            kind: self.kind@,
        }
    }
}

pub open spec fn point_views(points: Seq<KnowledgePoint>) -> Seq<PointView> {
    points.map_values(|p: KnowledgePoint| p@)
}

/// Why an extraction failed.
#[derive(Debug)]
pub enum ExtractError {
    /// Configuration is missing or invalid.
    Config(String),
    /// A network failure, or 5xx, 408 or 429 from upstream.
    HttpTransient(String),
    /// Any other failure status: the same request would fail again.
    HttpClient(String),
    /// A reply that makes no sense.
    Parse(String),
}

#[verifier::ext_equal]
pub ghost enum ExtractErrorView {
    Config(Seq<char>),
    HttpTransient(Seq<char>),
    HttpClient(Seq<char>),
    Parse(Seq<char>),
}

impl View for ExtractError {
    type V = ExtractErrorView;

    open spec fn view(&self) -> ExtractErrorView {
        match *self {
            ExtractError::Config(m) => ExtractErrorView::Config(m@),
            ExtractError::HttpTransient(m) => ExtractErrorView::HttpTransient(m@),
            ExtractError::HttpClient(m) => ExtractErrorView::HttpClient(m@),
            ExtractError::Parse(m) => ExtractErrorView::Parse(m@),
        }
    }
}

impl ExtractErrorView {
    /// The text that is shown for the error.
    pub open spec fn message(self) -> Seq<char> {
        match self {
            ExtractErrorView::Config(m) => "distill config error: "@ + m,
            ExtractErrorView::HttpTransient(m) => "distill http transient: "@ + m,
            ExtractErrorView::HttpClient(m) => "distill http client error: "@ + m,
            ExtractErrorView::Parse(m) => "distill parse error: "@ + m,
        }
    }
}

impl ExtractError {
    /// Whether trying again may help: only for a transient failure.
    pub fn is_retryable(&self) -> (r: bool)
        ensures
            r == (self@ is HttpTransient),
    {
        match self {
            ExtractError::HttpTransient(_) => true,
            _ => false,
        }
    }

    /// The text that is shown for the error.
    pub fn message(&self) -> (r: String)
        ensures
            r@ == self@.message(),
    {
        match self {
            ExtractError::Config(m) => "distill config error: ".to_owned().concat(m.as_str()),
            ExtractError::HttpTransient(m) => "distill http transient: ".to_owned().concat(
                m.as_str(),
            ),
            ExtractError::HttpClient(m) => "distill http client error: ".to_owned().concat(
                m.as_str(),
            ),
            ExtractError::Parse(m) => "distill parse error: ".to_owned().concat(m.as_str()),
        }
    }
}

// ---------------------------------------------------------------------------
// Cleaning a reply

/// `s` without its paired `<think>…</think>` blocks: each opening tag goes with
/// the first closing tag after it, and an unclosed one stays as it is.
pub open spec fn unthought(s: Seq<char>) -> Seq<char>
    decreases s.len(),
    via unthought_decreases
{
    match text::first_at(s, "<think>"@) {
        None => s,
        Some(i) => {
            let after = s.skip(i + "<think>"@.len());
            match text::first_at(after, "</think>"@) {
                None => s,
                Some(j) => s.take(i) + unthought(after.skip(j + "</think>"@.len())),
            }
        },
    }
}

#[via_fn]
proof fn unthought_decreases(s: Seq<char>) {
    reveal_strlit("<think>");
    text::first_from_is_first(s, "<think>"@, 0);
    if let Some(i) = text::first_at(s, "<think>"@) {
        let after = s.skip(i + "<think>"@.len());
        text::first_from_is_first(after, "</think>"@, 0);
    }
}

/// Removes every paired `<think>…</think>` block.
pub fn strip_think_blocks(s: &str) -> (r: String)
    ensures
        r@ == unthought(s@),
{
    let mut out = String::new();
    let mut rest: &str = s;
    proof {
        reveal_strlit("<think>");
        reveal_strlit("</think>");
    }
    loop
        invariant
            "<think>"@.len() == 7,
            "</think>"@.len() == 8,
            out@ + unthought(rest@) == unthought(s@),
        decreases rest@.len(),
    {
        match text::find(rest, "<think>") {
            None => {
                out.append(rest);
                return out;
            },
            Some(start) => {
                let after_open = text::tail(rest, start + 7);
                match text::find(after_open, "</think>") {
                    Some(end) => {
                        let ghost before = out@;
                        out.append(text::head(rest, start));
                        let next = text::tail(after_open, end + 8);
                        assert(unthought(rest@) == rest@.take(start as int) + unthought(next@));
                        assert(out@ + unthought(next@) =~= before + unthought(rest@));
                        rest = next;
                    },
                    None => {
                        out.append(rest);
                        return out;
                    },
                }
            },
        }
    }
}

/// The inside of a fence that `open` begins, where `t` is such a fence.
pub open spec fn inside_fence(t: Seq<char>, open: Seq<char>) -> Option<Seq<char>> {
    match text::without_prefix(t, open) {
        Some(rest) => text::without_suffix(
            text::trimmed_end(text::without_leading_breaks(rest)),
            "```"@,
        ),
        None => None,
    }
}

/// `s` trimmed, and without a markdown code fence around it.
pub open spec fn unfenced(s: Seq<char>) -> Seq<char> {
    let t = text::trimmed(s);
    match inside_fence(t, "```json"@) {
        Some(inner) => inner,
        None => match inside_fence(t, "```"@) {
            Some(inner) => inner,
            None => t,
        },
    }
}

fn strip_fence<'a>(t: &'a str, open: &str) -> (r: Option<&'a str>)
    ensures
        match r {
            Some(inner) => inside_fence(t@, open@) == Some(inner@),
            None => inside_fence(t@, open@) is None,
        },
{
    match text::strip_prefix(t, open) {
        Some(rest) => text::strip_suffix(text::trim_end(text::trim_start_breaks(rest)), "```"),
        None => None,
    }
}

/// Trims, and takes a surrounding markdown code fence away.
pub fn strip_code_fence<'a>(s: &'a str) -> (r: &'a str)
    ensures
        r@ == unfenced(s@),
{
    let t = text::trim(s);
    match strip_fence(t, "```json") {
        Some(inner) => inner,
        None => match strip_fence(t, "```") {
            Some(inner) => inner,
            None => t,
        },
    }
}

/// The text from the first `open` to the last `close`, both included. The
/// errors tell a missing bracket from brackets in the wrong order.
pub open spec fn bracketed(
    s: Seq<char>,
    open: Seq<char>,
    close: char,
    no_open: Seq<char>,
    no_close: Seq<char>,
    disordered: Seq<char>,
) -> Result<Seq<char>, Seq<char>> {
    match text::first_at(s, open) {
        None => Err(no_open),
        Some(start) => match text::last_char(s, close) {
            None => Err(no_close),
            Some(end) => if end < start {
                Err(disordered)
            } else {
                Ok(s.subrange(start, end + 1))
            },
        },
    }
}

/// The outermost `[…]` of a reply.
pub open spec fn array_slice(s: Seq<char>) -> Result<Seq<char>, Seq<char>> {
    bracketed(
        s,
        "["@,
        ']',
        "no '[' found in extractor reply"@,
        "no ']' found in extractor reply"@,
        "array brackets out of order in extractor reply"@,
    )
}

/// Slices the outermost `[…]` out of a reply.
pub fn extract_json_array_slice<'a>(s: &'a str) -> (r: Result<&'a str, String>)
    ensures
        match r {
            Ok(t) => array_slice(s@) == Ok::<Seq<char>, Seq<char>>(t@),
            Err(m) => array_slice(s@) == Err::<Seq<char>, Seq<char>>(m@),
        },
{
    let start = match text::find(s, "[") {
        Some(i) => i,
        None => return Err("no '[' found in extractor reply".to_owned()),
    };
    let end = match text::rfind_char(s, ']') {
        Some(i) => i,
        None => return Err("no ']' found in extractor reply".to_owned()),
    };
    if end < start {
        return Err("array brackets out of order in extractor reply".to_owned());
    }
    Ok(s.substring_char(start, end + 1))
}

// ---------------------------------------------------------------------------
// Knowledge points

/// The kind that a raw token stands for: one of the four, else "fact".
pub open spec fn kind_of(raw: Seq<char>) -> Seq<char> {
    let lower = text::lowercase(text::trimmed(raw));
    if lower == "decision"@ || lower == "failure"@ || lower == "pattern"@ || lower == "fact"@ {
        lower
    } else {
        "fact"@
    }
}

/// The kind that a raw token stands for.
pub fn normalize_kind(raw: &str) -> (r: String)
    ensures
        r@ == kind_of(raw@),
{
    let lower = text::to_lowercase(text::trim(raw));
    if text::same(lower.as_str(), "decision") || text::same(lower.as_str(), "failure")
        || text::same(lower.as_str(), "pattern") || text::same(lower.as_str(), "fact") {
        lower
    } else {
        "fact".to_owned()
    }
}

/// The detail that a field holds: a non-empty string as it is, null and the
/// empty string as nothing, any other value as its JSON text.
pub open spec fn detail_of(field: Option<JsonView>) -> Option<Seq<char>> {
    match field {
        None => None,
        Some(v) => match v {
            JsonView::Null => None,
            JsonView::Str(s) => if s.len() == 0 {
                None
            } else {
                Some(s)
            },
            other => Some(json::rendered(other)),
        },
    }
}

/// The point that an item of the reply stands for; one without a summary is
/// passed over.
pub open spec fn point_of(item: JsonView) -> Option<PointView> {
    let summary = text::trimmed(render::string_or_empty(item, "summary"@));
    if summary.len() == 0 {
        None
    } else {
        Some(
            PointView {
                summary,
                detail: detail_of(item.field("detail"@)),
                kind: match item.string_field("kind"@) {
                    Some(k) => kind_of(k),
                    None => kind_of("fact"@),
                },
            },
        )
    }
}

/// The points that the items stand for, in order.
pub open spec fn points_of(items: Seq<JsonView>) -> Seq<PointView>
    decreases items.len(),
{
    if items.len() == 0 {
        Seq::empty()
    } else {
        let before = points_of(items.drop_last());
        match point_of(items.last()) {
            Some(p) => before.push(p),
            None => before,
        }
    }
}

/// The points that a reply's value holds.
pub open spec fn points_in(v: JsonView) -> Result<Seq<PointView>, Seq<char>> {
    match v.items() {
        Some(items) => Ok(points_of(items)),
        None => Err("expected top-level JSON array"@),
    }
}

/// The points that a reply holds.
pub open spec fn reply_points(s: Seq<char>) -> Result<Seq<PointView>, Seq<char>> {
    match array_slice(unfenced(unthought(s))) {
        Err(m) => Err(m),
        Ok(slice) => match json::parsed(slice) {
            Err(e) => Err("invalid JSON: "@ + e + " (after fence-strip + bracket-slice)"@),
            Ok(v) => points_in(v),
        },
    }
}

/// A kind is always one of the four.
pub proof fn kind_is_one_of_four(raw: Seq<char>)
    ensures
        ({
            let kind = kind_of(raw);
            kind == "decision"@ || kind == "failure"@ || kind == "pattern"@ || kind == "fact"@
        }),
{
}

/// The items of a reply are read one by one: an item that makes no point spoils
/// none of the others.
pub proof fn items_are_read_one_by_one(a: Seq<JsonView>, b: Seq<JsonView>)
    ensures
        points_of(a + b) == points_of(a) + points_of(b),
    decreases b.len(),
{
    if b.len() == 0 {
        assert(a + b =~= a);
        assert(points_of(a) + points_of(b) =~= points_of(a));
    } else {
        assert((a + b).drop_last() =~= a + b.drop_last());
        items_are_read_one_by_one(a, b.drop_last());
        assert(points_of(a + b) =~= points_of(a) + points_of(b));
    }
}

/// A point is read off the fields of its item: the summary trimmed, a detail that
/// is a text character for character, any other value as its JSON text, and the
/// kind where it is one of the four, whatever the case. An item whose summary is
/// missing or blank makes no point.
pub proof fn point_is_what_the_fields_say(fields: Map<Seq<char>, JsonView>)
    ensures
        ({
            let item = JsonView::Object(fields);
            let titled = fields.contains_key("summary"@) && fields["summary"@] is Str
                && text::trimmed(fields["summary"@]->Str_0).len() > 0;
            let detailed = fields.contains_key("detail"@);
            let detail = fields["detail"@];
            let p = point_of(item);
            &&& p is Some <==> titled
            &&& titled ==> {
                &&& p->0.summary == text::trimmed(fields["summary"@]->Str_0)
                &&& detailed && detail is Str && detail->Str_0.len() > 0 ==> p->0.detail == Some(
                    detail->Str_0,
                )
                &&& detailed && (detail is Array || detail is Object || detail is Bool
                    || detail is Number) ==> p->0.detail == Some(json::rendered(detail))
                &&& !detailed || detail is Null ==> p->0.detail is None
                &&& detailed && detail is Str && detail->Str_0.len() == 0 ==> p->0.detail is None
                &&& fields.contains_key("kind"@) && fields["kind"@] is Str ==> {
                    let low = text::lowercase(text::trimmed(fields["kind"@]->Str_0));
                    &&& low == "decision"@ ==> p->0.kind == "decision"@
                    &&& low == "failure"@ ==> p->0.kind == "failure"@
                    &&& low == "pattern"@ ==> p->0.kind == "pattern"@
                    &&& low != "decision"@ && low != "failure"@ && low != "pattern"@ ==> p->0.kind
                        == "fact"@
                }
                &&& !fields.contains_key("kind"@) ==> p->0.kind == "fact"@
            }
            &&& points_of(seq![item]) == (match p {
                Some(x) => seq![x],
                None => Seq::empty(),
            })
        }),
{
    let item = JsonView::Object(fields);
    assert(seq![item].drop_last() =~= Seq::empty());
    assert(points_of(Seq::<JsonView>::empty()) =~= Seq::empty());
    assert(points_of(seq![item]) =~= (match point_of(item) {
        Some(x) => seq![x],
        None => Seq::empty(),
    }));
    text::trimming_nothing(Seq::empty());
    reveal_strlit("fact");
    assert(text::trimmed("fact"@) == "fact"@);
    assert(text::ascii_lowercase("fact"@) =~= "fact"@);
    assert(text::lowercase("fact"@) == "fact"@);
}

/// Reasoning goes and nothing else: a paired block with all that it holds, from
/// its opening tag to the first closing tag behind it. A text without an opening
/// tag stays as it is.
pub proof fn only_reasoning_goes(a: Seq<char>, thought: Seq<char>, b: Seq<char>)
    requires
        forall|j: int| 0 <= j < a.len() ==> !text::occurs_at(a + "<think>"@, "<think>"@, j),
        forall|j: int|
            0 <= j < thought.len() ==> !text::occurs_at(
                thought + "</think>"@,
                "</think>"@,
                j,
            ),
    ensures
        unthought(a + "<think>"@ + thought + "</think>"@ + b) == a + unthought(b),
{
    reveal_strlit("<think>");
    reveal_strlit("</think>");
    let rest = thought + "</think>"@ + b;
    let s = a + "<think>"@ + rest;
    assert(s =~= a + "<think>"@ + thought + "</think>"@ + b);
    text::first_behind(a, "<think>"@, rest);
    let n = a.len() as int;
    assert(s.skip(n + 7) =~= rest);
    text::first_behind(thought, "</think>"@, b);
    let m = thought.len() as int;
    assert(rest.skip(m + 8) =~= b);
    assert(s.take(n) =~= a);
}

/// Reasoning that is not closed stays, with all that follows it.
pub proof fn unclosed_reasoning_stays(a: Seq<char>, b: Seq<char>)
    requires
        forall|j: int|
            0 <= j < a.len() ==> !#[trigger] text::occurs_at(a + "<think>"@, "<think>"@, j),
        !text::has(b, "</think>"@),
    ensures
        unthought(a + "<think>"@ + b) == a + "<think>"@ + b,
{
    reveal_strlit("<think>");
    let s = a + "<think>"@ + b;
    text::first_behind(a, "<think>"@, b);
    let n = a.len() + "<think>"@.len();
    assert(s.skip(n as int) =~= b);
    text::first_from_is_first(b, "</think>"@, 0);
    if let Some(j) = text::first_at(b, "</think>"@) {
        assert(text::occurs_at(b, "</think>"@, j));
    }
}

/// A reply gives no points where no array is found in it, where what is found is no JSON,
/// or where it is no array.
pub proof fn replies_without_points_fail(s: Seq<char>)
    ensures
        match array_slice(unfenced(unthought(s))) {
            Ok(slice) => match json::parsed(slice) {
                Ok(v) => if v is Array {
                    reply_points(s) == Ok::<Seq<PointView>, Seq<char>>(points_of(v->Array_0))
                } else {
                    reply_points(s) is Err
                },
                Err(_) => reply_points(s) is Err,
            },
            Err(_) => reply_points(s) is Err,
        },
{
}

/// A reply without reasoning is taken as it is.
pub proof fn plain_replies_stay(s: Seq<char>)
    requires
        !text::has(s, "<think>"@),
    ensures
        unthought(s) == s,
{
    text::has_iff_first(s, "<think>"@);
}

/// From the first opening bracket to the last closing one a text is sliced out
/// whole, whatever stands before the one and behind the other.
pub proof fn slices_are_whole(
    before: Seq<char>,
    body: Seq<char>,
    after: Seq<char>,
    open: char,
    close: char,
    no_open: Seq<char>,
    no_close: Seq<char>,
    disordered: Seq<char>,
)
    requires
        body.len() >= 2,
        body[0] == open,
        body.last() == close,
        forall|i: int| 0 <= i < before.len() ==> before[i] != open,
        forall|i: int| 0 <= i < after.len() ==> after[i] != close,
    ensures
        bracketed(before + body + after, seq![open], close, no_open, no_close, disordered) == Ok::<
            Seq<char>,
            Seq<char>,
        >(body),
{
    let s = before + body + after;
    let n = before.len() as int;
    let m = n + body.len();
    text::first_from_is_first(s, seq![open], 0);
    assert(s.subrange(n, n + 1) =~= seq![open]);
    assert(text::occurs_at(s, seq![open], n));
    let i = text::first_at(s, seq![open])->0;
    if i < n {
        assert(s.subrange(i, i + 1)[0] == before[i]);
    }
    text::last_char_is_last(s, close);
    assert(s[m - 1] == close);
    let j = text::last_char(s, close)->0;
    if j > m - 1 {
        assert(s[j] == after[j - m]);
    }
    assert(s.subrange(n, m) =~= body);
}

/// A bare array, prose around an array and an array in a code fence all give the
/// same array to read.
pub proof fn arrays_are_found_in_replies(before: Seq<char>, body: Seq<char>, after: Seq<char>)
    requires
        body.len() >= 2,
        body[0] == '[',
        body.last() == ']',
        forall|i: int| 0 <= i < before.len() ==> before[i] != '[' && before[i] != '`',
        forall|i: int| 0 <= i < after.len() ==> after[i] != ']',
    ensures
        array_slice(unfenced(before + body + after)) == Ok::<Seq<char>, Seq<char>>(body),
        array_slice(unfenced("```json\n"@ + body + "\n```"@)) == Ok::<Seq<char>, Seq<char>>(body),
        array_slice(unfenced("```\n"@ + body + "\n```"@)) == Ok::<Seq<char>, Seq<char>>(body),
{
    reveal_strlit("[");
    assert("["@ =~= seq!['[']);
    prose_is_no_fence(before, body, after);
    fence_is_opened(body);
}

/// Trimming a reply that is no code fence leaves its body whole, with as much of
/// what stands around it as is not white space at the ends.
pub proof fn trimming_spares_the_body(
    before: Seq<char>,
    body: Seq<char>,
    after: Seq<char>,
) -> (r: (int, int))
    requires
        body.len() > 0,
        !text::is_white_space(body[0]),
        !text::is_white_space(body.last()),
        body[0] != '`',
        forall|i: int| 0 <= i < before.len() ==> before[i] != '`',
    ensures
        0 <= r.0 <= before.len(),
        0 <= r.1 <= after.len(),
        unfenced(before + body + after) == before.skip(r.0) + body + after.take(r.1),
{
    reveal_strlit("```");
    reveal_strlit("```json");
    let s = before + body + after;
    text::trimming_keeps_the_middle(s);
    let (i, j) = choose|i: int, j: int|
        0 <= i <= j <= s.len() && text::trimmed(s) == #[trigger] s.subrange(i, j) && text::is_white(
            s.take(i),
        ) && text::is_white(s.skip(j));
    let n = before.len() as int;
    let m = n + body.len();
    assert(s[n] == body[0] && s[m - 1] == body.last());
    if i > n {
        assert(s.take(i)[n] == body[0]);
    }
    if j < m {
        assert(s.skip(j)[m - 1 - j] == body.last());
    }
    let t = text::trimmed(s);
    assert(t =~= before.skip(i) + body + after.take(j - m));
    assert(t[0] == s[i]);
    if i < n {
        assert(s[i] == before[i]);
    }
    assert(t[0] != '`');
    assert(!text::begins(t, "```"@)) by {
        if text::begins(t, "```"@) {
            assert(t.take(3)[0] == '`');
        }
    }
    assert(!text::begins(t, "```json"@)) by {
        if text::begins(t, "```json"@) {
            assert(t.take(7)[0] == '`');
        }
    }
    (i, j - m)
}

proof fn prose_is_no_fence(before: Seq<char>, body: Seq<char>, after: Seq<char>)
    requires
        body.len() >= 2,
        body[0] == '[',
        body.last() == ']',
        forall|i: int| 0 <= i < before.len() ==> before[i] != '[' && before[i] != '`',
        forall|i: int| 0 <= i < after.len() ==> after[i] != ']',
    ensures
        array_slice(unfenced(before + body + after)) == Ok::<Seq<char>, Seq<char>>(body),
{
    reveal_strlit("[");
    assert("["@ =~= seq!['[']);
    let (i, j) = trimming_spares_the_body(before, body, after);
    let head = before.skip(i);
    assert forall|k: int| 0 <= k < head.len() implies head[k] != '[' by {
        assert(head[k] == before[i + k]);
    }
    slices_are_whole(
        head,
        body,
        after.take(j),
        '[',
        ']',
        "no '[' found in extractor reply"@,
        "no ']' found in extractor reply"@,
        "array brackets out of order in extractor reply"@,
    );
}

/// A reply gives the points of the array in it, whatever prose stands around.
pub proof fn replies_give_their_points(
    before: Seq<char>,
    body: Seq<char>,
    after: Seq<char>,
    items: Seq<JsonView>,
)
    requires
        body.len() >= 2,
        body[0] == '[',
        body.last() == ']',
        forall|i: int| 0 <= i < before.len() ==> before[i] != '[' && before[i] != '`',
        forall|i: int| 0 <= i < after.len() ==> after[i] != ']',
        !text::has(before + body + after, "<think>"@),
        json::parsed(body) == Ok::<JsonView, Seq<char>>(JsonView::Array(items)),
    ensures
        reply_points(before + body + after) == Ok::<Seq<PointView>, Seq<char>>(points_of(items)),
{
    plain_replies_stay(before + body + after);
    prose_is_no_fence(before, body, after);
}

proof fn fence_is_opened(body: Seq<char>)
    requires
        body.len() >= 2,
        body[0] == '[',
        body.last() == ']',
    ensures
        array_slice(unfenced("```json\n"@ + body + "\n```"@)) == Ok::<Seq<char>, Seq<char>>(body),
        array_slice(unfenced("```\n"@ + body + "\n```"@)) == Ok::<Seq<char>, Seq<char>>(body),
{
    reveal_strlit("[");
    reveal_strlit("```");
    reveal_strlit("```json");
    reveal_strlit("```json\n");
    reveal_strlit("```\n");
    reveal_strlit("\n```");
    assert("["@ =~= seq!['[']);
    let inner = body + seq!['\n'];
    slices_are_whole(
        Seq::empty(),
        body,
        seq!['\n'],
        '[',
        ']',
        "no '[' found in extractor reply"@,
        "no ']' found in extractor reply"@,
        "array brackets out of order in extractor reply"@,
    );
    assert(Seq::empty() + body + seq!['\n'] =~= inner);
    let rest = seq!['\n'] + inner + "```"@;
    let closed = inner + "```"@;
    assert(rest.skip(1) =~= closed);
    assert(closed[0] == '[');
    assert(text::without_leading_breaks(rest) == closed) by {
        reveal_with_fuel(text::without_leading_breaks, 2);
    }
    assert(closed.last() == '`');
    assert(text::trimmed_end(closed) == closed);
    assert(closed.skip(closed.len() - 3) =~= "```"@);
    assert(closed.take(closed.len() - 3) =~= inner);
    assert(text::without_suffix(closed, "```"@) == Some(inner));
    let labelled = "```json\n"@ + body + "\n```"@;
    assert(labelled =~= "```json"@ + rest);
    text::trimming_nothing(labelled);
    assert(labelled.take(7) =~= "```json"@);
    assert(labelled.skip(7) =~= rest);
    let bare = "```\n"@ + body + "\n```"@;
    assert(bare =~= "```"@ + rest);
    text::trimming_nothing(bare);
    assert(bare.take(3) =~= "```"@);
    assert(bare.skip(3) =~= rest);
    assert(!text::begins(bare, "```json"@)) by {
        assert(bare[3] == '\n');
        if text::begins(bare, "```json"@) {
            assert(bare.take(7)[3] == 'j');
        }
    }
}

fn read_detail(item: &Json) -> (r: Option<String>)
    ensures
        text::opt_view(r) == detail_of(item@.field("detail"@)),
{
    match item.get("detail") {
        None => None,
        Some(v) => match v {
            Json::Null => None,
            Json::Str(s) => if s.as_str().is_empty() {
                None
            } else {
                Some(s.clone())
            },
            _ => Some(v.to_text()),
        },
    }
}

fn read_point(item: &Json) -> (r: Option<KnowledgePoint>)
    ensures
        match r {
            Some(p) => point_of(item@) == Some(p@),
            None => point_of(item@) is None,
        },
{
    let summary = match item.get_str("summary") {
        Some(s) => text::trim(s).to_owned(),
        None => String::new(),
    };
    proof {
        text::trimmed_is_no_longer(Seq::<char>::empty());
        assert(text::trimmed(Seq::<char>::empty()) =~= Seq::empty());
        assert(summary@ == text::trimmed(render::string_or_empty(item@, "summary"@)));
    }
    if summary.as_str().is_empty() {
        return None;
    }
    let detail = read_detail(item);
    let kind = match item.get_str("kind") {
        Some(k) => normalize_kind(k),
        None => normalize_kind("fact"),
    };
    Some(KnowledgePoint { summary, detail, kind })
}

/// Reads the points out of a reply's value.
pub fn knowledge_points_in(value: &Json) -> (r: Result<Vec<KnowledgePoint>, String>)
    ensures
        match r {
            Ok(points) => points_in(value@) == Ok::<Seq<PointView>, Seq<char>>(
                point_views(points@),
            ),
            Err(m) => points_in(value@) == Err::<Seq<PointView>, Seq<char>>(m@),
        },
{
    let items = match value.as_array() {
        Some(items) => items,
        None => return Err("expected top-level JSON array".to_owned()),
    };
    let ghost all = json::items_view(items@);
    let mut out: Vec<KnowledgePoint> = Vec::new();
    let mut i: usize = 0;
    while i < items.len()
        invariant
            i <= items@.len(),
            all == json::items_view(items@),
            point_views(out@) == points_of(all.take(i as int)),
        decreases items@.len() - i,
    {
        assert(all.take(i + 1).drop_last() =~= all.take(i as int));
        assert(all.take(i + 1).last() == items@[i as int]@);
        if let Some(p) = read_point(&items[i]) {
            let ghost before = point_views(out@);
            out.push(p);
            assert(point_views(out@) =~= before.push(p@));
        }
        i += 1;
    }
    assert(all.take(i as int) =~= all);
    Ok(out)
}

/// Reads the points out of a reply: reasoning blocks and a code fence are taken
/// away, then the outermost array is read.
pub fn parse_knowledge_points(s: &str) -> (r: Result<Vec<KnowledgePoint>, String>)
    ensures
        match r {
            Ok(points) => reply_points(s@) == Ok::<Seq<PointView>, Seq<char>>(
                point_views(points@),
            ),
            Err(m) => reply_points(s@) == Err::<Seq<PointView>, Seq<char>>(m@),
        },
{
    let unthought_text = strip_think_blocks(s);
    let inner = strip_code_fence(unthought_text.as_str());
    let sliced = match extract_json_array_slice(inner) {
        Ok(t) => t,
        Err(m) => return Err(m),
    };
    match Json::from_str(sliced) {
        Ok(v) => knowledge_points_in(&v),
        Err(e) => Err(
            "invalid JSON: ".to_owned().concat(e.as_str()).concat(
                " (after fence-strip + bracket-slice)",
            ),
        ),
    }
}

// ---------------------------------------------------------------------------
// The chat endpoint

/// Where and as whom chat completions are asked for.
#[derive(Debug, Clone, PartialEq, Eq)]
pub struct HttpExtractor {
    pub base_url: String,
    pub model: String,
    pub api_key: String,
}

#[verifier::ext_equal]
pub ghost struct EndpointView {
    pub base_url: Seq<char>,
    pub model: Seq<char>,
    pub api_key: Seq<char>,
}

impl View for HttpExtractor {
    type V = EndpointView;

    open spec fn view(&self) -> EndpointView {
        EndpointView { base_url: self.base_url@, model: self.model@, api_key: self.api_key@ }
    }
}

/// The endpoint that the three environment variables give, kept as they are:
/// all must be set, and none blank.
pub open spec fn env_endpoint(
    base_url: Option<Seq<char>>,
    model: Option<Seq<char>>,
    api_key: Option<Seq<char>>,
) -> Option<EndpointView> {
    match (base_url, model, api_key) {
        (Some(b), Some(m), Some(k)) => if render::is_blank(b) || render::is_blank(m)
            || render::is_blank(k) {
            None
        } else {
            Some(EndpointView { base_url: b, model: m, api_key: k })
        },
        _ => None,
    }
}

/// The endpoint that a credentials file's value gives: three strings, trimmed,
/// none of them empty.
pub open spec fn file_endpoint(v: JsonView) -> Option<EndpointView> {
    match (v.string_field("base_url"@), v.string_field("model"@), v.string_field("api_key"@)) {
        (Some(b), Some(m), Some(k)) => if render::is_blank(b) || render::is_blank(m)
            || render::is_blank(k) {
            None
        } else {
            Some(
                EndpointView {
                    base_url: text::trimmed(b),
                    model: text::trimmed(m),
                    api_key: text::trimmed(k),
                },
            )
        },
        _ => None,
    }
}

/// The endpoint that the text of a credentials file gives.
pub open spec fn file_text_endpoint(body: Seq<char>) -> Option<EndpointView> {
    match json::parsed(body) {
        Ok(v) => file_endpoint(v),
        Err(_) => None,
    }
}

/// A path below a base URL, whether that ends with a slash or not.
pub open spec fn url_below(base: Seq<char>, path: Seq<char>) -> Seq<char> {
    text::without_trailing(base, '/') + path
}

/// A URL is the base and the path with one slash between, however many the base ends with,
/// and nothing of the base but those is lost.
pub proof fn urls_join_base_and_path(base: Seq<char>, path: Seq<char>)
    requires
        path.len() > 0,
        path[0] == '/',
    ensures
        ({
            let url = url_below(base, path);
            let n = url.len() - path.len();
            &&& text::ends(url, path)
            &&& 0 <= n <= base.len()
            &&& url.take(n) == base.take(n)
            &&& n > 0 ==> url[n - 1] != '/'
            &&& forall|i: int| n <= i < base.len() ==> base[i] == '/'
            &&& url_below(base.push('/'), path) == url
        }),
{
    text::trailing_characters_go(base, '/');
    let stem = text::without_trailing(base, '/');
    let url = url_below(base, path);
    let n = stem.len() as int;
    assert(url.len() - path.len() == n);
    assert(url.skip(n) =~= path);
    assert(base.take(n) =~= stem);
    assert(url.take(n) =~= base.take(n));
    if n > 0 {
        assert(url[n - 1] == stem.last());
    }
    let longer = base.push('/');
    assert(longer.drop_last() =~= base);
    assert(text::without_trailing(longer, '/') == stem);
}

/// The environment comes before the credentials file.
pub open spec fn chosen(
    env: Option<EndpointView>,
    file_body: Option<Seq<char>>,
) -> Option<EndpointView> {
    match env {
        Some(e) => Some(e),
        None => match file_body {
            Some(body) => file_text_endpoint(body),
            None => None,
        },
    }
}

/// What the environment gives is taken whatever the file says; without it the file decides;
/// and a file that is no JSON gives nothing.
pub proof fn environment_comes_first(
    env: Option<EndpointView>,
    body: Seq<char>,
    fields: Map<Seq<char>, JsonView>,
)
    ensures
        env is Some ==> chosen(env, Some(body)) == env && chosen(env, None) == env,
        json::parsed(body) == Ok::<JsonView, Seq<char>>(JsonView::Object(fields)) ==> chosen(
            None,
            Some(body),
        ) == file_endpoint(JsonView::Object(fields)),
        json::parsed(body) is Err ==> chosen(None, Some(body)) is None,
        chosen(None, None) is None,
{
}

/// The view of an endpoint, where there is one.
pub open spec fn endpoint_view(e: Option<HttpExtractor>) -> Option<EndpointView> {
    match e {
        Some(x) => Some(x@),
        None => None,
    }
}

/// A chat message.
pub open spec fn chat_message(role: Seq<char>, content: Seq<char>) -> JsonView {
    JsonView::Object(
        Map::empty().insert("role"@, JsonView::Str(role)).insert(
            "content"@,
            JsonView::Str(content),
        ),
    )
}

/// The body of a chat request: model, the two messages, a low temperature.
pub open spec fn chat_body(model: Seq<char>, system: Seq<char>, user: Seq<char>) -> JsonView {
    JsonView::Object(
        Map::empty().insert("model"@, JsonView::Str(model)).insert(
            "messages"@,
            JsonView::Array(
                seq![chat_message("system"@, system), chat_message("user"@, user)],
            ),
        ).insert("temperature"@, json::literal("0.2"@)),
    )
}

/// The user message of an extraction: the prior summary, where there is one,
/// then the transcript.
pub open spec fn user_block(transcript: Seq<char>, prior: Option<Seq<char>>) -> Seq<char> {
    (match prior {
        Some(p) => "[PRIOR CONTEXT SUMMARY]\n"@ + p + "\n\n"@,
        None => Seq::empty(),
    }) + "[TRANSCRIPT]\n"@ + transcript
}

/// The user message of an extraction.
pub fn extraction_user_block(transcript: &str, prior_summary: Option<&str>) -> (r: String)
    ensures
        r@ == user_block(transcript@, text::opt_str_view(prior_summary)),
{
    let mut block = String::new();
    if let Some(prior) = prior_summary {
        block.append("[PRIOR CONTEXT SUMMARY]\n");
        block.append(prior);
        block.append("\n\n");
    }
    block.append("[TRANSCRIPT]\n");
    block.append(transcript);
    assert(block@ =~= user_block(transcript@, text::opt_str_view(prior_summary)));
    block
}

fn message_json(role: &str, content: &str) -> (j: Json)
    ensures
        j@ == chat_message(role@, content@),
{
    let fields: Vec<(String, Json)> = Vec::new();
    let fields = json::with_field(fields, "role", json::string(role));
    let fields = json::with_field(fields, "content", json::string(content));
    Json::Object(fields)
}

impl HttpExtractor {
    /// From the values of `OPENCRAB_DISTILLER_{BASE_URL,MODEL,API_KEY}`. Without
    /// all three distillation is disabled, which is no error.
    pub fn from_env(
        base_url: Option<String>,
        model: Option<String>,
        api_key: Option<String>,
    ) -> (r: Option<HttpExtractor>)
        ensures
            endpoint_view(r) == env_endpoint(
                text::opt_view(base_url),
                text::opt_view(model),
                text::opt_view(api_key),
            ),
    {
        match (base_url, model, api_key) {
            (Some(base_url), Some(model), Some(api_key)) => {
                if text::trim(base_url.as_str()).is_empty() || text::trim(model.as_str()).is_empty()
                    || text::trim(api_key.as_str()).is_empty() {
                    return None;
                }
                Some(HttpExtractor { base_url, model, api_key })
            },
            _ => None,
        }
    }

    /// From the value of a credentials file.
    pub fn from_file_value(v: &Json) -> (r: Option<HttpExtractor>)
        ensures
            endpoint_view(r) == file_endpoint(v@),
    {
        match (v.get_str("base_url"), v.get_str("model"), v.get_str("api_key")) {
            (Some(b), Some(m), Some(k)) => {
                let base_url = text::trim(b).to_owned();
                let model = text::trim(m).to_owned();
                let api_key = text::trim(k).to_owned();
                if base_url.as_str().is_empty() || model.as_str().is_empty()
                    || api_key.as_str().is_empty() {
                    return None;
                }
                Some(HttpExtractor { base_url, model, api_key })
            },
            _ => None,
        }
    }

    /// From the text of a credentials file.
    pub fn from_file(body: &str) -> (r: Option<HttpExtractor>)
        ensures
            endpoint_view(r) == file_text_endpoint(body@),
    {
        match Json::from_str(body) {
            Ok(v) => HttpExtractor::from_file_value(&v),
            Err(_) => None,
        }
    }

    /// The environment first, then the credentials file, where it was readable.
    pub fn load(
        base_url: Option<String>,
        model: Option<String>,
        api_key: Option<String>,
        file_body: Option<&str>,
    ) -> (r: Option<HttpExtractor>)
        ensures
            endpoint_view(r) == chosen(
                env_endpoint(
                    text::opt_view(base_url),
                    text::opt_view(model),
                    text::opt_view(api_key),
                ),
                text::opt_str_view(file_body),
            ),
            endpoint_view(r) == (match env_endpoint(
                text::opt_view(base_url),
                text::opt_view(model),
                text::opt_view(api_key),
            ) {
                Some(e) => Some(e),
                None => match file_body {
                    Some(body) => file_text_endpoint(body@),
                    None => None,
                },
            }),
    {
        match HttpExtractor::from_env(base_url, model, api_key) {
            Some(e) => Some(e),
            None => match file_body {
                Some(body) => HttpExtractor::from_file(body),
                None => None,
            },
        }
    }

    /// The URL to post to. The base URL already names the API version.
    pub fn chat_completions_url(&self) -> (r: String)
        ensures
            r@ == url_below(self.base_url@, "/chat/completions"@),
            r@ == text::without_trailing(self.base_url@, '/') + "/chat/completions"@,
    {
        text::trim_end_char(self.base_url.as_str(), '/').to_owned().concat("/chat/completions")
    }

    /// The body of a chat request with these two messages.
    pub fn build_chat_body(&self, system: &str, user: &str) -> (j: Json)
        ensures
            j@ == chat_body(self.model@, system@, user@),
    {
        let messages: Vec<Json> = Vec::new();
        assert(json::items_view(messages@) =~= Seq::empty());
        let messages = json::with_item(messages, message_json("system", system));
        let messages = json::with_item(messages, message_json("user", user));
        let fields: Vec<(String, Json)> = Vec::new();
        let fields = json::with_field(fields, "model", json::string(self.model.as_str()));
        let fields = json::with_field(fields, "messages", Json::Array(messages));
        let fields = json::with_field(fields, "temperature", json::from_literal("0.2"));
        assert(json::items_view(messages@) =~= seq![
            chat_message("system"@, system@),
            chat_message("user"@, user@),
        ]);
        Json::Object(fields)
    }

    /// The body of an extraction request.
    pub fn build_request_body(&self, transcript: &str, prior_summary: Option<&str>) -> (j: Json)
        ensures
            j@ == chat_body(
                self.model@,
                EXTRACTION_PROMPT@,
                user_block(transcript@, text::opt_str_view(prior_summary)),
            ),
    {
        let block = extraction_user_block(transcript, prior_summary);
        self.build_chat_body(EXTRACTION_PROMPT, block.as_str())
    }
}

/// How a call over HTTP ended.
#[derive(Debug)]
pub enum HttpEvent {
    /// The request could not be sent.
    SendFailed(String),
    /// A status that is no success: its code, how it is shown, and the body.
    Refused { code: u16, shown: String, body: String },
    /// The body of a success could not be decoded.
    Undecodable(String),
    /// The decoded body of a success.
    Answered(Json),
    /// The hard time limit passed.
    TimedOut,
}

/// The hard limit on one upstream HTTP operation, in seconds.
pub const LLM_HTTP_TIMEOUT_SECS: u64 = 120;

/// A status that may pass when tried again: 5xx, 408 and 429.
pub open spec fn is_transient_status(code: u16) -> bool {
    500 <= code <= 599 || code == 408 || code == 429
}

pub fn transient_status(code: u16) -> (r: bool)
    ensures
        r == is_transient_status(code),
{
    (500 <= code && code <= 599) || code == 408 || code == 429
}

/// The string at `choices[0].message.content`.
pub open spec fn first_choice(v: JsonView) -> Option<Seq<char>> {
    match v.items_field("choices"@) {
        None => None,
        Some(choices) => if choices.len() == 0 {
            None
        } else {
            match choices[0].field("message"@) {
                None => None,
                Some(m) => m.string_field("content"@),
            }
        },
    }
}

/// What a chat call gives: the answer without its reasoning, or the error.
pub open spec fn chat_outcome(url: Seq<char>, event: HttpEvent) -> Result<
    Seq<char>,
    ExtractErrorView,
> {
    match event {
        HttpEvent::SendFailed(e) => Err(
            ExtractErrorView::HttpTransient("send "@ + url + ": "@ + e@),
        ),
        HttpEvent::Refused { code, shown, body } => {
            let message = "HTTP "@ + shown@ + ": "@ + body@;
            if is_transient_status(code) {
                Err(ExtractErrorView::HttpTransient(message))
            } else {
                Err(ExtractErrorView::HttpClient(message))
            }
        },
        HttpEvent::Undecodable(e) => Err(
            ExtractErrorView::Parse("decode response body: "@ + e@),
        ),
        HttpEvent::Answered(body) => match first_choice(body@) {
            Some(content) => Ok(unthought(content)),
            None => Err(
                ExtractErrorView::Parse(
                    "missing choices[0].message.content in response: "@ + json::rendered(body@),
                ),
            ),
        },
        HttpEvent::TimedOut => Err(
            ExtractErrorView::HttpTransient(
                "chat call timed out after "@ + text::decimal_text(LLM_HTTP_TIMEOUT_SECS as nat)
                    + "s (hard wall)"@,
            ),
        ),
    }
}

fn read_first_choice<'a>(v: &'a Json) -> (r: Option<&'a str>)
    ensures
        match r {
            Some(s) => first_choice(v@) == Some(s@),
            None => first_choice(v@) is None,
        },
{
    match v.get_array("choices") {
        None => None,
        Some(choices) => if choices.len() == 0 {
            None
        } else {
            match choices[0].get("message") {
                None => None,
                Some(m) => m.get_str("content"),
            }
        },
    }
}

/// Settles a chat call: the answer without its reasoning, or the error that
/// says whether trying again may help.
pub fn settle_chat(url: &str, event: HttpEvent) -> (r: Result<String, ExtractError>)
    ensures
        match r {
            Ok(s) => chat_outcome(url@, event) == Ok::<Seq<char>, ExtractErrorView>(s@),
            Err(e) => chat_outcome(url@, event) == Err::<Seq<char>, ExtractErrorView>(e@),
        },
{
    match event {
        HttpEvent::SendFailed(e) => Err(
            ExtractError::HttpTransient(
                "send ".to_owned().concat(url).concat(": ").concat(e.as_str()),
            ),
        ),
        HttpEvent::Refused { code, shown, body } => {
            let message = "HTTP ".to_owned().concat(shown.as_str()).concat(": ").concat(
                body.as_str(),
            );
            if transient_status(code) {
                Err(ExtractError::HttpTransient(message))
            } else {
                Err(ExtractError::HttpClient(message))
            }
        },
        HttpEvent::Undecodable(e) => Err(
            ExtractError::Parse("decode response body: ".to_owned().concat(e.as_str())),
        ),
        HttpEvent::Answered(body) => match read_first_choice(&body) {
            Some(content) => Ok(strip_think_blocks(content)),
            None => Err(
                ExtractError::Parse(
                    "missing choices[0].message.content in response: ".to_owned().concat(
                        body.to_text().as_str(),
                    ),
                ),
            ),
        },
        HttpEvent::TimedOut => Err(
            ExtractError::HttpTransient(
                "chat call timed out after ".to_owned().concat(
                    text::u64_text(LLM_HTTP_TIMEOUT_SECS).as_str(),
                ).concat("s (hard wall)"),
            ),
        ),
    }
}

// ---------------------------------------------------------------------------
// The pass over threads

/// A thread is ripe when its last growth is older than this, in milliseconds.
pub const DISTILL_IDLE_MS: i64 = 120_000;

/// More undistilled lines than this make a thread ripe though it is not idle.
pub const DISTILL_MAX_PENDING: i64 = 400;

/// The most characters of a segment's transcript that are handed out.
pub const DISTILL_MAX_TRANSCRIPT_CHARS: usize = 48_000;

/// What stands in for the head of a transcript that was cut.
pub open spec fn cut_marker() -> Seq<char> {
    "[...earlier content truncated...]\n"@
}

/// The transcript as it is handed out: whole where it fits, else the marker
/// and as much of the end as fits beside it.
pub open spec fn fitted(t: Seq<char>) -> Seq<char> {
    if t.len() <= DISTILL_MAX_TRANSCRIPT_CHARS {
        t
    } else {
        cut_marker() + t.skip(t.len() - (DISTILL_MAX_TRANSCRIPT_CHARS - cut_marker().len()))
    }
}

/// Keeps the end of a transcript that is too long.
pub fn truncate_transcript(t: &str) -> (r: String)
    ensures
        r@ == fitted(t@),
{
    let total: usize = t.unicode_len();
    if total <= DISTILL_MAX_TRANSCRIPT_CHARS {
        return t.to_owned();
    }
    let marker = "[...earlier content truncated...]\n";
    proof {
        reveal_strlit("[...earlier content truncated...]\n");
    }
    let budget: usize = DISTILL_MAX_TRANSCRIPT_CHARS - marker.unicode_len();
    marker.to_owned().concat(text::tail(t, total - budget))
}

/// What is handed out never exceeds the limit, and ends as the transcript does.
pub proof fn fitted_transcript_keeps_tail(t: Seq<char>)
    ensures
        fitted(t).len() <= DISTILL_MAX_TRANSCRIPT_CHARS,
        t.len() > DISTILL_MAX_TRANSCRIPT_CHARS ==> fitted(t).len() == DISTILL_MAX_TRANSCRIPT_CHARS,
        forall|n: int|
            0 <= n <= t.len() && n <= DISTILL_MAX_TRANSCRIPT_CHARS - cut_marker().len()
                ==> #[trigger] text::ends(fitted(t), t.skip(t.len() - n)),
{
    reveal_strlit("[...earlier content truncated...]\n");
    assert forall|n: int|
        0 <= n <= t.len() && n <= DISTILL_MAX_TRANSCRIPT_CHARS
            - cut_marker().len() implies #[trigger] text::ends(
        fitted(t),
        t.skip(t.len() - n),
    ) by {
        let f = fitted(t);
        assert(f.skip(f.len() - n) =~= t.skip(t.len() - n));
    }
}

/// What a pass did.
#[derive(Debug, Clone, Copy, PartialEq, Eq, Structural)]
pub struct DistillStats {
    pub threads_seen: u64,
    pub threads_triggered: u64,
    pub segments_processed: u64,
    pub points_written: u64,
    pub transient_errors: u64,
    pub client_errors: u64,
    pub parse_skips: u64,
}

impl Default for DistillStats {
    fn default() -> (r: DistillStats)
        ensures
            r == no_stats(),
    {
        DistillStats {
            threads_seen: 0,
            threads_triggered: 0,
            segments_processed: 0,
            points_written: 0,
            transient_errors: 0,
            client_errors: 0,
            parse_skips: 0,
        }
    }
}

/// The statistics of a pass that did nothing.
pub open spec fn no_stats() -> DistillStats {
    DistillStats {
        threads_seen: 0,
        threads_triggered: 0,
        segments_processed: 0,
        points_written: 0,
        transient_errors: 0,
        client_errors: 0,
        parse_skips: 0,
    }
}

/// A thread with undistilled lines.
#[derive(Debug, Clone)]
pub struct DistillCandidate {
    pub thread_id: String,
    pub project_hash: Option<String>,
    pub last_line_no: i64,
    pub last_distilled_line_no: i64,
    pub last_growth_ts: Option<i64>,
}

/// A thread is distilled when it has been idle long enough, or when too many of
/// its lines are waiting. One that never grew is not idle.
pub open spec fn is_ripe(cand: DistillCandidate, now_ms: int) -> bool {
    ||| cand.last_growth_ts is Some && now_ms - cand.last_growth_ts->0 > DISTILL_IDLE_MS
    ||| cand.last_line_no - cand.last_distilled_line_no > DISTILL_MAX_PENDING
}

/// Whether a thread is to be distilled now.
pub fn should_distill(cand: &DistillCandidate, now_ms: i64) -> (r: bool)
    ensures
        r == is_ripe(*cand, now_ms as int),
{
    let idle = match cand.last_growth_ts {
        Some(growth) => now_ms as i128 - growth as i128 > DISTILL_IDLE_MS as i128,
        None => false,
    };
    let pending: i128 = cand.last_line_no as i128 - cand.last_distilled_line_no as i128;
    idle || pending > DISTILL_MAX_PENDING as i128
}

/// What a pass waits for.
#[derive(Debug, Clone, Copy, PartialEq, Eq, Structural)]
pub enum DistillPhase {
    /// Nothing: the next thread is to be picked.
    Pick,
    /// The undistilled lines of the current thread.
    Lines,
    /// Nothing: the next segment of the current thread is to be taken.
    Walk,
    /// The extractor's reply on the current segment.
    Reply,
}

/// One pass over the threads with undistilled lines, in order.
#[derive(Debug)]
pub struct DistillPass {
    pub now_ms: i64,
    pub candidates: Vec<DistillCandidate>,
    /// The thread in work, or the next one to look at.
    pub thread: usize,
    /// The segments of the thread in work.
    pub segments: Vec<Segment>,
    /// The segment in work, or the next one.
    pub segment: usize,
    pub phase: DistillPhase,
    pub stats: DistillStats,
}

/// What is to be done next.
#[derive(Debug)]
pub enum DistillAction {
    /// Read the thread's lines after `after`, up to `up_to`, and hand them to
    /// `on_lines`.
    ReadLines { thread_id: String, after: i64, up_to: i64 },
    /// Ask the extractor, and hand its reply to `on_reply`.
    Extract { transcript: String, prior_summary: Option<String> },
    /// Move the thread's distilled cursor to this line.
    Advance { thread_id: String, line_no: i64 },
    /// Store the points and move the cursor, both or neither.
    Write {
        thread_id: String,
        project_hash: Option<String>,
        points: Vec<KnowledgePoint>,
        line_no: i64,
    },
    /// Leave the thread with its cursor where it is.
    Leave,
    /// The pass is over.
    Done,
}

#[verifier::ext_equal]
pub ghost enum ActionView {
    ReadLines { thread_id: Seq<char>, after: i64, up_to: i64 },
    Extract { transcript: Seq<char>, prior_summary: Option<Seq<char>> },
    Advance { thread_id: Seq<char>, line_no: i64 },
    Write {
        thread_id: Seq<char>,
        project_hash: Option<Seq<char>>,
        points: Seq<PointView>,
        line_no: i64,
    },
    Leave,
    Done,
}

impl View for DistillAction {
    type V = ActionView;

    open spec fn view(&self) -> ActionView {
        match *self {
            DistillAction::ReadLines { thread_id, after, up_to } => ActionView::ReadLines {
                thread_id: thread_id@,
                after,
                up_to,
            },
            DistillAction::Extract { transcript, prior_summary } => ActionView::Extract {
                transcript: transcript@,
                prior_summary: text::opt_view(prior_summary),
            },
            DistillAction::Advance { thread_id, line_no } => ActionView::Advance {
                thread_id: thread_id@,
                line_no,
            },
            DistillAction::Write { thread_id, project_hash, points, line_no } => ActionView::Write {
                thread_id: thread_id@,
                project_hash: text::opt_view(project_hash),
                points: point_views(points@),
                line_no,
            },
            DistillAction::Leave => ActionView::Leave,
            DistillAction::Done => ActionView::Done,
        }
    }
}

/// Where a pass stands: what changes from step to step.
#[verifier::ext_equal]
pub ghost struct PassView {
    pub thread: int,
    pub segments: Seq<SegmentView>,
    pub segment: int,
    pub phase: DistillPhase,
    pub stats: DistillStats,
}

impl View for DistillPass {
    type V = PassView;

    open spec fn view(&self) -> PassView {
        PassView {
            thread: self.thread as int,
            segments: render::segment_views(self.segments@),
            segment: self.segment as int,
            phase: self.phase,
            stats: self.stats,
        }
    }
}

/// The first thread at or after `from` that is ripe; the number of threads
/// where none is.
pub open spec fn next_ripe(cands: Seq<DistillCandidate>, from: int, now_ms: int) -> int
    decreases cands.len() - from,
{
    if from >= cands.len() {
        cands.len() as int
    } else if is_ripe(cands[from], now_ms) {
        from
    } else {
        next_ripe(cands, from + 1, now_ms)
    }
}

/// Picking the next ripe thread at or after `from`.
pub open spec fn picked(
    p: PassView,
    cands: Seq<DistillCandidate>,
    from: int,
    now_ms: int,
) -> (PassView, ActionView) {
    let t = next_ripe(cands, from, now_ms);
    if t == cands.len() {
        (PassView { thread: t, phase: DistillPhase::Pick, ..p }, ActionView::Done)
    } else {
        (
            PassView {
                thread: t,
                phase: DistillPhase::Lines,
                stats: DistillStats {
                    threads_triggered: (p.stats.threads_triggered + 1) as u64,
                    ..p.stats
                },
                ..p
            },
            ActionView::ReadLines {
                thread_id: cands[t].thread_id@,
                after: cands[t].last_distilled_line_no,
                up_to: cands[t].last_line_no,
            },
        )
    }
}

/// One step of a pass that waits for nothing. A segment whose transcript is
/// blank is passed over without asking the extractor.
pub open spec fn stepped(p: PassView, cands: Seq<DistillCandidate>, now_ms: int) -> (
    PassView,
    ActionView,
) {
    if p.phase == DistillPhase::Pick {
        picked(p, cands, p.thread, now_ms)
    } else if p.segment == p.segments.len() {
        picked(p, cands, p.thread + 1, now_ms)
    } else {
        let segment = p.segments[p.segment];
        let transcript = fitted(segment.transcript);
        let stats = DistillStats {
            segments_processed: (p.stats.segments_processed + 1) as u64,
            ..p.stats
        };
        if render::is_blank(transcript) {
            (
                PassView { segment: p.segment + 1, stats, ..p },
                ActionView::Advance {
                    thread_id: cands[p.thread].thread_id@,
                    line_no: segment.end_line_no,
                },
            )
        } else {
            (
                PassView { phase: DistillPhase::Reply, stats, ..p },
                ActionView::Extract { transcript, prior_summary: segment.prior_summary },
            )
        }
    }
}

/// A pass after the lines of the current thread came in. A thread without any
/// is left; a later pass finds it again.
pub open spec fn lined(p: PassView, segments: Seq<SegmentView>) -> PassView {
    if segments.len() == 0 {
        PassView { thread: p.thread + 1, phase: DistillPhase::Pick, ..p }
    } else {
        PassView { segments, segment: 0, phase: DistillPhase::Walk, ..p }
    }
}

/// What the extractor said of a segment.
#[verifier::ext_equal]
pub ghost enum ReplyView {
    Points(Seq<PointView>),
    Failed(ExtractErrorView),
}

pub open spec fn reply_view(r: Result<Vec<KnowledgePoint>, ExtractError>) -> ReplyView {
    match r {
        Ok(points) => ReplyView::Points(point_views(points@)),
        Err(e) => ReplyView::Failed(e@),
    }
}

/// A pass after the extractor's reply on the current segment. Points are stored
/// and the cursor moves past the segment. A reply that makes no sense moves the
/// cursor too, so that the segment is not tried for ever. After any other error
/// the thread is left with its cursor where it is.
pub open spec fn replied(p: PassView, cand: DistillCandidate, reply: ReplyView) -> (
    PassView,
    ActionView,
) {
    let line_no = p.segments[p.segment].end_line_no;
    match reply {
        ReplyView::Points(points) => (
            PassView {
                segment: p.segment + 1,
                phase: DistillPhase::Walk,
                stats: DistillStats {
                    points_written: (p.stats.points_written + points.len()) as u64,
                    ..p.stats
                },
                ..p
            },
            ActionView::Write {
                thread_id: cand.thread_id@,
                project_hash: text::opt_view(cand.project_hash),
                points,
                line_no,
            },
        ),
        ReplyView::Failed(e) => match e {
            ExtractErrorView::Parse(_) => (
                PassView {
                    segment: p.segment + 1,
                    phase: DistillPhase::Walk,
                    stats: DistillStats {
                        parse_skips: (p.stats.parse_skips + 1) as u64,
                        ..p.stats
                    },
                    ..p
                },
                ActionView::Advance { thread_id: cand.thread_id@, line_no },
            ),
            ExtractErrorView::HttpTransient(_) => (
                PassView {
                    thread: p.thread + 1,
                    phase: DistillPhase::Pick,
                    stats: DistillStats {
                        transient_errors: (p.stats.transient_errors + 1) as u64,
                        ..p.stats
                    },
                    ..p
                },
                ActionView::Leave,
            ),
            _ => (
                PassView {
                    thread: p.thread + 1,
                    phase: DistillPhase::Pick,
                    stats: DistillStats {
                        client_errors: (p.stats.client_errors + 1) as u64,
                        ..p.stats
                    },
                    ..p
                },
                ActionView::Leave,
            ),
        },
    }
}

impl DistillPass {
    /// The positions lie within what they index.
    pub open spec fn wf(self) -> bool {
        &&& self.thread <= self.candidates.len()
        &&& self.segment <= self.segments.len()
        &&& self.phase != DistillPhase::Pick ==> self.thread < self.candidates.len()
        &&& self.phase == DistillPhase::Reply ==> self.segment < self.segments.len()
    }

    /// The counters have room for one more of each.
    pub open spec fn has_room(self) -> bool {
        &&& self.stats.threads_triggered < u64::MAX
        &&& self.stats.segments_processed < u64::MAX
        &&& self.stats.transient_errors < u64::MAX
        &&& self.stats.client_errors < u64::MAX
        &&& self.stats.parse_skips < u64::MAX
    }

    /// The same pass at another point.
    pub open spec fn same_pass(self, other: DistillPass) -> bool {
        self.now_ms == other.now_ms && self.candidates@ == other.candidates@
    }

    /// A pass over these threads.
    pub fn start(candidates: Vec<DistillCandidate>, now_ms: i64) -> (r: DistillPass)
        ensures
            r.wf(),
            r.has_room(),
            r.now_ms == now_ms,
            r.candidates@ == candidates@,
            r@ == (PassView {
                thread: 0,
                segments: Seq::empty(),
                segment: 0,
                phase: DistillPhase::Pick,
                stats: DistillStats { threads_seen: candidates@.len() as u64, ..no_stats() },
            }),
    {
        let n: u64 = candidates.len() as u64;
        let mut stats = DistillStats::default();
        stats.threads_seen = n;
        let pass = DistillPass {
            now_ms,
            candidates,
            thread: 0,
            segments: Vec::new(),
            segment: 0,
            phase: DistillPhase::Pick,
            stats,
        };
        assert(pass@.segments =~= Seq::empty());
        pass
    }

    fn pick(&mut self, from: usize) -> (a: DistillAction)
        requires
            old(self).wf(),
            old(self).has_room(),
            from <= old(self).candidates@.len(),
        ensures
            final(self).wf(),
            final(self).same_pass(*old(self)),
            (final(self)@, a@) == picked(
                old(self)@,
                old(self).candidates@,
                from as int,
                old(self).now_ms as int,
            ),
    {
        let mut t: usize = from;
        while t < self.candidates.len() && !should_distill(&self.candidates[t], self.now_ms)
            invariant
                *self == *old(self),
                from <= t <= self.candidates@.len(),
                next_ripe(self.candidates@, from as int, self.now_ms as int) == next_ripe(
                    self.candidates@,
                    t as int,
                    self.now_ms as int,
                ),
            decreases self.candidates@.len() - t,
        {
            t += 1;
        }
        self.thread = t;
        if t == self.candidates.len() {
            self.phase = DistillPhase::Pick;
            return DistillAction::Done;
        }
        self.phase = DistillPhase::Lines;
        self.stats.threads_triggered = self.stats.threads_triggered + 1;
        let cand = &self.candidates[t];
        DistillAction::ReadLines {
            thread_id: cand.thread_id.clone(),
            after: cand.last_distilled_line_no,
            up_to: cand.last_line_no,
        }
    }

    /// The next thing to do, while nothing is awaited.
    pub fn step(&mut self) -> (a: DistillAction)
        requires
            old(self).wf(),
            old(self).has_room(),
            old(self).phase == DistillPhase::Pick || old(self).phase == DistillPhase::Walk,
        ensures
            final(self).wf(),
            final(self).same_pass(*old(self)),
            (final(self)@, a@) == stepped(
                old(self)@,
                old(self).candidates@,
                old(self).now_ms as int,
            ),
    {
        if self.phase == DistillPhase::Pick {
            let from: usize = self.thread;
            return self.pick(from);
        }
        if self.segment == self.segments.len() {
            let from: usize = self.thread + 1;
            return self.pick(from);
        }
        self.stats.segments_processed = self.stats.segments_processed + 1;
        let segment = &self.segments[self.segment];
        assert(render::segment_views(self.segments@)[self.segment as int] == segment@);
        let transcript = truncate_transcript(segment.transcript.as_str());
        if text::trim(transcript.as_str()).is_empty() {
            let action = DistillAction::Advance {
                thread_id: self.candidates[self.thread].thread_id.clone(),
                line_no: segment.end_line_no,
            };
            self.segment = self.segment + 1;
            return action;
        }
        let prior_summary = match &segment.prior_summary {
            Some(s) => Some(s.clone()),
            None => None,
        };
        self.phase = DistillPhase::Reply;
        DistillAction::Extract { transcript, prior_summary }
    }

    /// Takes the lines of the current thread, in order.
    pub fn on_lines(&mut self, rows: &[(i64, &str)])
        requires
            old(self).wf(),
            old(self).phase == DistillPhase::Lines,
        ensures
            final(self).wf(),
            final(self).same_pass(*old(self)),
            final(self)@ == lined(
                old(self)@,
                render::segments_of(render::text_lines(rows@), None),
            ),
    {
        let segments = render::segment_thread(rows);
        proof {
            render::segments_span_thread(render::text_lines(rows@), None);
        }
        if segments.len() == 0 {
            self.thread = self.thread + 1;
            self.phase = DistillPhase::Pick;
        } else {
            self.segments = segments;
            self.segment = 0;
            self.phase = DistillPhase::Walk;
        }
    }

    /// Takes the extractor's reply on the current segment.
    pub fn on_reply(&mut self, reply: Result<Vec<KnowledgePoint>, ExtractError>) -> (a:
        DistillAction)
        requires
            old(self).wf(),
            old(self).has_room(),
            old(self).phase == DistillPhase::Reply,
            reply matches Ok(points) ==> old(self).stats.points_written + points@.len() <= u64::MAX,
        ensures
            final(self).wf(),
            final(self).same_pass(*old(self)),
            (final(self)@, a@) == replied(
                old(self)@,
                old(self).candidates@[old(self).thread as int],
                reply_view(reply),
            ),
    {
        let cand = &self.candidates[self.thread];
        let line_no: i64 = self.segments[self.segment].end_line_no;
        assert(render::segment_views(self.segments@)[self.segment as int]
            == self.segments@[self.segment as int]@);
        let thread_id = cand.thread_id.clone();
        match reply {
            Ok(points) => {
                let project_hash = match &cand.project_hash {
                    Some(h) => Some(h.clone()),
                    None => None,
                };
                let n: u64 = points.len() as u64;
                self.stats.points_written = self.stats.points_written + n;
                self.segment = self.segment + 1;
                self.phase = DistillPhase::Walk;
                DistillAction::Write { thread_id, project_hash, points, line_no }
            },
            Err(ExtractError::Parse(_)) => {
                self.stats.parse_skips = self.stats.parse_skips + 1;
                self.segment = self.segment + 1;
                self.phase = DistillPhase::Walk;
                DistillAction::Advance { thread_id, line_no }
            },
            Err(ExtractError::HttpTransient(_)) => {
                self.stats.transient_errors = self.stats.transient_errors + 1;
                self.thread = self.thread + 1;
                self.phase = DistillPhase::Pick;
                DistillAction::Leave
            },
            Err(_) => {
                self.stats.client_errors = self.stats.client_errors + 1;
                self.thread = self.thread + 1;
                self.phase = DistillPhase::Pick;
                DistillAction::Leave
            },
        }
    }
}

// ---------------------------------------------------------------------------
// Laws of what is asked and answered

/// The extractor is given the whole transcript, at the end of its message, and
/// before it the whole prior summary where there is one.
pub proof fn extractor_is_given_everything(transcript: Seq<char>, prior: Seq<char>)
    ensures
        text::ends(user_block(transcript, None), transcript),
        text::ends(user_block(transcript, Some(prior)), transcript),
        text::has(user_block(transcript, Some(prior)), prior),
        text::ends(user_block(transcript, Some(prior)), user_block(transcript, None)),
        user_block(transcript, None).len() == 13 + transcript.len(),
{
    reveal_strlit("[TRANSCRIPT]\n");
    let block = user_block(transcript, Some(prior));
    let plain = user_block(transcript, None);
    let head = "[PRIOR CONTEXT SUMMARY]\n"@;
    assert(plain =~= "[TRANSCRIPT]\n"@ + transcript);
    text::parts_stand_in_the_whole("[TRANSCRIPT]\n"@, transcript, Seq::empty());
    assert(block =~= head + prior + ("\n\n"@ + plain));
    text::parts_stand_in_the_whole(head, prior, "\n\n"@ + plain);
    assert(block =~= (head + prior + "\n\n"@) + plain);
    text::parts_stand_in_the_whole(head + prior + "\n\n"@, plain, Seq::empty());
    let front = head + prior + "\n\n"@ + "[TRANSCRIPT]\n"@;
    assert(block =~= front + transcript);
    text::parts_stand_in_the_whole(front, transcript, Seq::empty());
}

/// A chat request names the model and holds two messages, the system's before
/// the user's, each with its content as given.
pub proof fn chat_request_holds_both_messages(model: Seq<char>, system: Seq<char>, user: Seq<char>)
    ensures
        ({
            let body = chat_body(model, system, user);
            let messages = body.items_field("messages"@)->0;
            &&& body.string_field("model"@) == Some(model)
            &&& body.field("temperature"@) == Some(json::literal("0.2"@))
            &&& body.items_field("messages"@) is Some
            &&& messages.len() == 2
            &&& messages[0].string_field("role"@) == Some("system"@)
            &&& messages[0].string_field("content"@) == Some(system)
            &&& messages[1].string_field("role"@) == Some("user"@)
            &&& messages[1].string_field("content"@) == Some(user)
        }),
{
    reveal_strlit("model");
    reveal_strlit("messages");
    reveal_strlit("temperature");
    reveal_strlit("role");
    reveal_strlit("content");
    let messages = seq![chat_message("system"@, system), chat_message("user"@, user)];
    let body = chat_body(model, system, user);
    assert("model"@.len() == 5 && "messages"@.len() == 8 && "temperature"@.len() == 11);
    assert("role"@.len() == 4 && "content"@.len() == 7);
    assert(body.field("messages"@) == Some(JsonView::Array(messages)));
    assert(body.field("model"@) == Some(JsonView::Str(model)));
    assert(messages[0].field("role"@) == Some(JsonView::Str("system"@)));
    assert(messages[1].field("role"@) == Some(JsonView::Str("user"@)));
}

/// A chat call that ends without an answer fails so that the caller knows whether
/// to try again: failed sends, time-outs and the statuses 408, 429 and 5xx may
/// pass, any other status will not, and an answer without content makes no sense.
/// An answer with content is given without its reasoning.
pub proof fn chat_failures_are_told_apart(url: Seq<char>, event: HttpEvent)
    ensures
        match event {
            HttpEvent::SendFailed(_) => chat_outcome(url, event) is Err && chat_outcome(
                url,
                event,
            )->Err_0 is HttpTransient,
            HttpEvent::TimedOut => chat_outcome(url, event) is Err && chat_outcome(
                url,
                event,
            )->Err_0 is HttpTransient,
            HttpEvent::Refused { code, .. } => {
                let retry = code == 408 || code == 429 || 500 <= code <= 599;
                &&& chat_outcome(url, event) is Err
                &&& retry ==> chat_outcome(url, event)->Err_0 is HttpTransient
                &&& !retry ==> chat_outcome(url, event)->Err_0 is HttpClient
            },
            HttpEvent::Undecodable(_) => chat_outcome(url, event) is Err && chat_outcome(
                url,
                event,
            )->Err_0 is Parse,
            HttpEvent::Answered(body) => match first_choice(body@) {
                Some(content) => chat_outcome(url, event) == Ok::<Seq<char>, ExtractErrorView>(
                    unthought(content),
                ),
                None => chat_outcome(url, event) is Err && chat_outcome(url, event)->Err_0 is Parse,
            },
        },
{
}

/// An error says what went wrong in full: its message ends with it.
pub proof fn errors_say_what_happened(what: Seq<char>)
    ensures
        text::ends(ExtractErrorView::Config(what).message(), what),
        text::ends(ExtractErrorView::HttpTransient(what).message(), what),
        text::ends(ExtractErrorView::HttpClient(what).message(), what),
        text::ends(ExtractErrorView::Parse(what).message(), what),
{
    text::parts_stand_in_the_whole("distill config error: "@, what, Seq::empty());
    text::parts_stand_in_the_whole("distill http transient: "@, what, Seq::empty());
    text::parts_stand_in_the_whole("distill http client error: "@, what, Seq::empty());
    text::parts_stand_in_the_whole("distill parse error: "@, what, Seq::empty());
}

/// A refusal is reported with its status and its whole body, a failed send with
/// where it went and why.
pub proof fn refusals_are_reported_whole(url: Seq<char>, event: HttpEvent)
    ensures
        event matches HttpEvent::Refused { shown, body, .. } ==> {
            let e = chat_outcome(url, event)->Err_0;
            let m = if e is HttpTransient {
                e->HttpTransient_0
            } else {
                e->HttpClient_0
            };
            text::ends(m, body@) && text::has(m, shown@)
        },
        event matches HttpEvent::SendFailed(why) ==> {
            let m = chat_outcome(url, event)->Err_0->HttpTransient_0;
            text::ends(m, why@) && text::has(m, url)
        },
{
    if let HttpEvent::Refused { shown, body, .. } = event {
        let m = "HTTP "@ + shown@ + ": "@ + body@;
        text::parts_stand_in_the_whole("HTTP "@ + shown@ + ": "@, body@, Seq::empty());
        assert(m =~= "HTTP "@ + shown@ + (": "@ + body@));
        text::parts_stand_in_the_whole("HTTP "@, shown@, ": "@ + body@);
    }
    if let HttpEvent::SendFailed(why) = event {
        let m = "send "@ + url + ": "@ + why@;
        text::parts_stand_in_the_whole("send "@ + url + ": "@, why@, Seq::empty());
        assert(m =~= "send "@ + url + (": "@ + why@));
        text::parts_stand_in_the_whole("send "@, url, ": "@ + why@);
    }
}

/// The environment gives an endpoint exactly where all three variables say
/// something, and each is taken as it is.
pub proof fn environment_is_taken_as_it_is(
    base_url: Seq<char>,
    model: Seq<char>,
    api_key: Seq<char>,
)
    ensures
        env_endpoint(Some(base_url), Some(model), Some(api_key)) == (if text::is_white(base_url)
            || text::is_white(model) || text::is_white(api_key) {
            None
        } else {
            Some(EndpointView { base_url, model, api_key })
        }),
        env_endpoint(None, Some(model), Some(api_key)) is None,
        env_endpoint(Some(base_url), None, Some(api_key)) is None,
        env_endpoint(Some(base_url), Some(model), None) is None,
{
    render::blank_is_all_white(base_url);
    render::blank_is_all_white(model);
    render::blank_is_all_white(api_key);
}

/// A credentials file gives the endpoint that its three fields name, each without
/// the white space about it; one that is missing, no text or blank gives none.
pub proof fn file_names_the_endpoint(fields: Map<Seq<char>, JsonView>)
    ensures
        ({
            let says = |key: Seq<char>|
                fields.contains_key(key) && fields[key] is Str && !text::is_white(
                    fields[key]->Str_0,
                );
            let e = file_endpoint(JsonView::Object(fields));
            &&& e is Some <==> says("base_url"@) && says("model"@) && says("api_key"@)
            &&& e is Some ==> e->0.base_url == text::trimmed(fields["base_url"@]->Str_0)
                && e->0.model == text::trimmed(fields["model"@]->Str_0) && e->0.api_key
                == text::trimmed(fields["api_key"@]->Str_0)
        }),
{
    render::blank_is_all_white(fields["base_url"@]->Str_0);
    render::blank_is_all_white(fields["model"@]->Str_0);
    render::blank_is_all_white(fields["api_key"@]->Str_0);
}

/// The answer is the content of the first choice's message.
pub proof fn first_choice_is_the_answer(
    fields: Map<Seq<char>, JsonView>,
    choices: Seq<JsonView>,
    choice: Map<Seq<char>, JsonView>,
    message: Map<Seq<char>, JsonView>,
    content: Seq<char>,
)
    requires
        fields.contains_key("choices"@),
        fields["choices"@] == JsonView::Array(choices),
        choices.len() > 0,
        choices[0] == JsonView::Object(choice),
        choice.contains_key("message"@),
        choice["message"@] == JsonView::Object(message),
        message.contains_key("content"@),
        message["content"@] == JsonView::Str(content),
    ensures
        first_choice(JsonView::Object(fields)) == Some(content),
{
}

/// A transcript that fits is handed out as it is. One that does not is handed out
/// with a marker in place of its head, and behind the marker stands the end of
/// the transcript.
pub proof fn transcripts_lose_only_their_head(t: Seq<char>)
    ensures
        t.len() <= 48_000 ==> fitted(t) == t,
        t.len() > 48_000 ==> {
            let n = "[...earlier content truncated...]\n"@.len();
            &&& fitted(t).len() == 48_000
            &&& fitted(t).take(n as int) == "[...earlier content truncated...]\n"@
            &&& fitted(t).skip(n as int) == t.skip(t.len() - (48_000 - n))
        },
{
    reveal_strlit("[...earlier content truncated...]\n");
    if t.len() > 48_000 {
        let n = "[...earlier content truncated...]\n"@.len() as int;
        assert(fitted(t).take(n) =~= "[...earlier content truncated...]\n"@);
        assert(fitted(t).skip(n) =~= t.skip(t.len() - (48_000 - n)));
    }
}

/// A thread is ripe once it has been still for more than two minutes, or has more
/// than four hundred lines waiting; and a ripe thread stays ripe as time passes.
pub proof fn threads_ripen(cand: DistillCandidate, now: int, later: int)
    requires
        now <= later,
    ensures
        is_ripe(cand, now) ==> is_ripe(cand, later),
        cand.last_line_no - cand.last_distilled_line_no > 400 ==> is_ripe(cand, now),
        cand.last_growth_ts is Some && now > cand.last_growth_ts->0 + 120_000 ==> is_ripe(cand, now),
        cand.last_line_no - cand.last_distilled_line_no <= 400 && (cand.last_growth_ts is None
            || now <= cand.last_growth_ts->0 + 120_000) ==> !is_ripe(cand, now),
{
}

// ---------------------------------------------------------------------------
// Laws of the pass

/// No ripe thread is passed over: what lies between where the pass looks on and
/// the thread that it picks is not ripe, and what it picks is.
pub proof fn no_ripe_thread_is_passed_over(cands: Seq<DistillCandidate>, from: int, now_ms: int)
    requires
        0 <= from <= cands.len(),
    ensures
        ({
            let t = next_ripe(cands, from, now_ms);
            &&& from <= t <= cands.len()
            &&& t < cands.len() ==> is_ripe(cands[t], now_ms)
            &&& forall|i: int| from <= i < t ==> !is_ripe(#[trigger] cands[i], now_ms)
        }),
    decreases cands.len() - from,
{
    if from < cands.len() && !is_ripe(cands[from], now_ms) {
        no_ripe_thread_is_passed_over(cands, from + 1, now_ms);
    }
}

/// A pass begins with the next ripe thread and reads all of its lines that are
/// not yet distilled.
pub proof fn picked_thread_is_read_on(
    p: PassView,
    cands: Seq<DistillCandidate>,
    now_ms: int,
    t: int,
)
    requires
        p.phase == DistillPhase::Pick,
        0 <= p.thread <= t < cands.len(),
        is_ripe(cands[t], now_ms),
        forall|i: int| p.thread <= i < t ==> !is_ripe(#[trigger] cands[i], now_ms),
    ensures
        stepped(p, cands, now_ms).0.thread == t,
        stepped(p, cands, now_ms).1 == (ActionView::ReadLines {
            thread_id: cands[t].thread_id@,
            after: cands[t].last_distilled_line_no,
            up_to: cands[t].last_line_no,
        }),
{
    no_ripe_thread_is_passed_over(cands, p.thread, now_ms);
    let found = next_ripe(cands, p.thread, now_ms);
    if found < t {
        assert(!is_ripe(cands[found], now_ms));
    } else if found > t {
        assert(!is_ripe(cands[t], now_ms));
    }
}

/// A segment with something to say is handed to the extractor with its prior
/// summary, whole where it fits and its end where it does not; one that is blank
/// is not, and its lines are passed over.
pub proof fn segments_are_handed_out(p: PassView, cands: Seq<DistillCandidate>, now_ms: int)
    requires
        p.phase == DistillPhase::Walk,
        0 <= p.segment < p.segments.len(),
    ensures
        ({
            let said = p.segments[p.segment].transcript;
            let (q, a) = stepped(p, cands, now_ms);
            &&& q.thread == p.thread
            &&& q.segments == p.segments
            &&& said.len() <= 48_000 && !text::is_white(said) ==> a == (ActionView::Extract {
                transcript: said,
                prior_summary: p.segments[p.segment].prior_summary,
            }) && q.segment == p.segment && q.phase == DistillPhase::Reply
            &&& said.len() > 48_000 ==> {
                &&& a is Extract
                &&& a->transcript.len() == 48_000
                &&& a->transcript.skip(34) == said.skip(said.len() - 47_966)
                &&& a->Extract_prior_summary == p.segments[p.segment].prior_summary
                &&& q.segment == p.segment && q.phase == DistillPhase::Reply
            }
            &&& said.len() <= 48_000 && text::is_white(said) ==> a == (ActionView::Advance {
                thread_id: cands[p.thread].thread_id@,
                line_no: p.segments[p.segment].end_line_no,
            }) && q.segment == p.segment + 1 && q.phase == DistillPhase::Walk
        }),
{
    let said = p.segments[p.segment].transcript;
    render::blank_is_all_white(fitted(said));
    transcripts_lose_only_their_head(said);
    reveal_strlit("[...earlier content truncated...]\n");
    if said.len() > 48_000 {
        assert(fitted(said)[0] == '[');
        assert(!text::is_white_space('['));
    }
}

/// A thread whose segments are all behind the pass gives way to the next ripe one,
/// and a pass without one is done.
pub proof fn finished_threads_give_way(p: PassView, cands: Seq<DistillCandidate>, now_ms: int)
    requires
        0 <= p.thread <= cands.len(),
        p.phase == DistillPhase::Pick || p.phase == DistillPhase::Walk && p.thread < cands.len()
            && p.segment == p.segments.len(),
    ensures
        ({
            let from = if p.phase == DistillPhase::Pick {
                p.thread
            } else {
                p.thread + 1
            };
            let (q, a) = stepped(p, cands, now_ms);
            &&& a is Done <==> forall|i: int|
                from <= i < cands.len() ==> !is_ripe(#[trigger] cands[i], now_ms)
            &&& !(a is Done) ==> {
                &&& from <= q.thread < cands.len()
                &&& is_ripe(cands[q.thread], now_ms)
                &&& forall|i: int| from <= i < q.thread ==> !is_ripe(#[trigger] cands[i], now_ms)
                &&& q.phase == DistillPhase::Lines
                &&& a == ActionView::ReadLines {
                    thread_id: cands[q.thread].thread_id@,
                    after: cands[q.thread].last_distilled_line_no,
                    up_to: cands[q.thread].last_line_no,
                }
            }
        }),
{
    let from = if p.phase == DistillPhase::Pick {
        p.thread
    } else {
        p.thread + 1
    };
    no_ripe_thread_is_passed_over(cands, from, now_ms);
}

/// Each thing that happens in a pass is counted once, in its own place.
pub proof fn each_outcome_is_counted(
    p: PassView,
    cands: Seq<DistillCandidate>,
    now_ms: int,
    reply: ReplyView,
)
    requires
        p.stats.threads_triggered < u64::MAX,
        p.stats.segments_processed < u64::MAX,
        p.stats.transient_errors < u64::MAX,
        p.stats.client_errors < u64::MAX,
        p.stats.parse_skips < u64::MAX,
        reply matches ReplyView::Points(points) ==> p.stats.points_written + points.len()
            <= u64::MAX,
    ensures
        ({
            let old = p.stats;
            let (q, a) = stepped(p, cands, now_ms);
            let new = q.stats;
            &&& new.threads_triggered - old.threads_triggered == (if a is ReadLines {
                1int
            } else {
                0
            })
            &&& new.segments_processed - old.segments_processed == (if a is Extract
                || a is Advance {
                1int
            } else {
                0
            })
            &&& new.points_written == old.points_written
            &&& new.transient_errors == old.transient_errors
            &&& new.client_errors == old.client_errors
            &&& new.parse_skips == old.parse_skips
        }),
        ({
            let old = p.stats;
            let new = replied(p, cands[p.thread], reply).0.stats;
            &&& new.threads_triggered == old.threads_triggered
            &&& new.segments_processed == old.segments_processed
            &&& new.points_written - old.points_written == (match reply {
                ReplyView::Points(points) => points.len() as int,
                ReplyView::Failed(_) => 0,
            })
            &&& new.transient_errors - old.transient_errors == (match reply {
                ReplyView::Failed(ExtractErrorView::HttpTransient(_)) => 1int,
                _ => 0,
            })
            &&& new.client_errors - old.client_errors == (match reply {
                ReplyView::Failed(ExtractErrorView::HttpClient(_)) => 1int,
                ReplyView::Failed(ExtractErrorView::Config(_)) => 1int,
                _ => 0,
            })
            &&& new.parse_skips - old.parse_skips == (match reply {
                ReplyView::Failed(ExtractErrorView::Parse(_)) => 1int,
                _ => 0,
            })
        }),
{
}

/// All points of a reply are stored, for the thread and project that they came
/// from, together with the move of the cursor to the end of their segment.
pub proof fn all_points_are_stored(p: PassView, cand: DistillCandidate, points: Seq<PointView>)
    ensures
        ({
            let (q, a) = replied(p, cand, ReplyView::Points(points));
            &&& a == (ActionView::Write {
                thread_id: cand.thread_id@,
                project_hash: text::opt_view(cand.project_hash),
                points,
                line_no: p.segments[p.segment].end_line_no,
            })
            &&& q.segment == p.segment + 1
            &&& q.thread == p.thread
            &&& p.stats.points_written + points.len() <= u64::MAX ==> q.stats.points_written
                == p.stats.points_written + points.len()
        }),
{
}

/// The lines of a thread are walked through from the first segment.
pub proof fn threads_are_walked_from_the_start(p: PassView, segments: Seq<SegmentView>)
    ensures
        segments.len() > 0 ==> lined(p, segments).segments == segments && lined(
            p,
            segments,
        ).segment == 0 && lined(p, segments).thread == p.thread,
        segments.len() == 0 ==> lined(p, segments).thread == p.thread + 1,
{
}

/// The line that an action moves a thread's cursor to.
pub open spec fn cursor_move(a: ActionView) -> Option<i64> {
    match a {
        ActionView::Advance { line_no, .. } => Some(line_no),
        ActionView::Write { line_no, .. } => Some(line_no),
        _ => None,
    }
}

/// The cursor moves segment by segment: whatever moves it moves it to the end
/// of the segment in work, and that segment is then behind the pass.
pub proof fn cursor_moves_past_one_segment(
    p: PassView,
    cands: Seq<DistillCandidate>,
    now_ms: int,
    reply: ReplyView,
)
    requires
        0 <= p.segment <= p.segments.len(),
    ensures
        ({
            let (q, a) = stepped(p, cands, now_ms);
            cursor_move(a) is Some ==> {
                &&& cursor_move(a)->0 == p.segments[p.segment].end_line_no
                &&& q.segment == p.segment + 1
                &&& q.segments == p.segments
                &&& q.thread == p.thread
            }
        }),
        ({
            let (q, a) = replied(p, cands[p.thread], reply);
            cursor_move(a) is Some ==> {
                &&& cursor_move(a)->0 == p.segments[p.segment].end_line_no
                &&& q.segment == p.segment + 1
                &&& q.segments == p.segments
                &&& q.thread == p.thread
            }
        }),
{
}

/// A failed call, other than a reply that makes no sense, moves no cursor and
/// stores nothing: the pass goes on with the next thread, and the segment is
/// tried again in a later pass.
pub proof fn failed_call_keeps_cursor(
    p: PassView,
    cand: DistillCandidate,
    error: ExtractErrorView,
)
    requires
        !(error is Parse),
    ensures
        ({
            let (q, a) = replied(p, cand, ReplyView::Failed(error));
            &&& a == ActionView::Leave
            &&& q.thread == p.thread + 1
            &&& q.phase == DistillPhase::Pick
            &&& q.stats.points_written == p.stats.points_written
        }),
{
}

/// A reply that makes no sense is passed over: the cursor moves past its
/// segment, nothing is stored, and the thread goes on.
pub proof fn senseless_reply_is_passed_over(
    p: PassView,
    cand: DistillCandidate,
    message: Seq<char>,
)
    ensures
        ({
            let (q, a) = replied(p, cand, ReplyView::Failed(ExtractErrorView::Parse(message)));
            &&& a == ActionView::Advance {
                thread_id: cand.thread_id@,
                line_no: p.segments[p.segment].end_line_no,
            }
            &&& q.thread == p.thread
            &&& q.segment == p.segment + 1
            &&& q.phase == DistillPhase::Walk
            &&& q.stats.points_written == p.stats.points_written
        }),
{
}

/// How far a phase is from the end of its thread.
pub open spec fn phase_rank(phase: DistillPhase) -> int {
    match phase {
        DistillPhase::Pick => 2,
        DistillPhase::Lines => 1,
        _ => 0,
    }
}

/// `q` is nearer to the end of the pass than `p`: fewer threads are left, or
/// the thread in work is further on, or fewer of its segments are left, or the
/// current segment has been handed out.
pub open spec fn is_nearer(q: PassView, p: PassView) -> bool {
    ||| q.thread > p.thread
    ||| q.thread == p.thread && phase_rank(q.phase) < phase_rank(p.phase)
    ||| q.thread == p.thread && phase_rank(q.phase) == phase_rank(p.phase) && q.segments
        == p.segments && q.segment > p.segment
    ||| q.thread == p.thread && phase_rank(q.phase) == phase_rank(p.phase) && q.segments
        == p.segments && q.segment == p.segment && q.phase == DistillPhase::Reply && p.phase
        == DistillPhase::Walk
}

proof fn next_ripe_bounds(cands: Seq<DistillCandidate>, from: int, now_ms: int)
    requires
        0 <= from <= cands.len(),
    ensures
        from <= next_ripe(cands, from, now_ms) <= cands.len(),
    decreases cands.len() - from,
{
    if from < cands.len() && !is_ripe(cands[from], now_ms) {
        next_ripe_bounds(cands, from + 1, now_ms);
    }
}

/// Every step of a pass brings it nearer to its end, whatever the store and
/// the extractor answer.
pub proof fn pass_makes_progress(
    p: PassView,
    cands: Seq<DistillCandidate>,
    now_ms: int,
    segments: Seq<SegmentView>,
    reply: ReplyView,
)
    requires
        0 <= p.thread <= cands.len(),
        p.phase != DistillPhase::Pick ==> p.thread < cands.len(),
        0 <= p.segment <= p.segments.len(),
    ensures
        (p.phase == DistillPhase::Pick || p.phase == DistillPhase::Walk) && !(stepped(
            p,
            cands,
            now_ms,
        ).1 is Done) ==> is_nearer(stepped(p, cands, now_ms).0, p),
        p.phase == DistillPhase::Lines ==> is_nearer(lined(p, segments), p),
        p.phase == DistillPhase::Reply ==> is_nearer(replied(p, cands[p.thread], reply).0, p),
{
    next_ripe_bounds(cands, p.thread, now_ms);
    if p.thread < cands.len() {
        next_ripe_bounds(cands, p.thread + 1, now_ms);
    }
}

} // verus!
