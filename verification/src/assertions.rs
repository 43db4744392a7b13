//! Assertions over a captured turn: loose structural checks of what an agent
//! said and which tools it called.
use crate::json;
use crate::json::Json;
use crate::json::JsonView;
use crate::render;
use crate::text;
use vstd::prelude::*;
use vstd::string::*;

verus! {

/// What a turn came to.
#[derive(Debug)]
pub struct TurnResult {
    /// The agent's final text.
    pub final_text: String,
    /// Every notification of the turn: method and parameters, in order.
    pub notifications: Vec<(String, Json)>,
}

#[verifier::ext_equal]
pub ghost struct TurnView {
    pub final_text: Seq<char>,
    pub notifications: Seq<(Seq<char>, JsonView)>,
}

/// Methods and parameters as they are meant.
pub open spec fn notification_views(n: Seq<(String, Json)>) -> Seq<(Seq<char>, JsonView)> {
    n.map_values(|x: (String, Json)| (x.0@, x.1@))
}

impl View for TurnResult {
    type V = TurnView;

    open spec fn view(&self) -> TurnView {
        TurnView {
            final_text: self.final_text@,
            notifications: notification_views(self.notifications@),
        }
    }
}

/// Where a run left its files.
#[derive(Debug, Clone)]
pub struct RunArtifacts {
    pub tempdir: String,
    pub home_dir: String,
    pub user_data_dir: String,
    pub agent_id: String,
}

/// A path with one more component, by the rules of Unix: an absolute one
/// replaces what is before it.
pub open spec fn joined_path(base: Seq<char>, part: Seq<char>) -> Seq<char> {
    if text::begins(part, "/"@) {
        part
    } else if base.len() == 0 || text::ends(base, "/"@) {
        base + part
    } else {
        base + "/"@ + part
    }
}

/// Joins a component to a path.
pub fn join_path(base: &str, part: &str) -> (r: String)
    ensures
        r@ == joined_path(base@, part@),
{
    if text::starts_with(part, "/") {
        part.to_owned()
    } else if base.is_empty() || text::ends_with(base, "/") {
        base.to_owned().concat(part)
    } else {
        base.to_owned().concat("/").concat(part)
    }
}

impl RunArtifacts {
    /// The agent's log store.
    pub fn memory_db_path(&self) -> (r: String)
        ensures
            r@ == joined_path(
                joined_path(joined_path(self.user_data_dir@, "agents"@), self.agent_id@),
                "memory.db"@,
            ),
    {
        let agents = join_path(self.user_data_dir.as_str(), "agents");
        let agent = join_path(agents.as_str(), self.agent_id.as_str());
        join_path(agent.as_str(), "memory.db")
    }
}

/// Whether a turn passed, and why.
#[derive(Debug)]
pub struct AssertionOutcome {
    pub passed: bool,
    pub notes: String,
}

#[verifier::ext_equal]
pub ghost struct OutcomeView {
    pub passed: bool,
    pub notes: Seq<char>,
}

impl View for AssertionOutcome {
    type V = OutcomeView;

    open spec fn view(&self) -> OutcomeView {
        OutcomeView { passed: self.passed, notes: self.notes@ }
    }
}

pub open spec fn passed(notes: Seq<char>) -> OutcomeView {
    OutcomeView { passed: true, notes }
}

pub open spec fn failed(notes: Seq<char>) -> OutcomeView {
    OutcomeView { passed: false, notes }
}

impl AssertionOutcome {
    fn pass(notes: String) -> (r: AssertionOutcome)
        ensures
            r@ == passed(notes@),
    {
        AssertionOutcome { passed: true, notes }
    }

    fn fail(notes: String) -> (r: AssertionOutcome)
        ensures
            r@ == failed(notes@),
    {
        AssertionOutcome { passed: false, notes }
    }
}

// ---------------------------------------------------------------------------
// Scanning the text

/// The insides of the blocks between `open` and `close`, in order. Scanning
/// stops at a block that is not closed.
pub open spec fn blocks(s: Seq<char>, open: Seq<char>, close: Seq<char>) -> Seq<Seq<char>>
    decreases s.len(),
    via blocks_decreases
{
    if open.len() == 0 {
        Seq::empty()
    } else {
        match text::first_at(s, open) {
            None => Seq::empty(),
            Some(i) => {
                let after = s.skip(i + open.len());
                match text::first_at(after, close) {
                    None => Seq::empty(),
                    Some(k) => seq![after.take(k)] + blocks(
                        after.skip(k + close.len()),
                        open,
                        close,
                    ),
                }
            },
        }
    }
}

#[via_fn]
proof fn blocks_decreases(s: Seq<char>, open: Seq<char>, close: Seq<char>) {
    text::first_from_is_first(s, open, 0);
    if let Some(i) = text::first_at(s, open) {
        text::first_from_is_first(s.skip(i + open.len()), close, 0);
    }
}

/// The insides of the blocks whose opening tag begins with `open` and ends at
/// the next `>`.
pub open spec fn tagged_blocks(s: Seq<char>, open: Seq<char>, close: Seq<char>) -> Seq<Seq<char>>
    decreases s.len(),
    via tagged_blocks_decreases
{
    if open.len() == 0 {
        Seq::empty()
    } else {
        match text::first_at(s, open) {
            None => Seq::empty(),
            Some(i) => {
                let after = s.skip(i + open.len());
                match text::first_at(after, ">"@) {
                    None => Seq::empty(),
                    Some(j) => {
                        let inner = after.skip(j + ">"@.len());
                        match text::first_at(inner, close) {
                            None => Seq::empty(),
                            Some(k) => seq![inner.take(k)] + tagged_blocks(
                                inner.skip(k + close.len()),
                                open,
                                close,
                            ),
                        }
                    },
                }
            },
        }
    }
}

#[via_fn]
proof fn tagged_blocks_decreases(s: Seq<char>, open: Seq<char>, close: Seq<char>) {
    text::first_from_is_first(s, open, 0);
    if let Some(i) = text::first_at(s, open) {
        let after = s.skip(i + open.len());
        text::first_from_is_first(after, ">"@, 0);
        if let Some(j) = text::first_at(after, ">"@) {
            text::first_from_is_first(after.skip(j + ">"@.len()), close, 0);
        }
    }
}

fn scan_blocks(s: &str, open: &str, close: &str) -> (r: Vec<String>)
    requires
        open@.len() > 0,
    ensures
        text::views(r@) == blocks(s@, open@, close@),
{
    let mut out: Vec<String> = Vec::new();
    let mut rest: &str = s;
    let open_len: usize = open.unicode_len();
    let close_len: usize = close.unicode_len();
    assert(text::views(out@) + blocks(rest@, open@, close@) =~= blocks(s@, open@, close@));
    loop
        invariant
            open@.len() > 0,
            open_len == open@.len(),
            close_len == close@.len(),
            text::views(out@) + blocks(rest@, open@, close@) == blocks(s@, open@, close@),
        decreases rest@.len(),
    {
        let at: usize = match text::find(rest, open) {
            Some(i) => i,
            None => {
                assert(text::views(out@) =~= blocks(s@, open@, close@));
                return out;
            },
        };
        let after = text::tail(rest, at + open_len);
        let end: usize = match text::find(after, close) {
            Some(i) => i,
            None => {
                assert(text::views(out@) =~= blocks(s@, open@, close@));
                return out;
            },
        };
        let ghost before = text::views(out@);
        let block = text::head(after, end).to_owned();
        out.push(block);
        let next = text::tail(after, end + close_len);
        assert(text::views(out@) =~= before.push(block@));
        assert(text::views(out@) + blocks(next@, open@, close@) =~= before + blocks(
            rest@,
            open@,
            close@,
        ));
        rest = next;
    }
}

/// The bodies of the `<propose_plan>` blocks.
pub fn scan_propose_plan_blocks(s: &str) -> (r: Vec<String>)
    ensures
        text::views(r@) == plan_blocks(s@),
{
    proof {
        reveal_strlit("<propose_plan>");
    }
    scan_blocks(s, "<propose_plan>", "</propose_plan>")
}

/// The bodies of the `<propose_plan>` blocks.
pub open spec fn plan_blocks(s: Seq<char>) -> Seq<Seq<char>> {
    blocks(s, "<propose_plan>"@, "</propose_plan>"@)
}

/// The tasks of a plan's body: an opening `<task` with a closing `</task>`.
pub open spec fn task_count(inner: Seq<char>) -> nat {
    blocks(inner, "<task"@, "</task>"@).len()
}

/// Counts the tasks of a plan's body.
pub fn scan_task_count(inner: &str) -> (r: usize)
    ensures
        r == task_count(inner@),
{
    proof {
        reveal_strlit("<task");
    }
    let found = scan_blocks(inner, "<task", "</task>");
    assert(text::views(found@).len() == found@.len());
    found.len()
}

/// The bodies of the `<send_message …>` blocks.
pub open spec fn message_blocks(s: Seq<char>) -> Seq<Seq<char>> {
    tagged_blocks(s, "<send_message"@, "</send_message>"@)
}

/// The bodies of the `<send_message …>` blocks.
pub fn scan_send_message_blocks(s: &str) -> (r: Vec<String>)
    ensures
        text::views(r@) == message_blocks(s@),
{
    let mut out: Vec<String> = Vec::new();
    let mut rest: &str = s;
    proof {
        reveal_strlit("<send_message");
        reveal_strlit(">");
        reveal_strlit("</send_message>");
    }
    assert(text::views(out@) + message_blocks(rest@) =~= message_blocks(s@));
    loop
        invariant
            "<send_message"@.len() == 13,
            ">"@.len() == 1,
            "</send_message>"@.len() == 15,
            text::views(out@) + message_blocks(rest@) == message_blocks(s@),
        decreases rest@.len(),
    {
        let at: usize = match text::find(rest, "<send_message") {
            Some(i) => i,
            None => {
                assert(text::views(out@) =~= message_blocks(s@));
                return out;
            },
        };
        let after = text::tail(rest, at + 13);
        let tag_end: usize = match text::find(after, ">") {
            Some(i) => i,
            None => {
                assert(text::views(out@) =~= message_blocks(s@));
                return out;
            },
        };
        let inner = text::tail(after, tag_end + 1);
        let end: usize = match text::find(inner, "</send_message>") {
            Some(i) => i,
            None => {
                assert(text::views(out@) =~= message_blocks(s@));
                return out;
            },
        };
        let ghost before = text::views(out@);
        let block = text::head(inner, end).to_owned();
        out.push(block);
        let next = text::tail(inner, end + 15);
        assert(text::views(out@) =~= before.push(block@));
        assert(text::views(out@) + message_blocks(next@) =~= before + message_blocks(rest@));
        rest = next;
    }
}

/// One of the needles stands in the text, whatever the ASCII case.
pub open spec fn has_any(s: Seq<char>, needles: Seq<Seq<char>>) -> bool {
    exists|i: int|
        0 <= i < needles.len() && text::has(
            text::ascii_lowercase(s),
            text::ascii_lowercase(#[trigger] needles[i]),
        )
}

/// What the string slices hold.
pub open spec fn str_views(v: Seq<&str>) -> Seq<Seq<char>> {
    v.map_values(|s: &str| s@)
}

/// Whether one of the needles stands in the text, whatever the ASCII case.
pub fn contains_any_ci(haystack: &str, needles: &[&str]) -> (r: bool)
    ensures
        r == has_any(haystack@, str_views(needles@)),
{
    let lower = text::to_ascii_lowercase(haystack);
    let ghost all = str_views(needles@);
    let mut i: usize = 0;
    while i < needles.len()
        invariant
            i <= needles@.len(),
            all == str_views(needles@),
            lower@ == text::ascii_lowercase(haystack@),
            forall|j: int|
                0 <= j < i ==> !text::has(lower@, text::ascii_lowercase(#[trigger] all[j])),
        decreases needles@.len() - i,
    {
        assert(all[i as int] == needles@[i as int]@);
        if text::contains(lower.as_str(), text::to_ascii_lowercase(needles[i]).as_str()) {
            return true;
        }
        i += 1;
    }
    false
}

// ---------------------------------------------------------------------------
// Tool calls

/// A completed call of an MCP tool.
#[derive(Debug)]
pub struct ToolCall {
    pub server: String,
    pub tool: String,
    pub arguments: Json,
}

#[verifier::ext_equal]
pub ghost struct CallView {
    pub server: Seq<char>,
    pub tool: Seq<char>,
    pub arguments: JsonView,
}

impl View for ToolCall {
    type V = CallView;

    open spec fn view(&self) -> CallView {
        CallView { server: self.server@, tool: self.tool@, arguments: self.arguments@ }
    }
}

pub open spec fn call_views(calls: Seq<ToolCall>) -> Seq<CallView> {
    calls.map_values(|c: ToolCall| c@)
}

/// The completed call that a notification reports.
pub open spec fn call_of(method: Seq<char>, params: JsonView) -> Option<CallView> {
    if method != "item/completed"@ {
        None
    } else {
        match params.field("item"@) {
            None => None,
            Some(item) => if item.string_field("type"@) == Some("mcpToolCall"@) {
                Some(
                    CallView {
                        server: render::string_or_empty(item, "server"@),
                        tool: render::string_or_empty(item, "tool"@),
                        arguments: match item.field("arguments"@) {
                            Some(a) => a,
                            None => JsonView::Null,
                        },
                    },
                )
            } else {
                None
            },
        }
    }
}

/// The completed calls that the notifications report, in order.
pub open spec fn calls_in(n: Seq<(Seq<char>, JsonView)>) -> Seq<CallView>
    decreases n.len(),
{
    if n.len() == 0 {
        Seq::empty()
    } else {
        let before = calls_in(n.drop_last());
        match call_of(n.last().0, n.last().1) {
            Some(c) => before.push(c),
            None => before,
        }
    }
}

fn field_or_empty(v: &Json, key: &str) -> (r: String)
    ensures
        r@ == render::string_or_empty(v@, key@),
{
    match v.get_str(key) {
        Some(s) => s.to_owned(),
        None => String::new(),
    }
}

fn read_call(method: &str, params: &Json) -> (r: Option<ToolCall>)
    ensures
        match r {
            Some(c) => call_of(method@, params@) == Some(c@),
            None => call_of(method@, params@) is None,
        },
{
    if !text::same(method, "item/completed") {
        return None;
    }
    let item = match params.get("item") {
        Some(i) => i,
        None => return None,
    };
    match item.get_str("type") {
        Some(t) => {
            if !text::same(t, "mcpToolCall") {
                return None;
            }
        },
        None => return None,
    }
    let arguments = match item.get("arguments") {
        Some(a) => a.copy(),
        None => Json::Null,
    };
    Some(
        ToolCall {
            server: field_or_empty(item, "server"),
            tool: field_or_empty(item, "tool"),
            arguments,
        },
    )
}

/// The completed MCP tool calls among the notifications, in order.
pub fn scan_mcp_tool_calls(notifs: &Vec<(String, Json)>) -> (r: Vec<ToolCall>)
    ensures
        call_views(r@) == calls_in(notification_views(notifs@)),
{
    let ghost all = notification_views(notifs@);
    let mut out: Vec<ToolCall> = Vec::new();
    let mut i: usize = 0;
    assert(all.take(0) =~= Seq::empty());
    assert(call_views(out@) =~= Seq::empty());
    while i < notifs.len()
        invariant
            i <= notifs@.len(),
            all == notification_views(notifs@),
            call_views(out@) == calls_in(all.take(i as int)),
        decreases notifs@.len() - i,
    {
        assert(all.take(i + 1).drop_last() =~= all.take(i as int));
        assert(all[i as int] == (notifs@[i as int].0@, notifs@[i as int].1@));
        if let Some(c) = read_call(notifs[i].0.as_str(), &notifs[i].1) {
            let ghost before = call_views(out@);
            out.push(c);
            assert(call_views(out@) =~= before.push(c@));
        }
        i += 1;
    }
    assert(all.take(i as int) =~= all);
    out
}

/// How many of the calls are of this tool.
pub open spec fn count_of(calls: Seq<CallView>, tool: Seq<char>) -> nat
    decreases calls.len(),
{
    if calls.len() == 0 {
        0
    } else {
        count_of(calls.drop_last(), tool) + (if calls.last().tool == tool {
            1nat
        } else {
            0nat
        })
    }
}

fn count_calls(calls: &Vec<ToolCall>, tool: &str) -> (n: usize)
    ensures
        n == count_of(call_views(calls@), tool@),
{
    let ghost all = call_views(calls@);
    let mut n: usize = 0;
    let mut i: usize = 0;
    assert(all.take(0) =~= Seq::empty());
    while i < calls.len()
        invariant
            i <= calls.len(),
            n <= i,
            all == call_views(calls@),
            n == count_of(all.take(i as int), tool@),
        decreases calls@.len() - i,
    {
        assert(all.take(i + 1).drop_last() =~= all.take(i as int));
        assert(all[i as int] == calls@[i as int]@);
        if text::same(calls[i].tool.as_str(), tool) {
            n += 1;
        }
        i += 1;
    }
    assert(all.take(i as int) =~= all);
    n
}

// ---------------------------------------------------------------------------
// Code-modifying tools

/// The notification tells of a tool being run.
pub open spec fn tells_of_tool(method: Seq<char>) -> bool {
    text::begins(method, "item/started"@) || text::begins(method, "item/completed"@)
}

/// The first code-modifying tool that the parameters name.
pub open spec fn hint_in(blob: Seq<char>) -> Option<Seq<char>> {
    if text::has(blob, "apply_patch"@) {
        Some("apply_patch"@)
    } else if text::has(blob, "edit_file"@) {
        Some("edit_file"@)
    } else if text::has(blob, "write_file"@) {
        Some("write_file"@)
    } else {
        None
    }
}

/// The code-modifying tool that a notification tells of, given the text of its
/// parameters.
pub open spec fn modifying_hint(method: Seq<char>, blob: Seq<char>) -> Option<Seq<char>> {
    if tells_of_tool(method) {
        hint_in(blob)
    } else {
        None
    }
}

/// The code-modifying tool that a notification tells of.
pub fn find_modifying_hint(method: &str, blob: &str) -> (r: Option<&'static str>)
    ensures
        match r {
            Some(h) => modifying_hint(method@, blob@) == Some(h@),
            None => modifying_hint(method@, blob@) is None,
        },
{
    if !text::starts_with(method, "item/started") && !text::starts_with(method, "item/completed") {
        return None;
    }
    if text::contains(blob, "apply_patch") {
        Some("apply_patch")
    } else if text::contains(blob, "edit_file") {
        Some("edit_file")
    } else if text::contains(blob, "write_file") {
        Some("write_file")
    } else {
        None
    }
}

/// The code-modifying calls that the notifications tell of, in order: method
/// and tool.
pub open spec fn modifying_calls(n: Seq<(Seq<char>, JsonView)>) -> Seq<(Seq<char>, Seq<char>)>
    decreases n.len(),
{
    if n.len() == 0 {
        Seq::empty()
    } else {
        let before = modifying_calls(n.drop_last());
        match modifying_hint(n.last().0, json::rendered(n.last().1)) {
            Some(h) => before.push((n.last().0, h)),
            None => before,
        }
    }
}

/// A modifying call as it is shown.
pub open spec fn shown_call(c: (Seq<char>, Seq<char>)) -> Seq<char> {
    c.0 + "("@ + c.1 + ")"@
}

pub open spec fn shown_calls(calls: Seq<(Seq<char>, Seq<char>)>) -> Seq<Seq<char>> {
    calls.map_values(|c: (Seq<char>, Seq<char>)| shown_call(c))
}

/// The modifying calls as they are shown, and the tool of the first.
fn scan_modifying_calls(notifs: &Vec<(String, Json)>) -> (r: (Vec<String>, Option<&'static str>))
    ensures
        text::views(r.0@) == shown_calls(modifying_calls(notification_views(notifs@))),
        match r.1 {
            Some(h) => modifying_calls(notification_views(notifs@)).len() > 0 && modifying_calls(
                notification_views(notifs@),
            )[0].1 == h@,
            None => modifying_calls(notification_views(notifs@)).len() == 0,
        },
{
    let ghost all = notification_views(notifs@);
    let mut out: Vec<String> = Vec::new();
    let mut first: Option<&'static str> = None;
    let mut i: usize = 0;
    assert(all.take(0) =~= Seq::empty());
    assert(text::views(out@) =~= shown_calls(Seq::empty()));
    while i < notifs.len()
        invariant
            i <= notifs@.len(),
            all == notification_views(notifs@),
            text::views(out@) == shown_calls(modifying_calls(all.take(i as int))),
            match first {
                Some(h) => modifying_calls(all.take(i as int)).len() > 0 && modifying_calls(
                    all.take(i as int),
                )[0].1 == h@,
                None => modifying_calls(all.take(i as int)).len() == 0,
            },
        decreases notifs@.len() - i,
    {
        assert(all.take(i + 1).drop_last() =~= all.take(i as int));
        assert(all[i as int] == (notifs@[i as int].0@, notifs@[i as int].1@));
        let method = notifs[i].0.as_str();
        let blob = notifs[i].1.to_text();
        if let Some(h) = find_modifying_hint(method, blob.as_str()) {
            let ghost before = modifying_calls(all.take(i as int));
            let ghost shown = text::views(out@);
            let line = method.to_owned().concat("(").concat(h).concat(")");
            out.push(line);
            if first.is_none() {
                first = Some(h);
            }
            proof {
                assert(modifying_calls(all.take(i + 1)) == before.push((method@, h@)));
                assert(text::views(out@) =~= shown.push(line@));
                assert(shown_calls(before.push((method@, h@))) =~= shown_calls(before).push(
                    shown_call((method@, h@)),
                ));
            }
        }
        i += 1;
    }
    assert(all.take(i as int) =~= all);
    (out, first)
}

/// The first `n` strings, or all where there are fewer.
fn first_few(v: &Vec<String>, n: usize) -> (r: Vec<String>)
    ensures
        text::views(r@) == text::views(v@).take(
            if n < v@.len() {
                n as int
            } else {
                v@.len() as int
            },
        ),
{
    let mut out: Vec<String> = Vec::new();
    let mut i: usize = 0;
    while i < v.len() && i < n
        invariant
            i <= v@.len(),
            i <= n,
            out@.len() == i,
            forall|j: int| 0 <= j < i ==> (#[trigger] out@[j])@ == v@[j]@,
        decreases v@.len() - i,
    {
        out.push(v[i].clone());
        i += 1;
    }
    assert(text::views(out@) =~= text::views(v@).take(i as int));
    out
}

// ---------------------------------------------------------------------------
// Text-tag assertions

/// Phrases that ask back.
pub open spec fn clarifying_words() -> Seq<Seq<char>> {
    seq![
        "could you"@,
        "can you"@,
        "to confirm"@,
        "to clarify"@,
        "would you"@,
        "what do you mean"@,
        "which "@,
        "what kind"@,
        "more detail"@,
    ]
}

/// Phrases that report what was found.
pub open spec fn finding_words() -> Seq<Seq<char>> {
    seq![
        "finding"@,
        "observed"@,
        "would check"@,
        "would verify"@,
        "i ran"@,
        "i checked"@,
        "i looked"@,
        "could not"@,
        "cannot find"@,
        "does not exist"@,
        "no such file"@,
        "report"@,
        "issue"@,
        "concern"@,
        "missing"@,
        "did not find"@,
        "not present"@,
        "blocked"@,
        "unable"@,
    ]
}

/// The tasks of all plans.
pub open spec fn total_tasks(plans: Seq<Seq<char>>) -> nat
    decreases plans.len(),
{
    if plans.len() == 0 {
        0
    } else {
        total_tasks(plans.drop_last()) + task_count(plans.last())
    }
}

fn count_tasks(plans: &Vec<String>) -> (n: u128)
    ensures
        n == total_tasks(text::views(plans@)),
{
    let ghost all = text::views(plans@);
    let mut n: u128 = 0;
    let mut i: usize = 0;
    assert(all.take(0) =~= Seq::empty());
    while i < plans.len()
        invariant
            i <= plans.len(),
            n <= i * 0xffff_ffff_ffff_ffff,
            all == text::views(plans@),
            n == total_tasks(all.take(i as int)),
        decreases plans@.len() - i,
    {
        assert(all.take(i + 1).drop_last() =~= all.take(i as int));
        assert(all[i as int] == plans@[i as int]@);
        let k: usize = scan_task_count(plans[i].as_str());
        n += k as u128;
        i += 1;
    }
    assert(all.take(i as int) =~= all);
    n
}

/// A plan was proposed, with at least one task.
pub open spec fn plan_outcome(turn: TurnView) -> OutcomeView {
    let plans = plan_blocks(turn.final_text);
    if plans.len() == 0 {
        failed(
            "no <propose_plan> block — Phase 3 regression (PM wrote prose / Markdown instead of XML)"@,
        )
    } else if total_tasks(plans) == 0 {
        failed(
            "<propose_plan> present but contains no <task> children — bare Markdown bullets would parse to an empty plan in production (plan_parser.rs)"@,
        )
    } else {
        passed(
            text::decimal_text(plans.len()) + " <propose_plan> block(s); "@ + text::decimal_text(
                total_tasks(plans),
            ) + " <task> child(ren) total"@,
        )
    }
}

/// A clear request must be answered with a plan that holds tasks.
pub fn pm_emits_well_formed_plan(turn: &TurnResult, _artifacts: &RunArtifacts) -> (r:
    AssertionOutcome)
    ensures
        r@ == plan_outcome(turn@),
{
    let plans = scan_propose_plan_blocks(turn.final_text.as_str());
    assert(text::views(plans@).len() == plans@.len());
    if plans.len() == 0 {
        return AssertionOutcome::fail(
            "no <propose_plan> block — Phase 3 regression (PM wrote prose / Markdown instead of XML)".to_owned(),
        );
    }
    let total: u128 = count_tasks(&plans);
    if total == 0 {
        return AssertionOutcome::fail(
            "<propose_plan> present but contains no <task> children — bare Markdown bullets would parse to an empty plan in production (plan_parser.rs)".to_owned(),
        );
    }
    AssertionOutcome::pass(
        text::u64_text(plans.len() as u64).concat(" <propose_plan> block(s); ").concat(
            text::u128_text(total).as_str(),
        ).concat(" <task> child(ren) total"),
    )
}

/// The text asks back.
pub open spec fn asks_back(s: Seq<char>) -> bool {
    text::has(s, "?"@) || has_any(s, clarifying_words())
}

/// The answer to an ambiguous request asks back, with or without a plan.
pub open spec fn clarify_outcome(turn: TurnView) -> OutcomeView {
    let has_plan = plan_blocks(turn.final_text).len() > 0;
    let asks = asks_back(turn.final_text);
    if !has_plan && asks {
        passed("PM asked clarifying question(s) and did not jump straight to <propose_plan>"@)
    } else if has_plan && asks {
        passed(
            "PM proposed a plan AND asked clarifying questions — acceptable per the charter (clarify alongside the block, revise after answers)"@,
        )
    } else if has_plan {
        failed(
            "PM emitted <propose_plan> for an underspecified request and asked no clarifying questions — risk of guessing wrong + delegating wrong"@,
        )
    } else {
        failed(
            "PM neither asked a question nor proposed a plan — output gave the user nothing actionable"@,
        )
    }
}

/// An ambiguous request must be answered with a question.
pub fn pm_clarifies_before_decomposing(turn: &TurnResult, _artifacts: &RunArtifacts) -> (r:
    AssertionOutcome)
    ensures
        r@ == clarify_outcome(turn@),
{
    let plans = scan_propose_plan_blocks(turn.final_text.as_str());
    assert(text::views(plans@).len() == plans@.len());
    let has_plan = plans.len() > 0;
    let words = [
        "could you",
        "can you",
        "to confirm",
        "to clarify",
        "would you",
        "what do you mean",
        "which ",
        "what kind",
        "more detail",
    ];
    assert(str_views(words@) =~= clarifying_words());
    let asks = text::contains(turn.final_text.as_str(), "?") || contains_any_ci(
        turn.final_text.as_str(),
        &words,
    );
    if !has_plan && asks {
        AssertionOutcome::pass(
            "PM asked clarifying question(s) and did not jump straight to <propose_plan>".to_owned(),
        )
    } else if has_plan && asks {
        AssertionOutcome::pass(
            "PM proposed a plan AND asked clarifying questions — acceptable per the charter (clarify alongside the block, revise after answers)".to_owned(),
        )
    } else if has_plan {
        AssertionOutcome::fail(
            "PM emitted <propose_plan> for an underspecified request and asked no clarifying questions — risk of guessing wrong + delegating wrong".to_owned(),
        )
    } else {
        AssertionOutcome::fail(
            "PM neither asked a question nor proposed a plan — output gave the user nothing actionable".to_owned(),
        )
    }
}

fn reads_as_report(s: &str) -> (r: bool)
    ensures
        r == has_any(s@, finding_words()),
{
    let words = [
        "finding",
        "observed",
        "would check",
        "would verify",
        "i ran",
        "i checked",
        "i looked",
        "could not",
        "cannot find",
        "does not exist",
        "no such file",
        "report",
        "issue",
        "concern",
        "missing",
        "did not find",
        "not present",
        "blocked",
        "unable",
    ];
    assert(str_views(words@) =~= finding_words());
    contains_any_ci(s, &words)
}

/// The first few of the calls.
pub open spec fn head_of(calls: Seq<Seq<char>>, n: int) -> Seq<Seq<char>> {
    calls.take(
        if n < calls.len() {
            n
        } else {
            calls.len() as int
        },
    )
}

/// A verifier reports in a message and modifies nothing.
pub open spec fn report_outcome(turn: TurnView) -> OutcomeView {
    let modifying = modifying_calls(turn.notifications);
    let messages = message_blocks(turn.final_text);
    if modifying.len() > 0 {
        failed(
            "QA invoked code-modifying tool(s) ["@ + text::joined(
                head_of(shown_calls(modifying), 3),
                ", "@,
            ) + "] — charter says read-only"@,
        )
    } else if messages.len() == 0 {
        failed(
            "QA reply has no <send_message> block — the only correct outbound form. `[From X]` is the inbound wrapper, not a way to send; bare prose reaches no one."@,
        )
    } else if !has_any(text::joined(messages, "\n"@), finding_words()) {
        failed(
            "QA <send_message> block does not read as a report — no finding / observation / not-found language inside the tag"@,
        )
    } else {
        passed(
            "QA reported via "@ + text::decimal_text(messages.len())
                + " <send_message> block(s) with finding-language; no modifying tools"@,
        )
    }
}

/// A verification must be reported in a `<send_message>` block, without any
/// code-modifying tool.
pub fn qa_reports_without_modifying(turn: &TurnResult, _artifacts: &RunArtifacts) -> (r:
    AssertionOutcome)
    ensures
        r@ == report_outcome(turn@),
{
    let (modifying, first) = scan_modifying_calls(&turn.notifications);
    assert(text::views(modifying@).len() == modifying@.len());
    if first.is_some() {
        let preview = first_few(&modifying, 3);
        assert(text::views(preview@) == head_of(text::views(modifying@), 3));
        return AssertionOutcome::fail(
            "QA invoked code-modifying tool(s) [".to_owned().concat(
                text::join(&preview, ", ").as_str(),
            ).concat("] — charter says read-only"),
        );
    }
    let messages = scan_send_message_blocks(turn.final_text.as_str());
    assert(text::views(messages@).len() == messages@.len());
    if messages.len() == 0 {
        return AssertionOutcome::fail(
            "QA reply has no <send_message> block — the only correct outbound form. `[From X]` is the inbound wrapper, not a way to send; bare prose reaches no one.".to_owned(),
        );
    }
    let report = text::join(&messages, "\n");
    if !reads_as_report(report.as_str()) {
        return AssertionOutcome::fail(
            "QA <send_message> block does not read as a report — no finding / observation / not-found language inside the tag".to_owned(),
        );
    }
    AssertionOutcome::pass(
        "QA reported via ".to_owned().concat(
            text::u64_text(messages.len() as u64).as_str(),
        ).concat(" <send_message> block(s) with finding-language; no modifying tools"),
    )
}

// ---------------------------------------------------------------------------
// Tool-call assertions

/// The tasks that a plan call's arguments hold.
pub open spec fn planned_tasks(arguments: JsonView) -> nat {
    match arguments.items_field("tasks"@) {
        Some(tasks) => tasks.len(),
        None => 0,
    }
}

/// The tasks that all plan calls hold.
pub open spec fn all_planned_tasks(calls: Seq<CallView>) -> nat
    decreases calls.len(),
{
    if calls.len() == 0 {
        0
    } else {
        all_planned_tasks(calls.drop_last()) + (if calls.last().tool == "propose_plan"@ {
            planned_tasks(calls.last().arguments)
        } else {
            0
        })
    }
}

fn count_planned_tasks(calls: &Vec<ToolCall>) -> (n: u128)
    ensures
        n == all_planned_tasks(call_views(calls@)),
{
    let ghost all = call_views(calls@);
    let mut n: u128 = 0;
    let mut i: usize = 0;
    assert(all.take(0) =~= Seq::empty());
    while i < calls.len()
        invariant
            i <= calls.len(),
            n <= i * 0xffff_ffff_ffff_ffff,
            all == call_views(calls@),
            n == all_planned_tasks(all.take(i as int)),
        decreases calls@.len() - i,
    {
        assert(all.take(i + 1).drop_last() =~= all.take(i as int));
        assert(all[i as int] == calls@[i as int]@);
        if text::same(calls[i].tool.as_str(), "propose_plan") {
            if let Some(tasks) = calls[i].arguments.get_array("tasks") {
                assert(json::items_view(tasks@).len() == tasks@.len());
                n += tasks.len() as u128;
            }
        }
        i += 1;
    }
    assert(all.take(i as int) =~= all);
    n
}

/// The plan tool was called, with at least one task.
pub open spec fn plan_call_outcome(turn: TurnView) -> OutcomeView {
    let calls = calls_in(turn.notifications);
    let plans = count_of(calls, "propose_plan"@);
    if plans == 0 {
        failed("no propose_plan tool call — agent answered in prose / sidestepped the tool"@)
    } else if all_planned_tasks(calls) == 0 {
        failed("propose_plan called but `tasks` array is empty — no actual plan"@)
    } else {
        passed(
            text::decimal_text(plans) + " propose_plan call(s); "@ + text::decimal_text(
                all_planned_tasks(calls),
            ) + " task(s) total"@,
        )
    }
}

/// A clear request must be answered with the plan tool.
pub fn pm_calls_propose_plan_tool(turn: &TurnResult, _artifacts: &RunArtifacts) -> (r:
    AssertionOutcome)
    ensures
        r@ == plan_call_outcome(turn@),
{
    let calls = scan_mcp_tool_calls(&turn.notifications);
    let plans: usize = count_calls(&calls, "propose_plan");
    if plans == 0 {
        return AssertionOutcome::fail(
            "no propose_plan tool call — agent answered in prose / sidestepped the tool".to_owned(),
        );
    }
    let tasks: u128 = count_planned_tasks(&calls);
    if tasks == 0 {
        return AssertionOutcome::fail(
            "propose_plan called but `tasks` array is empty — no actual plan".to_owned(),
        );
    }
    AssertionOutcome::pass(
        text::u64_text(plans as u64).concat(" propose_plan call(s); ").concat(
            text::u128_text(tasks).as_str(),
        ).concat(" task(s) total"),
    )
}

/// No plan was proposed, but something was said.
pub open spec fn no_plan_call_outcome(turn: TurnView) -> OutcomeView {
    let calls = calls_in(turn.notifications);
    let plans = count_of(calls, "propose_plan"@);
    let sends = count_of(calls, "send_message"@);
    if plans > 0 {
        failed(
            "PM called propose_plan for an ambiguous request ("@ + text::decimal_text(plans)
                + " call(s)) — should clarify first"@,
        )
    } else if sends == 0 && render::is_blank(turn.final_text) {
        failed("PM neither called send_message nor produced visible prose — empty turn"@)
    } else {
        passed(
            "PM did not call propose_plan (response: "@ + (if sends > 0 {
                text::decimal_text(sends) + " send_message call(s)"@
            } else {
                "prose only"@
            }) + ")"@,
        )
    }
}

/// An ambiguous request must not be answered with the plan tool.
pub fn pm_does_not_propose_when_ambiguous_tool(
    turn: &TurnResult,
    _artifacts: &RunArtifacts,
) -> (r: AssertionOutcome)
    ensures
        r@ == no_plan_call_outcome(turn@),
{
    let calls = scan_mcp_tool_calls(&turn.notifications);
    let plans: usize = count_calls(&calls, "propose_plan");
    if plans > 0 {
        return AssertionOutcome::fail(
            "PM called propose_plan for an ambiguous request (".to_owned().concat(
                text::u64_text(plans as u64).as_str(),
            ).concat(" call(s)) — should clarify first"),
        );
    }
    let sends: usize = count_calls(&calls, "send_message");
    if sends == 0 && text::trim(turn.final_text.as_str()).is_empty() {
        return AssertionOutcome::fail(
            "PM neither called send_message nor produced visible prose — empty turn".to_owned(),
        );
    }
    let response = if sends > 0 {
        text::u64_text(sends as u64).concat(" send_message call(s)")
    } else {
        "prose only".to_owned()
    };
    AssertionOutcome::pass(
        "PM did not call propose_plan (response: ".to_owned().concat(response.as_str()).concat(
            ")",
        ),
    )
}

/// One of the sent messages reads as a report.
pub open spec fn sends_report(calls: Seq<CallView>) -> bool {
    exists|i: int|
        0 <= i < calls.len() && (#[trigger] calls[i]).tool == "send_message"@ && has_any(
            render::string_or_empty(calls[i].arguments, "body"@),
            finding_words(),
        )
}

fn any_report_sent(calls: &Vec<ToolCall>) -> (r: bool)
    ensures
        r == sends_report(call_views(calls@)),
{
    let ghost all = call_views(calls@);
    let mut i: usize = 0;
    while i < calls.len()
        invariant
            i <= calls@.len(),
            all == call_views(calls@),
            forall|j: int|
                0 <= j < i ==> !((#[trigger] all[j]).tool == "send_message"@ && has_any(
                    render::string_or_empty(all[j].arguments, "body"@),
                    finding_words(),
                )),
        decreases calls@.len() - i,
    {
        assert(all[i as int] == calls@[i as int]@);
        if text::same(calls[i].tool.as_str(), "send_message") {
            let body = field_or_empty(&calls[i].arguments, "body");
            if reads_as_report(body.as_str()) {
                return true;
            }
        }
        i += 1;
    }
    false
}

/// A verifier sends its report with the message tool and modifies nothing.
pub open spec fn report_call_outcome(turn: TurnView) -> OutcomeView {
    let modifying = modifying_calls(turn.notifications);
    let calls = calls_in(turn.notifications);
    let sends = count_of(calls, "send_message"@);
    if modifying.len() > 0 {
        failed(
            "QA invoked code-modifying tool ("@ + modifying[0].1 + ") — charter says read-only"@,
        )
    } else if sends == 0 {
        failed(
            "QA did not call send_message — used prose or another channel; the report did not reach the recipient"@,
        )
    } else if !sends_report(calls) {
        failed("QA send_message body has no finding / observation / not-found language"@)
    } else {
        passed(
            "QA called send_message ("@ + text::decimal_text(sends)
                + " call(s)) with finding-language; no modifying tools"@,
        )
    }
}

/// A verification must be reported with the message tool, without any
/// code-modifying tool.
pub fn qa_calls_send_message_no_modifying_tool(
    turn: &TurnResult,
    _artifacts: &RunArtifacts,
) -> (r: AssertionOutcome)
    ensures
        r@ == report_call_outcome(turn@),
{
    let (_, first) = scan_modifying_calls(&turn.notifications);
    if let Some(hint) = first {
        return AssertionOutcome::fail(
            "QA invoked code-modifying tool (".to_owned().concat(hint).concat(
                ") — charter says read-only",
            ),
        );
    }
    let calls = scan_mcp_tool_calls(&turn.notifications);
    let sends: usize = count_calls(&calls, "send_message");
    if sends == 0 {
        return AssertionOutcome::fail(
            "QA did not call send_message — used prose or another channel; the report did not reach the recipient".to_owned(),
        );
    }
    if !any_report_sent(&calls) {
        return AssertionOutcome::fail(
            "QA send_message body has no finding / observation / not-found language".to_owned(),
        );
    }
    AssertionOutcome::pass(
        "QA called send_message (".to_owned().concat(text::u64_text(sends as u64).as_str()).concat(
            " call(s)) with finding-language; no modifying tools",
        ),
    )
}

// ---------------------------------------------------------------------------
// Memory assertions

/// A row of the agent's log store.
#[derive(Debug, Clone)]
pub struct MemoryRow {
    pub id: i64,
    pub summary: String,
    pub detail: Option<String>,
}

/// The final text holds the retired tag.
pub open spec fn has_retired_tag(turn: TurnView) -> bool {
    text::has(turn.final_text, "<daily_log>"@)
}

/// Whether a turn's final text holds the retired tag.
pub fn holds_retired_tag(turn: &TurnResult) -> (r: bool)
    ensures
        r == has_retired_tag(turn@),
{
    text::contains(turn.final_text.as_str(), "<daily_log>")
}

/// The summaries that the log calls gave, in order; empty where one is missing.
pub open spec fn logged_summaries(calls: Seq<CallView>) -> Seq<Seq<char>>
    decreases calls.len(),
{
    if calls.len() == 0 {
        Seq::empty()
    } else {
        let before = logged_summaries(calls.drop_last());
        if calls.last().tool == "log_progress"@ {
            before.push(render::string_or_empty(calls.last().arguments, "summary"@))
        } else {
            before
        }
    }
}

fn scan_logged_summaries(calls: &Vec<ToolCall>) -> (r: Vec<String>)
    ensures
        text::views(r@) == logged_summaries(call_views(calls@)),
{
    let ghost all = call_views(calls@);
    let mut out: Vec<String> = Vec::new();
    let mut i: usize = 0;
    assert(all.take(0) =~= Seq::empty());
    assert(text::views(out@) =~= Seq::empty());
    while i < calls.len()
        invariant
            i <= calls@.len(),
            all == call_views(calls@),
            text::views(out@) == logged_summaries(all.take(i as int)),
        decreases calls@.len() - i,
    {
        assert(all.take(i + 1).drop_last() =~= all.take(i as int));
        assert(all[i as int] == calls@[i as int]@);
        if text::same(calls[i].tool.as_str(), "log_progress") {
            let ghost before = text::views(out@);
            let summary = field_or_empty(&calls[i].arguments, "summary");
            out.push(summary);
            assert(text::views(out@) =~= before.push(summary@));
        }
        i += 1;
    }
    assert(all.take(i as int) =~= all);
    out
}

/// What is wrong with a summary, if anything.
pub open spec fn summary_fault(s: Seq<char>) -> Option<Seq<char>> {
    if s.len() == 0 {
        Some("summary missing or empty"@)
    } else if !(5 <= s.len() <= 300) {
        Some("summary length "@ + text::decimal_text(s.len()) + " outside 5..=300"@)
    } else if !text::has(s, " "@) {
        Some("summary is single-word — not a coherent sentence"@)
    } else {
        None
    }
}

/// What is wrong with the first faulty summary at or after `from`.
pub open spec fn first_fault(summaries: Seq<Seq<char>>, from: int) -> Option<Seq<char>>
    decreases summaries.len() - from,
{
    if from >= summaries.len() {
        None
    } else if summary_fault(summaries[from]) is Some {
        summary_fault(summaries[from])
    } else {
        first_fault(summaries, from + 1)
    }
}

fn find_fault(summaries: &Vec<String>) -> (r: Option<String>)
    ensures
        text::opt_view(r) == first_fault(text::views(summaries@), 0),
{
    let ghost all = text::views(summaries@);
    let mut i: usize = 0;
    while i < summaries.len()
        invariant
            i <= summaries@.len(),
            all == text::views(summaries@),
            first_fault(all, 0) == first_fault(all, i as int),
        decreases summaries@.len() - i,
    {
        let s = summaries[i].as_str();
        assert(all[i as int] == s@);
        let n: usize = s.unicode_len();
        if n == 0 {
            return Some("summary missing or empty".to_owned());
        }
        if n < 5 || n > 300 {
            return Some(
                "summary length ".to_owned().concat(text::u64_text(n as u64).as_str()).concat(
                    " outside 5..=300",
                ),
            );
        }
        if !text::contains(s, " ") {
            return Some("summary is single-word — not a coherent sentence".to_owned());
        }
        i += 1;
    }
    None
}

/// The summaries of the rows.
pub open spec fn row_summaries(rows: Seq<MemoryRow>) -> Seq<Seq<char>> {
    rows.map_values(|r: MemoryRow| r.summary@)
}

/// How many of the summaries are among the rows'.
pub open spec fn match_count(summaries: Seq<Seq<char>>, rows: Seq<Seq<char>>) -> nat
    decreases summaries.len(),
{
    if summaries.len() == 0 {
        0
    } else {
        match_count(summaries.drop_last(), rows) + (if rows.contains(summaries.last()) {
            1nat
        } else {
            0nat
        })
    }
}

fn count_matches(summaries: &Vec<String>, rows: &Vec<String>) -> (n: usize)
    ensures
        n == match_count(text::views(summaries@), text::views(rows@)),
{
    let ghost all = text::views(summaries@);
    let ghost there = text::views(rows@);
    let mut n: usize = 0;
    let mut i: usize = 0;
    assert(all.take(0) =~= Seq::empty());
    while i < summaries.len()
        invariant
            i <= summaries.len(),
            n <= i,
            all == text::views(summaries@),
            there == text::views(rows@),
            n == match_count(all.take(i as int), there),
        decreases summaries@.len() - i,
    {
        assert(all.take(i + 1).drop_last() =~= all.take(i as int));
        assert(all[i as int] == summaries@[i as int]@);
        let mut k: usize = 0;
        while k < rows.len() && !text::same(rows[k].as_str(), summaries[i].as_str())
            invariant
                i < summaries@.len(),
                k <= rows@.len(),
                all == text::views(summaries@),
                there == text::views(rows@),
                forall|j: int| 0 <= j < k ==> there[j] != summaries@[i as int]@,
            decreases rows@.len() - k,
        {
            assert(there[k as int] == rows@[k as int]@);
            k += 1;
        }
        if k < rows.len() {
            assert(there[k as int] == rows@[k as int]@);
            assert(there.contains(all[i as int]));
            n += 1;
        } else {
            assert(!there.contains(all[i as int]));
        }
        i += 1;
    }
    assert(all.take(i as int) =~= all);
    n
}

/// The decision was logged: the tool was called with well-formed summaries, and
/// at least one of them stands in the store.
pub open spec fn logging_outcome(
    turn: TurnView,
    memory_db: Seq<char>,
    rows: Result<Seq<Seq<char>>, Seq<char>>,
) -> OutcomeView {
    let summaries = logged_summaries(calls_in(turn.notifications));
    if has_retired_tag(turn) {
        failed(
            "final_text contains the dead P5 `<daily_log>` tag — must be 0 (replaced by log_progress tool in P6)"@,
        )
    } else if summaries.len() == 0 {
        failed(
            "no log_progress tool call — agent didn't record the decision for its future self"@,
        )
    } else {
        match first_fault(summaries, 0) {
            Some(reason) => failed(
                "log_progress called but summary fails the well-formed check ("@ + reason + ")"@,
            ),
            None => match rows {
                Err(e) => failed(
                    "post-run memory.db read failed ("@ + e
                        + ") — tool ack came back but row never landed (the P5 regression class)"@,
                ),
                Ok(there) => if there.len() == 0 {
                    failed(
                        "memory.db at "@ + memory_db
                            + " exists but has 0 rows — log_progress acked without writing"@,
                    )
                } else if match_count(summaries, there) == 0 {
                    failed(
                        "memory.db has "@ + text::decimal_text(there.len())
                            + " row(s) but none of their summary values match the "@
                            + text::decimal_text(summaries.len())
                            + " mcpToolCall.args.summary observed on the wire (rows="@ + text::debug_list(
                            there,
                        ) + ", observed="@ + text::debug_list(summaries) + ")"@,
                    )
                } else {
                    passed(
                        text::decimal_text(summaries.len()) + " log_progress call(s); "@
                            + text::decimal_text(there.len()) + " row(s) on disk; "@
                            + text::decimal_text(match_count(summaries, there))
                            + " summary equality match(es)"@,
                    )
                },
            },
        }
    }
}

/// The summaries of the rows, or why they could not be read.
pub open spec fn rows_view(rows: Result<Vec<MemoryRow>, String>) -> Result<
    Seq<Seq<char>>,
    Seq<char>,
> {
    match rows {
        Ok(v) => Ok(row_summaries(v@)),
        Err(e) => Err(e@),
    }
}

/// A decision that is to be remembered must be logged, and must stand in the
/// store. `rows` is what an independent read of the store gave.
pub fn pm_logs_progress_after_decision(
    turn: &TurnResult,
    artifacts: &RunArtifacts,
    rows: &Result<Vec<MemoryRow>, String>,
) -> (r: AssertionOutcome)
    ensures
        r@ == logging_outcome(
            turn@,
            joined_path(
                joined_path(joined_path(artifacts.user_data_dir@, "agents"@), artifacts.agent_id@),
                "memory.db"@,
            ),
            rows_view(*rows),
        ),
{
    if holds_retired_tag(turn) {
        return AssertionOutcome::fail(
            "final_text contains the dead P5 `<daily_log>` tag — must be 0 (replaced by log_progress tool in P6)".to_owned(),
        );
    }
    let calls = scan_mcp_tool_calls(&turn.notifications);
    let summaries = scan_logged_summaries(&calls);
    assert(text::views(summaries@).len() == summaries@.len());
    if summaries.len() == 0 {
        return AssertionOutcome::fail(
            "no log_progress tool call — agent didn't record the decision for its future self".to_owned(),
        );
    }
    if let Some(reason) = find_fault(&summaries) {
        return AssertionOutcome::fail(
            "log_progress called but summary fails the well-formed check (".to_owned().concat(
                reason.as_str(),
            ).concat(")"),
        );
    }
    let memory_db = artifacts.memory_db_path();
    let there = match rows {
        Ok(v) => v,
        Err(e) => return AssertionOutcome::fail(
            "post-run memory.db read failed (".to_owned().concat(e.as_str()).concat(
                ") — tool ack came back but row never landed (the P5 regression class)",
            ),
        ),
    };
    if there.len() == 0 {
        return AssertionOutcome::fail(
            "memory.db at ".to_owned().concat(memory_db.as_str()).concat(
                " exists but has 0 rows — log_progress acked without writing",
            ),
        );
    }
    let mut stored: Vec<String> = Vec::new();
    let mut i: usize = 0;
    while i < there.len()
        invariant
            i <= there@.len(),
            stored@.len() == i,
            forall|j: int| 0 <= j < i ==> (#[trigger] stored@[j])@ == there@[j].summary@,
        decreases there@.len() - i,
    {
        stored.push(there[i].summary.clone());
        i += 1;
    }
    assert(text::views(stored@) =~= row_summaries(there@));
    let matched: usize = count_matches(&summaries, &stored);
    if matched == 0 {
        return AssertionOutcome::fail(
            "memory.db has ".to_owned().concat(text::u64_text(there.len() as u64).as_str()).concat(
                " row(s) but none of their summary values match the ",
            ).concat(text::u64_text(summaries.len() as u64).as_str()).concat(
                " mcpToolCall.args.summary observed on the wire (rows=",
            ).concat(text::show_list(&stored).as_str()).concat(", observed=").concat(
                text::show_list(&summaries).as_str(),
            ).concat(")"),
        );
    }
    AssertionOutcome::pass(
        text::u64_text(summaries.len() as u64).concat(" log_progress call(s); ").concat(
            text::u64_text(there.len() as u64).as_str(),
        ).concat(" row(s) on disk; ").concat(text::u64_text(matched as u64).as_str()).concat(
            " summary equality match(es)",
        ),
    )
}

/// Nothing was logged.
pub open spec fn silence_outcome(turn: TurnView) -> OutcomeView {
    let logs = count_of(calls_in(turn.notifications), "log_progress"@);
    if has_retired_tag(turn) {
        failed("final_text contains the dead P5 `<daily_log>` tag — must be 0"@)
    } else if logs > 0 {
        failed(
            "agent called log_progress "@ + text::decimal_text(logs)
                + " time(s) on a trivial exchange — should keep trivial turns ephemeral"@,
        )
    } else {
        passed("no log_progress call on trivial exchange"@)
    }
}

/// A trivial exchange must not be logged.
pub fn pm_does_not_log_on_trivial(turn: &TurnResult, _artifacts: &RunArtifacts) -> (r:
    AssertionOutcome)
    ensures
        r@ == silence_outcome(turn@),
{
    if holds_retired_tag(turn) {
        return AssertionOutcome::fail(
            "final_text contains the dead P5 `<daily_log>` tag — must be 0".to_owned(),
        );
    }
    let calls = scan_mcp_tool_calls(&turn.notifications);
    let logs: usize = count_calls(&calls, "log_progress");
    if logs > 0 {
        return AssertionOutcome::fail(
            "agent called log_progress ".to_owned().concat(text::u64_text(logs as u64).as_str()).concat(
                " time(s) on a trivial exchange — should keep trivial turns ephemeral",
            ),
        );
    }
    AssertionOutcome::pass("no log_progress call on trivial exchange".to_owned())
}

/// What tells that the recalled database engine is named.
pub open spec fn engine_words() -> Seq<Seq<char>> {
    seq!["postgres"@, "postgresql"@]
}

/// What tells that the oldest logged row was recalled.
pub open spec fn seeded_facts() -> Seq<Seq<char>> {
    seq![
        "notes-pg-primary.internal.example.com"@,
        "notes-pg-primary"@,
        "5432"@,
        "10k users"@,
        "10k"@,
        "2026-04-12"@,
        "operational cost"@,
        "near-zero"@,
    ]
}

/// The facts that stand in the text, whatever the ASCII case, in order.
pub open spec fn facts_in(s: Seq<char>, facts: Seq<Seq<char>>) -> Seq<Seq<char>>
    decreases facts.len(),
{
    if facts.len() == 0 {
        Seq::empty()
    } else {
        let before = facts_in(s, facts.drop_last());
        if text::has(text::ascii_lowercase(s), text::ascii_lowercase(facts.last())) {
            before.push(facts.last())
        } else {
            before
        }
    }
}

fn find_facts(s: &str, facts: &Vec<String>) -> (r: Vec<String>)
    ensures
        text::views(r@) == facts_in(s@, text::views(facts@)),
{
    let lower = text::to_ascii_lowercase(s);
    let ghost all = text::views(facts@);
    let mut out: Vec<String> = Vec::new();
    let mut i: usize = 0;
    assert(all.take(0) =~= Seq::empty());
    assert(text::views(out@) =~= Seq::empty());
    while i < facts.len()
        invariant
            i <= facts@.len(),
            all == text::views(facts@),
            lower@ == text::ascii_lowercase(s@),
            text::views(out@) == facts_in(s@, all.take(i as int)),
        decreases facts@.len() - i,
    {
        assert(all.take(i + 1).drop_last() =~= all.take(i as int));
        assert(all[i as int] == facts@[i as int]@);
        if text::contains(lower.as_str(), text::to_ascii_lowercase(facts[i].as_str()).as_str()) {
            let ghost before = text::views(out@);
            let fact = facts[i].clone();
            out.push(fact);
            assert(text::views(out@) =~= before.push(fact@));
        }
        i += 1;
    }
    assert(all.take(i as int) =~= all);
    out
}

fn seeded_fact_list() -> (r: Vec<String>)
    ensures
        text::views(r@) == seeded_facts(),
{
    let mut v: Vec<String> = Vec::new();
    v.push("notes-pg-primary.internal.example.com".to_owned());
    v.push("notes-pg-primary".to_owned());
    v.push("5432".to_owned());
    v.push("10k users".to_owned());
    v.push("10k".to_owned());
    v.push("2026-04-12".to_owned());
    v.push("operational cost".to_owned());
    v.push("near-zero".to_owned());
    assert(text::views(v@) =~= seeded_facts());
    v
}

/// The log was consulted, and the answer names the engine and a seeded fact.
pub open spec fn recall_outcome(turn: TurnView) -> OutcomeView {
    let calls = calls_in(turn.notifications);
    let searches = count_of(calls, "memory_search"@);
    let gets = count_of(calls, "memory_get"@);
    let hits = facts_in(turn.final_text, seeded_facts());
    if has_retired_tag(turn) {
        failed("final_text contains the dead P5 `<daily_log>` tag — must be 0"@)
    } else if searches + gets == 0 {
        failed(
            "no memory_search / memory_get tool call — agent answered from prior context or guessed instead of consulting its log"@,
        )
    } else if !has_any(turn.final_text, engine_words()) {
        failed(
            text::decimal_text(searches + gets)
                + " recall call(s), but final_text mentions neither `Postgres` nor `PostgreSQL` — search may have hit but the answer didn't surface the recalled engine choice"@,
        )
    } else if hits.len() == 0 {
        failed(
            text::decimal_text(searches + gets)
                + " recall call(s), final_text names Postgres, but contains NONE of the seeded distinctive facts "@
                + text::debug_list(seeded_facts())
                + " — looks like a guess shaped by the question, not a recall"@,
        )
    } else {
        passed(
            text::decimal_text(searches + gets) + " recall call(s) ("@ + text::decimal_text(
                searches,
            ) + " memory_search / "@ + text::decimal_text(gets)
                + " memory_get); final_text names Postgres + "@ + text::decimal_text(hits.len())
                + " distinctive seeded fact(s): "@ + text::debug_list(hits),
        )
    }
}

/// A fact that lies beyond the recent window must be looked up and used.
pub fn pm_recalls_seeded_fact(turn: &TurnResult, _artifacts: &RunArtifacts) -> (r:
    AssertionOutcome)
    ensures
        r@ == recall_outcome(turn@),
{
    if holds_retired_tag(turn) {
        return AssertionOutcome::fail(
            "final_text contains the dead P5 `<daily_log>` tag — must be 0".to_owned(),
        );
    }
    let calls = scan_mcp_tool_calls(&turn.notifications);
    let searches: usize = count_calls(&calls, "memory_search");
    let gets: usize = count_calls(&calls, "memory_get");
    let recalls: u128 = searches as u128 + gets as u128;
    if recalls == 0 {
        return AssertionOutcome::fail(
            "no memory_search / memory_get tool call — agent answered from prior context or guessed instead of consulting its log".to_owned(),
        );
    }
    let engines = ["postgres", "postgresql"];
    assert(str_views(engines@) =~= engine_words());
    if !contains_any_ci(turn.final_text.as_str(), &engines) {
        return AssertionOutcome::fail(
            text::u128_text(recalls).concat(
                " recall call(s), but final_text mentions neither `Postgres` nor `PostgreSQL` — search may have hit but the answer didn't surface the recalled engine choice",
            ),
        );
    }
    let facts = seeded_fact_list();
    let hits = find_facts(turn.final_text.as_str(), &facts);
    assert(text::views(hits@).len() == hits@.len());
    if hits.len() == 0 {
        return AssertionOutcome::fail(
            text::u128_text(recalls).concat(
                " recall call(s), final_text names Postgres, but contains NONE of the seeded distinctive facts ",
            ).concat(text::show_list(&facts).as_str()).concat(
                " — looks like a guess shaped by the question, not a recall",
            ),
        );
    }
    AssertionOutcome::pass(
        text::u128_text(recalls).concat(" recall call(s) (").concat(
            text::u64_text(searches as u64).as_str(),
        ).concat(" memory_search / ").concat(text::u64_text(gets as u64).as_str()).concat(
            " memory_get); final_text names Postgres + ",
        ).concat(text::u64_text(hits.len() as u64).as_str()).concat(
            " distinctive seeded fact(s): ",
        ).concat(text::show_list(&hits).as_str()),
    )
}

// ---------------------------------------------------------------------------
// Laws of the assertions

/// A turn that tells of a code-modifying tool passes as a report in neither
/// mode, whatever it says.
pub proof fn modifying_tools_fail_a_report(turn: TurnView)
    requires
        modifying_calls(turn.notifications).len() > 0,
    ensures
        !report_outcome(turn).passed,
        !report_call_outcome(turn).passed,
{
}

/// A turn with the retired tag passes no memory assertion, whatever the tools
/// and the store say.
pub proof fn retired_tag_fails_memory_assertions(
    turn: TurnView,
    memory_db: Seq<char>,
    rows: Result<Seq<Seq<char>>, Seq<char>>,
)
    requires
        has_retired_tag(turn),
    ensures
        !logging_outcome(turn, memory_db, rows).passed,
        !silence_outcome(turn).passed,
        !recall_outcome(turn).passed,
{
}

/// An acknowledged log call is not enough: the decision counts as logged only
/// where a summary that was seen on the wire stands in the store.
pub proof fn logging_needs_a_stored_summary(
    turn: TurnView,
    memory_db: Seq<char>,
    rows: Result<Seq<Seq<char>>, Seq<char>>,
)
    requires
        logging_outcome(turn, memory_db, rows).passed,
    ensures
        rows is Ok,
        exists|k: int|
            0 <= k < logged_summaries(calls_in(turn.notifications)).len() && rows->Ok_0.contains(
                #[trigger] logged_summaries(calls_in(turn.notifications))[k],
            ),
{
    matches_are_stored(logged_summaries(calls_in(turn.notifications)), rows->Ok_0);
}

proof fn matches_are_stored(summaries: Seq<Seq<char>>, rows: Seq<Seq<char>>)
    requires
        match_count(summaries, rows) > 0,
    ensures
        exists|k: int| 0 <= k < summaries.len() && rows.contains(#[trigger] summaries[k]),
    decreases summaries.len(),
{
    let rest = summaries.drop_last();
    if rows.contains(summaries.last()) {
        assert(rows.contains(summaries[summaries.len() - 1]));
    } else {
        matches_are_stored(rest, rows);
        let k = choose|k: int| 0 <= k < rest.len() && rows.contains(#[trigger] rest[k]);
        assert(rows.contains(summaries[k]));
    }
}

// ---------------------------------------------------------------------------
// Laws of scanning

/// A closed block is found whole, whatever prose stands before it, and what follows it
/// is scanned by itself.
pub proof fn blocks_are_found_whole(
    before: Seq<char>,
    body: Seq<char>,
    after: Seq<char>,
    open: Seq<char>,
    close: Seq<char>,
)
    requires
        open.len() > 0,
        close.len() > 0,
        forall|j: int|
            0 <= j < before.len() ==> !#[trigger] text::occurs_at(before + open, open, j),
        forall|j: int|
            0 <= j < body.len() ==> !#[trigger] text::occurs_at(body + close, close, j),
    ensures
        blocks(before + open + body + close + after, open, close) == seq![body] + blocks(
            after,
            open,
            close,
        ),
{
    let s = before + open + body + close + after;
    let rest = body + close + after;
    assert(s =~= before + open + rest);
    text::first_behind(before, open, rest);
    let n = before.len() + open.len();
    assert(s.skip(n as int) =~= rest);
    text::first_behind(body, close, after);
    let k = body.len() as int;
    assert(rest.take(k) =~= body);
    assert(rest.skip(k + close.len()) =~= after);
}

/// The same of a block whose opening tag carries attributes.
pub proof fn tagged_blocks_are_found_whole(
    before: Seq<char>,
    attrs: Seq<char>,
    body: Seq<char>,
    after: Seq<char>,
    open: Seq<char>,
    close: Seq<char>,
)
    requires
        open.len() > 0,
        close.len() > 0,
        forall|j: int|
            0 <= j < before.len() ==> !#[trigger] text::occurs_at(before + open, open, j),
        forall|j: int| 0 <= j < attrs.len() ==> attrs[j] != '>',
        forall|j: int|
            0 <= j < body.len() ==> !#[trigger] text::occurs_at(body + close, close, j),
    ensures
        tagged_blocks(before + open + attrs + ">"@ + body + close + after, open, close) == seq![
            body,
        ] + tagged_blocks(after, open, close),
{
    reveal_strlit(">");
    let s = before + open + attrs + ">"@ + body + close + after;
    let inner = body + close + after;
    let rest = attrs + ">"@ + inner;
    assert(s =~= before + open + rest);
    text::first_behind(before, open, rest);
    let n = before.len() + open.len();
    assert(s.skip(n as int) =~= rest);
    assert forall|j: int| 0 <= j < attrs.len() implies !text::occurs_at(
        attrs + ">"@,
        ">"@,
        j,
    ) by {
        if text::occurs_at(attrs + ">"@, ">"@, j) {
            assert((attrs + ">"@).subrange(j, j + 1)[0] == attrs[j]);
        }
    }
    text::first_behind(attrs, ">"@, inner);
    let m = attrs.len() as int;
    assert(rest.skip(m + ">"@.len()) =~= inner);
    text::first_behind(body, close, after);
    let k = body.len() as int;
    assert(inner.take(k) =~= body);
    assert(inner.skip(k + close.len()) =~= after);
}

/// A text without an opening tag holds no block.
pub proof fn no_tag_means_no_block(s: Seq<char>, open: Seq<char>, close: Seq<char>)
    requires
        !text::has(s, open),
    ensures
        blocks(s, open, close).len() == 0,
        tagged_blocks(s, open, close).len() == 0,
{
    text::first_from_is_first(s, open, 0);
    if let Some(i) = text::first_at(s, open) {
        assert(text::occurs_at(s, open, i));
    }
}

/// A plan between its tags is found whole, and so is a message between its own,
/// whoever it is for; each task of a plan counts.
pub proof fn plans_tasks_and_messages_are_found(
    body: Seq<char>,
    attrs: Seq<char>,
    after: Seq<char>,
)
    requires
        forall|j: int|
            0 <= j < body.len() ==> !#[trigger] text::occurs_at(
                body + "</propose_plan>"@,
                "</propose_plan>"@,
                j,
            ),
        forall|j: int|
            0 <= j < body.len() ==> !#[trigger] text::occurs_at(
                body + "</task>"@,
                "</task>"@,
                j,
            ),
        forall|j: int|
            0 <= j < body.len() ==> !#[trigger] text::occurs_at(
                body + "</send_message>"@,
                "</send_message>"@,
                j,
            ),
        forall|j: int| 0 <= j < attrs.len() ==> attrs[j] != '>',
    ensures
        plan_blocks("<propose_plan>"@ + body + "</propose_plan>"@ + after) == seq![body]
            + plan_blocks(after),
        task_count("<task"@ + body + "</task>"@ + after) == 1 + task_count(after),
        message_blocks("<send_message"@ + attrs + ">"@ + body + "</send_message>"@ + after)
            == seq![body] + message_blocks(after),
{
    reveal_strlit("<propose_plan>");
    reveal_strlit("</propose_plan>");
    reveal_strlit("<task");
    reveal_strlit("</task>");
    reveal_strlit("<send_message");
    reveal_strlit("</send_message>");
    let none = Seq::<char>::empty();
    blocks_are_found_whole(none, body, after, "<propose_plan>"@, "</propose_plan>"@);
    assert(none + "<propose_plan>"@ =~= "<propose_plan>"@);
    blocks_are_found_whole(none, body, after, "<task"@, "</task>"@);
    assert(none + "<task"@ =~= "<task"@);
    tagged_blocks_are_found_whole(
        none,
        attrs,
        body,
        after,
        "<send_message"@,
        "</send_message>"@,
    );
    assert(none + "<send_message"@ =~= "<send_message"@);
}

/// A word is found in any ASCII case, wherever it stands, and only where it stands.
pub proof fn words_are_found_in_any_case(
    a: Seq<char>,
    word: Seq<char>,
    b: Seq<char>,
    needles: Seq<Seq<char>>,
    i: int,
)
    requires
        0 <= i < needles.len(),
        text::ascii_lowercase(word) == text::ascii_lowercase(needles[i]),
    ensures
        has_any(a + word + b, needles),
{
    let s = a + word + b;
    let low = text::ascii_lowercase(s);
    let la = text::ascii_lowercase(a);
    let lw = text::ascii_lowercase(word);
    let lb = text::ascii_lowercase(b);
    assert(low =~= la + lw + lb);
    text::parts_stand_in_the_whole(la, lw, lb);
    assert(text::has(low, text::ascii_lowercase(needles[i])));
}

/// A text in which none of the words stands, in any case, has none of them.
pub proof fn absent_words_are_not_found(s: Seq<char>, needles: Seq<Seq<char>>)
    requires
        forall|i: int|
            0 <= i < needles.len() ==> !text::has(
                text::ascii_lowercase(s),
                text::ascii_lowercase(#[trigger] needles[i]),
            ),
    ensures
        !has_any(s, needles),
{
}

/// Each of these phrases asks back.
pub proof fn phrases_that_ask_back()
    ensures
        clarifying_words().contains("could you"@),
        clarifying_words().contains("can you"@),
        clarifying_words().contains("to confirm"@),
        clarifying_words().contains("to clarify"@),
        clarifying_words().contains("would you"@),
        clarifying_words().contains("what do you mean"@),
        clarifying_words().contains("which "@),
        clarifying_words().contains("what kind"@),
        clarifying_words().contains("more detail"@),
        clarifying_words().len() == 9,
{
    let words = clarifying_words();
    assert(words[0] == "could you"@);
    assert(words[1] == "can you"@);
    assert(words[2] == "to confirm"@);
    assert(words[3] == "to clarify"@);
    assert(words[4] == "would you"@);
    assert(words[5] == "what do you mean"@);
    assert(words[6] == "which "@);
    assert(words[7] == "what kind"@);
    assert(words[8] == "more detail"@);
}

/// Each of these phrases reports a finding.
pub proof fn phrases_that_report()
    ensures
        finding_words().contains("finding"@),
        finding_words().contains("observed"@),
        finding_words().contains("would check"@),
        finding_words().contains("would verify"@),
        finding_words().contains("i ran"@),
        finding_words().contains("i checked"@),
        finding_words().contains("i looked"@),
        finding_words().contains("could not"@),
        finding_words().contains("cannot find"@),
        finding_words().contains("does not exist"@),
        finding_words().contains("no such file"@),
        finding_words().contains("report"@),
        finding_words().contains("issue"@),
        finding_words().contains("concern"@),
        finding_words().contains("missing"@),
        finding_words().contains("did not find"@),
        finding_words().contains("not present"@),
        finding_words().contains("blocked"@),
        finding_words().contains("unable"@),
        finding_words().len() == 19,
{
    let words = finding_words();
    assert(words[0] == "finding"@);
    assert(words[1] == "observed"@);
    assert(words[2] == "would check"@);
    assert(words[3] == "would verify"@);
    assert(words[4] == "i ran"@);
    assert(words[5] == "i checked"@);
    assert(words[6] == "i looked"@);
    assert(words[7] == "could not"@);
    assert(words[8] == "cannot find"@);
    assert(words[9] == "does not exist"@);
    assert(words[10] == "no such file"@);
    assert(words[11] == "report"@);
    assert(words[12] == "issue"@);
    assert(words[13] == "concern"@);
    assert(words[14] == "missing"@);
    assert(words[15] == "did not find"@);
    assert(words[16] == "not present"@);
    assert(words[17] == "blocked"@);
    assert(words[18] == "unable"@);
}

/// Each of these words names the engine.
pub proof fn words_that_name_the_engine()
    ensures
        engine_words().contains("postgres"@),
        engine_words().contains("postgresql"@),
        engine_words().len() == 2,
{
    let words = engine_words();
    assert(words[0] == "postgres"@);
    assert(words[1] == "postgresql"@);
}

/// Each of these facts was seeded.
pub proof fn facts_that_were_seeded()
    ensures
        seeded_facts().contains("notes-pg-primary.internal.example.com"@),
        seeded_facts().contains("notes-pg-primary"@),
        seeded_facts().contains("5432"@),
        seeded_facts().contains("10k users"@),
        seeded_facts().contains("10k"@),
        seeded_facts().contains("2026-04-12"@),
        seeded_facts().contains("operational cost"@),
        seeded_facts().contains("near-zero"@),
        seeded_facts().len() == 8,
{
    let words = seeded_facts();
    assert(words[0] == "notes-pg-primary.internal.example.com"@);
    assert(words[1] == "notes-pg-primary"@);
    assert(words[2] == "5432"@);
    assert(words[3] == "10k users"@);
    assert(words[4] == "10k"@);
    assert(words[5] == "2026-04-12"@);
    assert(words[6] == "operational cost"@);
    assert(words[7] == "near-zero"@);
}

// ---------------------------------------------------------------------------
// Laws of calls

/// A completed call is taken with its server, its tool and its arguments as they are;
/// nothing else is a call.
pub proof fn calls_are_told_by_their_fields(
    method: Seq<char>,
    params: Map<Seq<char>, JsonView>,
    item: Map<Seq<char>, JsonView>,
)
    requires
        params.contains_key("item"@),
        params["item"@] == JsonView::Object(item),
    ensures
        ({
            let c = call_of(method, JsonView::Object(params));
            let made = method == "item/completed"@ && item.contains_key("type"@) && item["type"@]
                == JsonView::Str("mcpToolCall"@);
            &&& c is Some <==> made
            &&& made && item.contains_key("server"@) && item["server"@] is Str ==> c->0.server
                == item["server"@]->Str_0
            &&& made && item.contains_key("tool"@) && item["tool"@] is Str ==> c->0.tool
                == item["tool"@]->Str_0
            &&& made && item.contains_key("arguments"@) ==> c->0.arguments == item["arguments"@]
            &&& made && !item.contains_key("arguments"@) ==> c->0.arguments == JsonView::Null
        }),
{
}

/// The calls are taken in the order of the notifications, each by itself.
pub proof fn calls_are_taken_in_order(a: Seq<(Seq<char>, JsonView)>, b: Seq<(Seq<char>, JsonView)>)
    ensures
        calls_in(a + b) == calls_in(a) + calls_in(b),
        a.len() == 1 ==> calls_in(a) == (match call_of(a[0].0, a[0].1) {
            Some(c) => seq![c],
            None => Seq::empty(),
        }),
    decreases b.len(),
{
    if b.len() == 0 {
        assert(a + b =~= a);
    } else {
        assert((a + b).drop_last() =~= a + b.drop_last());
        calls_are_taken_in_order(a, b.drop_last());
    }
    assert(calls_in(a + b) =~= calls_in(a) + calls_in(b));
    if a.len() == 1 {
        assert(a.drop_last() =~= Seq::empty());
        assert(calls_in(a.drop_last()) =~= Seq::empty());
        assert(calls_in(a) =~= (match call_of(a[0].0, a[0].1) {
            Some(c) => seq![c],
            None => Seq::empty(),
        }));
    }
}

/// The modifying calls are taken in the order of the notifications, each by itself.
pub proof fn modifying_calls_are_taken_in_order(a: Seq<(Seq<char>, JsonView)>, b: Seq<(Seq<char>, JsonView)>)
    ensures
        modifying_calls(a + b) == modifying_calls(a) + modifying_calls(b),
        a.len() == 1 ==> modifying_calls(a) == (match modifying_hint(a[0].0, json::rendered(a[0].1)) {
            Some(h) => seq![(a[0].0, h)],
            None => Seq::empty(),
        }),
    decreases b.len(),
{
    if b.len() == 0 {
        assert(a + b =~= a);
    } else {
        assert((a + b).drop_last() =~= a + b.drop_last());
        modifying_calls_are_taken_in_order(a, b.drop_last());
    }
    assert(modifying_calls(a + b) =~= modifying_calls(a) + modifying_calls(b));
    if a.len() == 1 {
        assert(a.drop_last() =~= Seq::empty());
        assert(modifying_calls(a.drop_last()) =~= Seq::empty());
        assert(modifying_calls(a) =~= (match modifying_hint(a[0].0, json::rendered(a[0].1)) {
            Some(h) => seq![(a[0].0, h)],
            None => Seq::empty(),
        }));
    }
}

/// A notification tells of a modifying tool where it is of an item that started or was
/// completed and its parameters name one of the three.
pub proof fn modifying_tools_are_the_three(method: Seq<char>, blob: Seq<char>)
    ensures
        modifying_hint(method, blob) is Some <==> (text::begins(method, "item/started"@)
            || text::begins(method, "item/completed"@)) && (text::has(blob, "apply_patch"@)
            || text::has(blob, "edit_file"@) || text::has(blob, "write_file"@)),
        modifying_hint(method, blob) matches Some(h) ==> text::has(blob, h) && (h == "apply_patch"@
            || h == "edit_file"@ || h == "write_file"@),
{
}

/// Each call of the tool counts once, and no other call counts.
pub proof fn calls_of_a_tool_are_counted(a: Seq<CallView>, b: Seq<CallView>, tool: Seq<char>)
    ensures
        count_of(a + b, tool) == count_of(a, tool) + count_of(b, tool),
        a.len() == 1 ==> count_of(a, tool) == (if a[0].tool == tool {
            1nat
        } else {
            0
        }),
    decreases b.len(),
{
    if b.len() == 0 {
        assert(a + b =~= a);
    } else {
        assert((a + b).drop_last() =~= a + b.drop_last());
        calls_of_a_tool_are_counted(a, b.drop_last(), tool);
    }
    if a.len() == 1 {
        assert(a.drop_last() =~= Seq::empty());
        assert(count_of(a.drop_last(), tool) == 0);
    }
}

/// The tasks of all plan calls are counted, and those of no other call.
pub proof fn planned_tasks_are_counted(a: Seq<CallView>, b: Seq<CallView>)
    ensures
        all_planned_tasks(a + b) == all_planned_tasks(a) + all_planned_tasks(b),
        a.len() == 1 ==> all_planned_tasks(a) == (if a[0].tool == "propose_plan"@ {
            planned_tasks(a[0].arguments)
        } else {
            0
        }),
    decreases b.len(),
{
    if b.len() == 0 {
        assert(a + b =~= a);
    } else {
        assert((a + b).drop_last() =~= a + b.drop_last());
        planned_tasks_are_counted(a, b.drop_last());
    }
    assert(all_planned_tasks(a + b) == all_planned_tasks(a) + all_planned_tasks(b));
    if a.len() == 1 {
        assert(a.drop_last() =~= Seq::empty());
        assert(all_planned_tasks(a.drop_last()) == 0);
        assert(all_planned_tasks(a) == (if a[0].tool == "propose_plan"@ {
            planned_tasks(a[0].arguments)
        } else {
            0
        }));
    }
}

/// The tasks of all plans are counted.
pub proof fn tasks_of_all_plans_are_counted(a: Seq<Seq<char>>, b: Seq<Seq<char>>)
    ensures
        total_tasks(a + b) == total_tasks(a) + total_tasks(b),
        a.len() == 1 ==> total_tasks(a) == (task_count(a[0])),
    decreases b.len(),
{
    if b.len() == 0 {
        assert(a + b =~= a);
    } else {
        assert((a + b).drop_last() =~= a + b.drop_last());
        tasks_of_all_plans_are_counted(a, b.drop_last());
    }
    assert(total_tasks(a + b) == total_tasks(a) + total_tasks(b));
    if a.len() == 1 {
        assert(a.drop_last() =~= Seq::empty());
        assert(total_tasks(a.drop_last()) == 0);
        assert(total_tasks(a) == (task_count(a[0])));
    }
}

/// The summaries are those of the log calls, in order and as they are.
pub proof fn summaries_are_taken_in_order(a: Seq<CallView>, b: Seq<CallView>)
    ensures
        logged_summaries(a + b) == logged_summaries(a) + logged_summaries(b),
        a.len() == 1 ==> logged_summaries(a) == (if a[0].tool == "log_progress"@ {
            seq![render::string_or_empty(a[0].arguments, "summary"@)]
        } else {
            Seq::empty()
        }),
    decreases b.len(),
{
    if b.len() == 0 {
        assert(a + b =~= a);
    } else {
        assert((a + b).drop_last() =~= a + b.drop_last());
        summaries_are_taken_in_order(a, b.drop_last());
    }
    assert(logged_summaries(a + b) =~= logged_summaries(a) + logged_summaries(b));
    if a.len() == 1 {
        assert(a.drop_last() =~= Seq::empty());
        assert(logged_summaries(a.drop_last()) =~= Seq::empty());
        assert(logged_summaries(a) =~= (if a[0].tool == "log_progress"@ {
            seq![render::string_or_empty(a[0].arguments, "summary"@)]
        } else {
            Seq::empty()
        }));
    }
}

/// The tasks of a plan call are the items of its list.
pub proof fn planned_tasks_are_the_items(fields: Map<Seq<char>, JsonView>, tasks: Seq<JsonView>)
    requires
        fields.contains_key("tasks"@),
        fields["tasks"@] == JsonView::Array(tasks),
    ensures
        planned_tasks(JsonView::Object(fields)) == tasks.len(),
{
}

/// The facts that are found are those that stand in the text, in any ASCII case.
pub proof fn facts_are_those_in_the_text(s: Seq<char>, facts: Seq<Seq<char>>, f: Seq<char>)
    ensures
        facts_in(s, facts).contains(f) <==> facts.contains(f) && text::has(
            text::ascii_lowercase(s),
            text::ascii_lowercase(f),
        ),
    decreases facts.len(),
{
    if facts.len() > 0 {
        let init = facts.drop_last();
        let before = facts_in(s, init);
        let all = facts_in(s, facts);
        facts_are_those_in_the_text(s, init, f);
        if before.contains(f) {
            let k = choose|k: int| 0 <= k < before.len() && before[k] == f;
            assert(all[k] == f);
            let j = choose|j: int| 0 <= j < init.len() && init[j] == f;
            assert(facts[j] == f);
        } else if facts.last() == f {
            assert(facts[facts.len() - 1] == f);
            if all.len() > before.len() {
                assert(all[before.len() as int] == f);
            }
        } else {
            if facts.contains(f) {
                let j = choose|j: int| 0 <= j < facts.len() && facts[j] == f;
                assert(init[j] == f);
            }
            if all.contains(f) {
                let k = choose|k: int| 0 <= k < all.len() && all[k] == f;
                if k < before.len() {
                    assert(before[k] == f);
                }
            }
        }
    }
}

/// Each summary that stands in the store counts once.
pub proof fn stored_summaries_are_counted(
    a: Seq<Seq<char>>,
    b: Seq<Seq<char>>,
    rows: Seq<Seq<char>>,
)
    ensures
        match_count(a + b, rows) == match_count(a, rows) + match_count(b, rows),
        a.len() == 1 ==> match_count(a, rows) == (if rows.contains(a[0]) {
            1nat
        } else {
            0
        }),
    decreases b.len(),
{
    if b.len() == 0 {
        assert(a + b =~= a);
    } else {
        assert((a + b).drop_last() =~= a + b.drop_last());
        stored_summaries_are_counted(a, b.drop_last(), rows);
    }
    if a.len() == 1 {
        assert(a.drop_last() =~= Seq::empty());
        assert(match_count(a.drop_last(), rows) == 0);
    }
}

// ---------------------------------------------------------------------------
// Laws of what passes

/// A plan passes exactly where one was proposed and some plan holds a task.
pub proof fn plans_pass_with_a_task(turn: TurnView)
    ensures
        plan_outcome(turn).passed <==> exists|i: int|
            0 <= i < plan_blocks(turn.final_text).len() && task_count(
                #[trigger] plan_blocks(turn.final_text)[i],
            ) > 0,
{
    some_plan_has_a_task(plan_blocks(turn.final_text));
}

proof fn some_plan_has_a_task(plans: Seq<Seq<char>>)
    ensures
        total_tasks(plans) > 0 <==> exists|i: int|
            0 <= i < plans.len() && task_count(#[trigger] plans[i]) > 0,
    decreases plans.len(),
{
    if plans.len() > 0 {
        let init = plans.drop_last();
        let last = plans.len() - 1;
        some_plan_has_a_task(init);
        if total_tasks(init) > 0 {
            let i = choose|i: int| 0 <= i < init.len() && task_count(#[trigger] init[i]) > 0;
            assert(task_count(plans[i]) > 0);
        } else if task_count(plans.last()) > 0 {
            assert(task_count(plans[last]) > 0);
        } else {
            assert forall|i: int|
                0 <= i < plans.len() && task_count(#[trigger] plans[i]) > 0 implies false by {
                if i < last {
                    assert(init[i] == plans[i]);
                }
            }
        }
    }
}

/// An ambiguous request is answered well exactly where the answer asks back: with a
/// question mark or with one of the phrases.
pub proof fn answers_that_ask_back_pass(turn: TurnView)
    ensures
        clarify_outcome(turn).passed <==> text::has(turn.final_text, "?"@) || has_any(
            turn.final_text,
            clarifying_words(),
        ),
{
}

/// A verification passes exactly where no modifying tool was run and the messages that
/// were sent report a finding.
pub proof fn reports_pass_without_modifying(turn: TurnView)
    ensures
        report_outcome(turn).passed <==> modifying_calls(turn.notifications).len() == 0
            && message_blocks(turn.final_text).len() > 0 && has_any(
            text::joined(message_blocks(turn.final_text), "\n"@),
            finding_words(),
        ),
        report_call_outcome(turn).passed <==> modifying_calls(turn.notifications).len() == 0
            && sends_report(calls_in(turn.notifications)),
{
    let calls = calls_in(turn.notifications);
    if sends_report(calls) {
        let i = choose|i: int|
            0 <= i < calls.len() && (#[trigger] calls[i]).tool == "send_message"@ && has_any(
                render::string_or_empty(calls[i].arguments, "body"@),
                finding_words(),
            );
        a_call_counts(calls, "send_message"@, i);
    }
}

proof fn a_call_counts(calls: Seq<CallView>, tool: Seq<char>, i: int)
    requires
        0 <= i < calls.len(),
        calls[i].tool == tool,
    ensures
        count_of(calls, tool) > 0,
    decreases calls.len(),
{
    if i < calls.len() - 1 {
        a_call_counts(calls.drop_last(), tool, i);
    }
}

/// The plan tool was called well exactly where some call of it holds a task; and an
/// ambiguous request is answered well exactly where it was not called and something was
/// said or sent.
pub proof fn plan_calls_pass_with_a_task(turn: TurnView)
    ensures
        ({
            let calls = calls_in(turn.notifications);
            &&& plan_call_outcome(turn).passed <==> count_of(calls, "propose_plan"@) > 0
                && all_planned_tasks(calls) > 0
            &&& no_plan_call_outcome(turn).passed <==> count_of(calls, "propose_plan"@) == 0 && (
            count_of(calls, "send_message"@) > 0 || !text::is_white(turn.final_text))
        }),
{
    render::blank_is_all_white(turn.final_text);
}

/// A summary is well formed where it has from five to three hundred characters and a
/// space among them.
pub proof fn summaries_are_short_sentences(s: Seq<char>)
    ensures
        summary_fault(s) is None <==> 5 <= s.len() <= 300 && exists|i: int|
            0 <= i < s.len() && #[trigger] s[i] == ' ',
{
    reveal_strlit(" ");
    if text::has(s, " "@) {
        let i = choose|i: int| #[trigger] text::occurs_at(s, " "@, i);
        assert(s.subrange(i, i + 1)[0] == s[i]);
    }
    if exists|i: int| 0 <= i < s.len() && #[trigger] s[i] == ' ' {
        let i = choose|i: int| 0 <= i < s.len() && #[trigger] s[i] == ' ';
        assert(s.subrange(i, i + 1) =~= " "@);
        assert(text::occurs_at(s, " "@, i));
    }
}

proof fn no_fault_means_well_formed(summaries: Seq<Seq<char>>, from: int)
    requires
        0 <= from,
    ensures
        first_fault(summaries, from) is None <==> forall|i: int|
            from <= i < summaries.len() ==> summary_fault(#[trigger] summaries[i]) is None,
    decreases summaries.len() - from,
{
    if from < summaries.len() {
        no_fault_means_well_formed(summaries, from + 1);
        if summary_fault(summaries[from]) is None && first_fault(summaries, from + 1) is None {
            assert forall|i: int| from <= i < summaries.len() implies summary_fault(
                #[trigger] summaries[i],
            ) is None by {}
        }
    }
}

/// A decision is logged exactly where the retired tag is not used, the log was called,
/// every summary is well formed, and one of them stands in the store.
pub proof fn logging_passes_when_stored(
    turn: TurnView,
    memory_db: Seq<char>,
    rows: Result<Seq<Seq<char>>, Seq<char>>,
)
    ensures
        ({
            let summaries = logged_summaries(calls_in(turn.notifications));
            logging_outcome(turn, memory_db, rows).passed <==> !text::has(
                turn.final_text,
                "<daily_log>"@,
            ) && rows is Ok && (forall|i: int|
                0 <= i < summaries.len() ==> summary_fault(#[trigger] summaries[i]) is None) && (
            exists|i: int| 0 <= i < summaries.len() && rows->Ok_0.contains(#[trigger] summaries[i]))
        }),
{
    let summaries = logged_summaries(calls_in(turn.notifications));
    no_fault_means_well_formed(summaries, 0);
    if rows is Ok {
        let there = rows->Ok_0;
        if match_count(summaries, there) > 0 {
            matches_are_stored(summaries, there);
        }
        if exists|i: int| 0 <= i < summaries.len() && there.contains(#[trigger] summaries[i]) {
            let i = choose|i: int|
                0 <= i < summaries.len() && there.contains(#[trigger] summaries[i]);
            a_match_counts(summaries, there, i);
            let k = choose|k: int| 0 <= k < there.len() && there[k] == summaries[i];
            assert(there.len() > 0);
        }
    }
}

proof fn a_match_counts(summaries: Seq<Seq<char>>, rows: Seq<Seq<char>>, i: int)
    requires
        0 <= i < summaries.len(),
        rows.contains(summaries[i]),
    ensures
        match_count(summaries, rows) > 0,
    decreases summaries.len(),
{
    if i < summaries.len() - 1 {
        a_match_counts(summaries.drop_last(), rows, i);
    }
}

/// A trivial exchange passes exactly where nothing was logged, by tool or by tag; and a
/// recall exactly where the log was asked, the engine is named and a seeded fact told.
pub proof fn silence_and_recall_pass(turn: TurnView)
    ensures
        ({
            let calls = calls_in(turn.notifications);
            let tagged = text::has(turn.final_text, "<daily_log>"@);
            &&& silence_outcome(turn).passed <==> !tagged && count_of(calls, "log_progress"@) == 0
            &&& recall_outcome(turn).passed <==> !tagged && (count_of(calls, "memory_search"@) > 0
                || count_of(calls, "memory_get"@) > 0) && has_any(turn.final_text, engine_words())
                && facts_in(turn.final_text, seeded_facts()).len() > 0
        }),
{
}

// ---------------------------------------------------------------------------
// Laws of paths

/// A relative part is put below the base with one slash between; an absolute one stands
/// for itself.
pub proof fn parts_go_below_the_base(base: Seq<char>, part: Seq<char>)
    ensures
        part.len() > 0 && part[0] == '/' ==> joined_path(base, part) == part,
        !(part.len() > 0 && part[0] == '/') ==> {
            let path = joined_path(base, part);
            &&& text::begins(path, base)
            &&& text::ends(path, part)
            &&& base.len() == 0 || base[base.len() - 1] == '/' ==> path == base + part
            &&& base.len() > 0 && base[base.len() - 1] != '/' ==> path == base + seq!['/'] + part
        },
{
    slashes_are_seen(base, part);
    reveal_strlit("/");
    assert("/"@ =~= seq!['/']);
    let path = joined_path(base, part);
    if !(part.len() > 0 && part[0] == '/') {
        if base.len() == 0 || base[base.len() - 1] == '/' {
            assert(path == base + part);
            assert(path.take(base.len() as int) =~= base);
            assert(path.skip(path.len() - part.len()) =~= part);
        } else {
            assert(path == base + "/"@ + part);
            assert(path.take(base.len() as int) =~= base);
            assert(path.skip(path.len() - part.len()) =~= part);
        }
    }
}

proof fn slashes_are_seen(base: Seq<char>, part: Seq<char>)
    ensures
        text::begins(part, "/"@) <==> part.len() > 0 && part[0] == '/',
        text::ends(base, "/"@) <==> base.len() > 0 && base[base.len() - 1] == '/',
{
    reveal_strlit("/");
    assert("/"@ =~= seq!['/']);
    if part.len() > 0 {
        assert(part.take(1) =~= seq![part[0]]);
        assert(seq![part[0]][0] == part[0]);
    }
    if base.len() > 0 {
        let n = base.len() - 1;
        assert(base.skip(n) =~= seq![base[n]]);
        assert(seq![base[n]][0] == base[n]);
    }
}

} // verus!
