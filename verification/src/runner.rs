//! Driving one fixture: what is sent to the app server, in which order, and
//! what is made of what comes back.
use crate::assertions;
use crate::assertions::TurnResult;
use crate::json;
use crate::json::Json;
use crate::json::JsonView;
use crate::text;
use vstd::prelude::*;
use vstd::string::*;

verus! {

/// How the client names itself.
pub const CLIENT_VERSION: &'static str = "opencrab-eval/0.1";

/// The time limit on a turn, in seconds.
pub const TURN_BUDGET_SECS: u64 = 180;

/// The time limit on the handshake, in seconds.
pub const INITIALIZE_BUDGET_SECS: u64 = 15;

/// The time limit on starting a thread, in seconds.
pub const THREAD_START_BUDGET_SECS: u64 = 30;

/// The time limit on starting a turn, in seconds.
pub const TURN_START_BUDGET_SECS: u64 = 60;

/// What every fixture of a run shares.
#[derive(Debug, Clone)]
pub struct RunContext {
    pub bearer: String,
    pub sidecar_root: String,
    pub codex_app_server: String,
    /// The team server; without one the run is in text-tag mode.
    pub team_mcp: Option<String>,
}

/// What the prompt composer gives.
#[derive(Debug, Clone)]
pub struct ComposeOutput {
    pub developer_instructions: String,
    pub kickoff_prompt: String,
}

// ---------------------------------------------------------------------------
// Parameters

/// The parameters of the handshake.
pub open spec fn initialize_view(version: Seq<char>) -> JsonView {
    JsonView::Object(
        Map::empty().insert(
            "clientInfo"@,
            JsonView::Object(
                Map::empty().insert("name"@, JsonView::Str("codex_monitor"@)).insert(
                    "title"@,
                    JsonView::Str("Codex Monitor"@),
                ).insert("version"@, JsonView::Str(version)),
            ),
        ).insert(
            "capabilities"@,
            JsonView::Object(Map::empty().insert("experimentalApi"@, JsonView::Bool(true))),
        ),
    )
}

/// The parameters of the handshake.
pub fn initialize_params(version: &str) -> (j: Json)
    ensures
        j@ == initialize_view(version@),
{
    let info: Vec<(String, Json)> = Vec::new();
    let info = json::with_field(info, "name", json::string("codex_monitor"));
    let info = json::with_field(info, "title", json::string("Codex Monitor"));
    let info = json::with_field(info, "version", json::string(version));
    let caps: Vec<(String, Json)> = Vec::new();
    let caps = json::with_field(caps, "experimentalApi", Json::Bool(true));
    let fields: Vec<(String, Json)> = Vec::new();
    let fields = json::with_field(fields, "clientInfo", Json::Object(info));
    let fields = json::with_field(fields, "capabilities", Json::Object(caps));
    Json::Object(fields)
}

/// A server to be started: its command and arguments.
pub open spec fn server_view(command: Seq<char>, args: Seq<JsonView>) -> JsonView {
    JsonView::Object(
        Map::empty().insert("command"@, JsonView::Str(command)).insert(
            "args"@,
            JsonView::Array(args),
        ),
    )
}

/// The servers that a thread is to have: the team server, and the memory server
/// where it was found beside it.
pub open spec fn servers_view(team_mcp: Seq<char>, memory_mcp: Option<Seq<char>>) -> JsonView {
    let team = Map::<Seq<char>, JsonView>::empty().insert(
        "mcp_servers.opencrab-team"@,
        server_view(team_mcp, Seq::empty()),
    );
    JsonView::Object(
        match memory_mcp {
            Some(path) => team.insert(
                "mcp_servers.opencrab-memory"@,
                server_view(
                    path,
                    seq![JsonView::Str("--agent-id"@), JsonView::Str("_eval"@)],
                ),
            ),
            None => team,
        },
    )
}

/// The parameters that start a thread. Servers are configured only where the
/// team server is there.
pub open spec fn thread_start_view(
    cwd: Seq<char>,
    instructions: Seq<char>,
    team_mcp: Option<Seq<char>>,
    memory_mcp: Option<Seq<char>>,
) -> JsonView {
    let fields = Map::<Seq<char>, JsonView>::empty().insert("cwd"@, JsonView::Str(cwd)).insert(
        "approvalPolicy"@,
        JsonView::Str("never"@),
    ).insert("sandbox"@, JsonView::Str("danger-full-access"@)).insert(
        "developerInstructions"@,
        JsonView::Str(instructions),
    );
    JsonView::Object(
        match team_mcp {
            Some(path) => fields.insert("config"@, servers_view(path, memory_mcp)),
            None => fields,
        },
    )
}

fn server_json(command: &str, args: Vec<Json>) -> (j: Json)
    ensures
        j@ == server_view(command@, json::items_view(args@)),
{
    let fields: Vec<(String, Json)> = Vec::new();
    let fields = json::with_field(fields, "command", json::string(command));
    let fields = json::with_field(fields, "args", Json::Array(args));
    Json::Object(fields)
}

fn servers_json(team_mcp: &str, memory_mcp: Option<&str>) -> (j: Json)
    ensures
        j@ == servers_view(team_mcp@, text::opt_str_view(memory_mcp)),
{
    let none: Vec<Json> = Vec::new();
    assert(json::items_view(none@) =~= Seq::empty());
    let fields: Vec<(String, Json)> = Vec::new();
    let fields = json::with_field(
        fields,
        "mcp_servers.opencrab-team",
        server_json(team_mcp, none),
    );
    match memory_mcp {
        Some(path) => {
            let args: Vec<Json> = Vec::new();
            let args = json::with_item(args, json::string("--agent-id"));
            let args = json::with_item(args, json::string("_eval"));
            assert(json::items_view(args@) =~= seq![
                JsonView::Str("--agent-id"@),
                JsonView::Str("_eval"@),
            ]);
            let fields = json::with_field(
                fields,
                "mcp_servers.opencrab-memory",
                server_json(path, args),
            );
            Json::Object(fields)
        },
        None => Json::Object(fields),
    }
}

/// The parameters that start a thread.
pub fn thread_start_params(
    cwd: &str,
    instructions: &str,
    team_mcp: Option<&str>,
    memory_mcp: Option<&str>,
) -> (j: Json)
    ensures
        j@ == thread_start_view(
            cwd@,
            instructions@,
            text::opt_str_view(team_mcp),
            text::opt_str_view(memory_mcp),
        ),
{
    let fields: Vec<(String, Json)> = Vec::new();
    let fields = json::with_field(fields, "cwd", json::string(cwd));
    let fields = json::with_field(fields, "approvalPolicy", json::string("never"));
    let fields = json::with_field(fields, "sandbox", json::string("danger-full-access"));
    let fields = json::with_field(fields, "developerInstructions", json::string(instructions));
    match team_mcp {
        Some(path) => {
            let fields = json::with_field(fields, "config", servers_json(path, memory_mcp));
            Json::Object(fields)
        },
        None => Json::Object(fields),
    }
}

/// The parameters that start a turn with this text.
pub open spec fn turn_start_view(thread_id: Seq<char>, input: Seq<char>) -> JsonView {
    let item = JsonView::Object(
        Map::empty().insert("type"@, JsonView::Str("text"@)).insert(
            "text"@,
            JsonView::Str(input),
        ).insert("textElements"@, JsonView::Array(Seq::empty())),
    );
    JsonView::Object(
        Map::empty().insert("threadId"@, JsonView::Str(thread_id)).insert(
            "input"@,
            JsonView::Array(seq![item]),
        ),
    )
}

/// The parameters that start a turn with this text.
pub fn turn_start_params(thread_id: &str, input: &str) -> (j: Json)
    ensures
        j@ == turn_start_view(thread_id@, input@),
{
    let none: Vec<Json> = Vec::new();
    assert(json::items_view(none@) =~= Seq::empty());
    let item: Vec<(String, Json)> = Vec::new();
    let item = json::with_field(item, "type", json::string("text"));
    let item = json::with_field(item, "text", json::string(input));
    let item = json::with_field(item, "textElements", Json::Array(none));
    let items: Vec<Json> = Vec::new();
    assert(json::items_view(items@) =~= Seq::empty());
    let items = json::with_item(items, Json::Object(item));
    let fields: Vec<(String, Json)> = Vec::new();
    let fields = json::with_field(fields, "threadId", json::string(thread_id));
    let fields = json::with_field(fields, "input", Json::Array(items));
    assert(turn_start_view(thread_id@, input@) == JsonView::Object(
        json::fields_view(fields@),
    )) by {
        let view = JsonView::Object(json::fields_view(item@));
        assert(json::items_view(items@) =~= seq![view]);
    }
    Json::Object(fields)
}

/// The provider configuration with this bearer token, and with the team server
/// where there is one.
pub open spec fn config_text(bearer: Seq<char>, team_mcp: Option<Seq<char>>) -> Seq<char> {
    "model = \"qwen3.5-plus\"\nmodel_provider = \"opencrab\"\n\n[model_providers]\n\n[model_providers.opencrab]\nname = \"opencrab\"\nbase_url = \"https://dashscope.aliyuncs.com/compatible-mode/v1\"\nexperimental_bearer_token = \""@
        + bearer
        + "\"\nwire_api = \"responses\"\n\n[features]\ncollaboration_modes = true\nsteer = true\nunified_exec = true\napps = false\n"@
        + (match team_mcp {
        Some(path) => "\n[mcp_servers.opencrab-team]\ncommand = \""@ + path + "\"\nargs = []\n"@,
        None => Seq::empty(),
    })
}

/// Writes the provider configuration.
pub fn build_config_toml(bearer: &str, team_mcp: Option<&str>) -> (r: String)
    ensures
        r@ == config_text(bearer@, text::opt_str_view(team_mcp)),
{
    let mut out =
        "model = \"qwen3.5-plus\"\nmodel_provider = \"opencrab\"\n\n[model_providers]\n\n[model_providers.opencrab]\nname = \"opencrab\"\nbase_url = \"https://dashscope.aliyuncs.com/compatible-mode/v1\"\nexperimental_bearer_token = \"".to_owned();
    out.append(bearer);
    out.append(
        "\"\nwire_api = \"responses\"\n\n[features]\ncollaboration_modes = true\nsteer = true\nunified_exec = true\napps = false\n",
    );
    if let Some(path) = team_mcp {
        out.append("\n[mcp_servers.opencrab-team]\ncommand = \"");
        out.append(path);
        out.append("\"\nargs = []\n");
    }
    assert(out@ =~= config_text(bearer@, text::opt_str_view(team_mcp)));
    out
}

/// The arguments of the prompt composer.
pub open spec fn compose_view(
    script: Seq<char>,
    sidecar_root: Seq<char>,
    user_data: Seq<char>,
    project_data: Seq<char>,
    agent_id: Seq<char>,
    tools_mode: bool,
) -> Seq<Seq<char>> {
    let args = seq![
        "--yes"@,
        "tsx"@,
        script,
        "--sidecar-root"@,
        sidecar_root,
        "--user-data"@,
        user_data,
        "--project-data"@,
        project_data,
        "--agent-id"@,
        agent_id,
    ];
    if tools_mode {
        args.push("--tools-mode"@)
    } else {
        args
    }
}

/// The arguments of the prompt composer.
pub fn compose_args(
    script: &str,
    sidecar_root: &str,
    user_data: &str,
    project_data: &str,
    agent_id: &str,
    tools_mode: bool,
) -> (r: Vec<String>)
    ensures
        text::views(r@) == compose_view(
            script@,
            sidecar_root@,
            user_data@,
            project_data@,
            agent_id@,
            tools_mode,
        ),
{
    let mut v: Vec<String> = Vec::new();
    v.push("--yes".to_owned());
    v.push("tsx".to_owned());
    v.push(script.to_owned());
    v.push("--sidecar-root".to_owned());
    v.push(sidecar_root.to_owned());
    v.push("--user-data".to_owned());
    v.push(user_data.to_owned());
    v.push("--project-data".to_owned());
    v.push(project_data.to_owned());
    v.push("--agent-id".to_owned());
    v.push(agent_id.to_owned());
    if tools_mode {
        v.push("--tools-mode".to_owned());
    }
    assert(text::views(v@) =~= compose_view(
        script@,
        sidecar_root@,
        user_data@,
        project_data@,
        agent_id@,
        tools_mode,
    ));
    v
}

// ---------------------------------------------------------------------------
// Reading what comes back

/// The string at `outer.inner`.
pub open spec fn nested_string(v: JsonView, outer: Seq<char>, inner: Seq<char>) -> Option<
    Seq<char>,
> {
    match v.field(outer) {
        Some(x) => x.string_field(inner),
        None => None,
    }
}

/// The thread id that a response names, in any of its shapes.
pub open spec fn thread_id_of(v: JsonView) -> Option<Seq<char>> {
    if v.string_field("threadId"@) is Some {
        v.string_field("threadId"@)
    } else if nested_string(v, "thread"@, "id"@) is Some {
        nested_string(v, "thread"@, "id"@)
    } else {
        match v.field("result"@) {
            Some(r) => nested_string(r, "thread"@, "id"@),
            None => None,
        }
    }
}

fn get_nested<'a>(v: &'a Json, outer: &str, inner: &str) -> (r: Option<&'a str>)
    ensures
        match r {
            Some(s) => nested_string(v@, outer@, inner@) == Some(s@),
            None => nested_string(v@, outer@, inner@) is None,
        },
{
    match v.get(outer) {
        Some(x) => x.get_str(inner),
        None => None,
    }
}

/// Reads the thread id out of a response.
pub fn extract_thread_id(v: &Json) -> (r: Option<String>)
    ensures
        text::opt_view(r) == thread_id_of(v@),
{
    if let Some(s) = v.get_str("threadId") {
        return Some(s.to_owned());
    }
    if let Some(s) = get_nested(v, "thread", "id") {
        return Some(s.to_owned());
    }
    match v.get("result") {
        Some(r) => match get_nested(r, "thread", "id") {
            Some(s) => Some(s.to_owned()),
            None => None,
        },
        None => None,
    }
}

/// A completed message of the agent: its id, and its text.
pub open spec fn agent_message(method: Seq<char>, params: JsonView) -> Option<
    (Seq<char>, Seq<char>),
> {
    if method != "item/completed"@ {
        None
    } else {
        match params.field("item"@) {
            None => None,
            Some(item) => if item.string_field("type"@) != Some("agentMessage"@) {
                None
            } else {
                match item.string_field("id"@) {
                    None => None,
                    Some(id) => Some(
                        (
                            id,
                            match item.string_field("text"@) {
                                Some(t) => t,
                                None => Seq::empty(),
                            },
                        ),
                    ),
                }
            },
        }
    }
}

/// The ids of the agent's messages that were met, and their texts.
pub ghost struct Heard {
    pub ids: Seq<Seq<char>>,
    pub texts: Seq<Seq<char>>,
}

/// What the agent said: each message once, however often it is reported.
pub open spec fn heard(n: Seq<(Seq<char>, JsonView)>) -> Heard
    decreases n.len(),
{
    if n.len() == 0 {
        Heard { ids: Seq::empty(), texts: Seq::empty() }
    } else {
        let before = heard(n.drop_last());
        match agent_message(n.last().0, n.last().1) {
            None => before,
            Some((id, t)) => if before.ids.contains(id) {
                before
            } else {
                Heard {
                    ids: before.ids.push(id),
                    texts: if t.len() > 0 {
                        before.texts.push(t)
                    } else {
                        before.texts
                    },
                }
            },
        }
    }
}

/// The agent's final text: its messages, with a blank line between.
pub open spec fn final_text(n: Seq<(Seq<char>, JsonView)>) -> Seq<char> {
    text::joined(heard(n).texts, "\n\n"@)
}

fn read_agent_message(method: &str, params: &Json) -> (r: Option<(String, String)>)
    ensures
        match r {
            Some(m) => agent_message(method@, params@) == Some((m.0@, m.1@)),
            None => agent_message(method@, params@) is None,
        },
{
    if !text::same(method, "item/completed") {
        return None;
    }
    let item = match params.get("item") {
        Some(i) => i,
        None => return None,
    };
    match item.get_str("type") {
        Some(t) => {
            if !text::same(t, "agentMessage") {
                return None;
            }
        },
        None => return None,
    }
    match item.get_str("id") {
        None => None,
        Some(id) => {
            let t = match item.get_str("text") {
                Some(t) => t.to_owned(),
                None => String::new(),
            };
            Some((id.to_owned(), t))
        },
    }
}

fn has_id(ids: &Vec<String>, id: &str) -> (r: bool)
    ensures
        r == text::views(ids@).contains(id@),
{
    let ghost all = text::views(ids@);
    let mut i: usize = 0;
    while i < ids.len()
        invariant
            i <= ids@.len(),
            all == text::views(ids@),
            forall|j: int| 0 <= j < i ==> all[j] != id@,
        decreases ids@.len() - i,
    {
        assert(all[i as int] == ids@[i as int]@);
        if text::same(ids[i].as_str(), id) {
            return true;
        }
        i += 1;
    }
    false
}

/// Reads the agent's final text out of a turn's notifications: completed agent
/// messages only, each once.
pub fn extract_final_text(notifs: &Vec<(String, Json)>) -> (r: String)
    ensures
        r@ == final_text(assertions::notification_views(notifs@)),
{
    let ghost all = assertions::notification_views(notifs@);
    let mut ids: Vec<String> = Vec::new();
    let mut texts: Vec<String> = Vec::new();
    let mut i: usize = 0;
    assert(all.take(0) =~= Seq::empty());
    assert(text::views(ids@) =~= Seq::empty());
    assert(text::views(texts@) =~= Seq::empty());
    while i < notifs.len()
        invariant
            i <= notifs@.len(),
            all == assertions::notification_views(notifs@),
            text::views(ids@) == heard(all.take(i as int)).ids,
            text::views(texts@) == heard(all.take(i as int)).texts,
        decreases notifs@.len() - i,
    {
        assert(all.take(i + 1).drop_last() =~= all.take(i as int));
        assert(all[i as int] == (notifs@[i as int].0@, notifs@[i as int].1@));
        if let Some((id, t)) = read_agent_message(notifs[i].0.as_str(), &notifs[i].1) {
            if !has_id(&ids, id.as_str()) {
                let ghost seen = text::views(ids@);
                let ghost said = text::views(texts@);
                ids.push(id);
                assert(text::views(ids@) =~= seen.push(id@));
                if !t.as_str().is_empty() {
                    texts.push(t);
                    assert(text::views(texts@) =~= said.push(t@));
                }
            }
        }
        i += 1;
    }
    assert(all.take(i as int) =~= all);
    text::join(&texts, "\n\n")
}

/// Reporting a message again changes nothing, and neither does a notification
/// that is no completed message of the agent.
pub proof fn repeated_messages_change_nothing(
    n: Seq<(Seq<char>, JsonView)>,
    method: Seq<char>,
    params: JsonView,
)
    requires
        match agent_message(method, params) {
            Some((id, _)) => heard(n).ids.contains(id),
            None => true,
        },
    ensures
        final_text(n.push((method, params))) == final_text(n),
{
    assert(n.push((method, params)).drop_last() =~= n);
}

// ---------------------------------------------------------------------------
// Driving a fixture

/// Where a fixture's run stands.
#[derive(Debug, Clone, Copy, PartialEq, Eq, Structural)]
pub enum DriveStage {
    /// The thread is being started.
    Thread,
    /// The kickoff turn is being started.
    Kickoff,
    /// The kickoff turn is running.
    KickoffTurn,
    /// The fixture's turn is being started.
    User,
    /// The fixture's turn is running.
    UserTurn,
    /// The run is over.
    Over,
}

/// One fixture's run, after the connection is up.
#[derive(Debug)]
pub struct FixtureDrive {
    pub stage: DriveStage,
    pub thread_id: String,
    pub kickoff_prompt: String,
    pub user_turn: String,
}

/// What is to be done next.
#[derive(Debug)]
pub enum DriveAction {
    /// Send a request and hand its answer to `on_answer`.
    Request { method: &'static str, params: Json, budget_secs: u64 },
    /// Collect notifications up to this one and hand them to `on_drained`.
    Drain { stop_method: &'static str, budget_secs: u64 },
    /// The run gave a result.
    Finish(TurnResult),
    /// The run failed.
    Fail(String),
}

#[verifier::ext_equal]
pub ghost enum DriveActionView {
    Request { method: Seq<char>, params: JsonView, budget_secs: u64 },
    Drain { stop_method: Seq<char>, budget_secs: u64 },
    Finish(assertions::TurnView),
    Fail(Seq<char>),
}

impl View for DriveAction {
    type V = DriveActionView;

    open spec fn view(&self) -> DriveActionView {
        match *self {
            DriveAction::Request { method, params, budget_secs } => DriveActionView::Request {
                method: method@,
                params: params@,
                budget_secs,
            },
            DriveAction::Drain { stop_method, budget_secs } => DriveActionView::Drain {
                stop_method: stop_method@,
                budget_secs,
            },
            DriveAction::Finish(t) => DriveActionView::Finish(t@),
            DriveAction::Fail(e) => DriveActionView::Fail(e@),
        }
    }
}

/// The request that starts a turn.
pub open spec fn turn_request(thread_id: Seq<char>, input: Seq<char>) -> DriveActionView {
    DriveActionView::Request {
        method: "turn/start"@,
        params: turn_start_view(thread_id, input),
        budget_secs: TURN_START_BUDGET_SECS,
    }
}

/// Collecting a turn's notifications.
pub open spec fn turn_drain() -> DriveActionView {
    DriveActionView::Drain { stop_method: "turn/completed"@, budget_secs: TURN_BUDGET_SECS }
}

/// An answer, or why there is none.
pub open spec fn answer_view(r: Result<Json, String>) -> Result<JsonView, Seq<char>> {
    match r {
        Ok(j) => Ok(j@),
        Err(e) => Err(e@),
    }
}

/// What follows an answer.
pub open spec fn answered(
    d: FixtureDrive,
    answer: Result<JsonView, Seq<char>>,
) -> (DriveStage, Seq<char>, DriveActionView) {
    match answer {
        Err(e) => (DriveStage::Over, d.thread_id@, DriveActionView::Fail(e)),
        Ok(v) => if d.stage == DriveStage::Thread {
            match thread_id_of(v) {
                Some(id) => (DriveStage::Kickoff, id, turn_request(id, d.kickoff_prompt@)),
                None => (
                    DriveStage::Over,
                    d.thread_id@,
                    DriveActionView::Fail(
                        "thread/start response missing thread id: "@ + json::rendered(v),
                    ),
                ),
            }
        } else if d.stage == DriveStage::Kickoff {
            (DriveStage::KickoffTurn, d.thread_id@, turn_drain())
        } else {
            (DriveStage::UserTurn, d.thread_id@, turn_drain())
        },
    }
}

/// What a finished turn gives.
pub open spec fn turn_of(n: Seq<(Seq<char>, JsonView)>) -> assertions::TurnView {
    assertions::TurnView { final_text: final_text(n), notifications: n }
}

/// What follows a drain: the fixture's turn after the kickoff, the result after
/// the fixture's turn.
pub open spec fn drained(
    d: FixtureDrive,
    notifications: Result<Seq<(Seq<char>, JsonView)>, Seq<char>>,
) -> (DriveStage, DriveActionView) {
    match notifications {
        Err(e) => (DriveStage::Over, DriveActionView::Fail(e)),
        Ok(n) => if d.stage == DriveStage::KickoffTurn {
            (DriveStage::User, turn_request(d.thread_id@, d.user_turn@))
        } else {
            (DriveStage::Over, DriveActionView::Finish(turn_of(n)))
        },
    }
}

impl FixtureDrive {
    /// The same run, at another point.
    pub open spec fn same_run(self, other: FixtureDrive) -> bool {
        self.kickoff_prompt@ == other.kickoff_prompt@ && self.user_turn@ == other.user_turn@
    }

    /// Begins a run: the thread is started first.
    pub fn start(
        cwd: &str,
        composed: &ComposeOutput,
        team_mcp: Option<&str>,
        memory_mcp: Option<&str>,
        user_turn: &str,
    ) -> (r: (FixtureDrive, DriveAction))
        ensures
            r.0.stage == DriveStage::Thread,
            r.0.kickoff_prompt@ == composed.kickoff_prompt@,
            r.0.user_turn@ == user_turn@,
            r.1@ == (DriveActionView::Request {
                method: "thread/start"@,
                params: thread_start_view(
                    cwd@,
                    composed.developer_instructions@,
                    text::opt_str_view(team_mcp),
                    text::opt_str_view(memory_mcp),
                ),
                budget_secs: THREAD_START_BUDGET_SECS,
            }),
    {
        let drive = FixtureDrive {
            stage: DriveStage::Thread,
            thread_id: String::new(),
            kickoff_prompt: composed.kickoff_prompt.clone(),
            user_turn: user_turn.to_owned(),
        };
        let params = thread_start_params(
            cwd,
            composed.developer_instructions.as_str(),
            team_mcp,
            memory_mcp,
        );
        (
            drive,
            DriveAction::Request {
                method: "thread/start",
                params,
                budget_secs: THREAD_START_BUDGET_SECS,
            },
        )
    }

    /// Takes the answer to the request in flight.
    pub fn on_answer(&mut self, answer: Result<Json, String>) -> (a: DriveAction)
        requires
            old(self).stage == DriveStage::Thread || old(self).stage == DriveStage::Kickoff || old(
                self,
            ).stage == DriveStage::User,
        ensures
            final(self).same_run(*old(self)),
            (final(self).stage, final(self).thread_id@, a@) == answered(
                *old(self),
                answer_view(answer),
            ),
    {
        let v = match answer {
            Ok(v) => v,
            Err(e) => {
                self.stage = DriveStage::Over;
                return DriveAction::Fail(e);
            },
        };
        if self.stage == DriveStage::Thread {
            match extract_thread_id(&v) {
                Some(id) => {
                    let params = turn_start_params(id.as_str(), self.kickoff_prompt.as_str());
                    self.thread_id = id;
                    self.stage = DriveStage::Kickoff;
                    DriveAction::Request {
                        method: "turn/start",
                        params,
                        budget_secs: TURN_START_BUDGET_SECS,
                    }
                },
                None => {
                    self.stage = DriveStage::Over;
                    DriveAction::Fail(
                        "thread/start response missing thread id: ".to_owned().concat(
                            v.to_text().as_str(),
                        ),
                    )
                },
            }
        } else {
            if self.stage == DriveStage::Kickoff {
                self.stage = DriveStage::KickoffTurn;
            } else {
                self.stage = DriveStage::UserTurn;
            }
            DriveAction::Drain { stop_method: "turn/completed", budget_secs: TURN_BUDGET_SECS }
        }
    }

    /// Takes the notifications of the turn that was running.
    pub fn on_drained(&mut self, notifications: Result<Vec<(String, Json)>, String>) -> (a:
        DriveAction)
        requires
            old(self).stage == DriveStage::KickoffTurn || old(self).stage == DriveStage::UserTurn,
        ensures
            final(self).same_run(*old(self)),
            final(self).thread_id@ == old(self).thread_id@,
            (final(self).stage, a@) == drained(
                *old(self),
                match notifications {
                    Ok(n) => Ok(assertions::notification_views(n@)),
                    Err(e) => Err(e@),
                },
            ),
    {
        let n = match notifications {
            Ok(n) => n,
            Err(e) => {
                self.stage = DriveStage::Over;
                return DriveAction::Fail(e);
            },
        };
        if self.stage == DriveStage::KickoffTurn {
            self.stage = DriveStage::User;
            let params = turn_start_params(self.thread_id.as_str(), self.user_turn.as_str());
            DriveAction::Request {
                method: "turn/start",
                params,
                budget_secs: TURN_START_BUDGET_SECS,
            }
        } else {
            self.stage = DriveStage::Over;
            let final_text = extract_final_text(&n);
            DriveAction::Finish(TurnResult { final_text, notifications: n })
        }
    }
}

/// A run that meets no failure starts the thread, runs the kickoff turn, then
/// the fixture's turn, and gives what the latter came to: the kickoff turn's
/// notifications are not part of it.
pub proof fn smooth_run_gives_user_turn(
    d: FixtureDrive,
    started: JsonView,
    thread_id: Seq<char>,
    kickoff: Seq<(Seq<char>, JsonView)>,
    user: Seq<(Seq<char>, JsonView)>,
    a: JsonView,
    b: JsonView,
    at_kickoff: FixtureDrive,
    in_kickoff: FixtureDrive,
    at_user: FixtureDrive,
    in_user: FixtureDrive,
)
    requires
        d.stage == DriveStage::Thread,
        thread_id_of(started) == Some(thread_id),
        at_kickoff.same_run(d) && at_kickoff.stage == answered(d, Ok(started)).0
            && at_kickoff.thread_id@ == answered(d, Ok(started)).1,
        in_kickoff.same_run(at_kickoff) && in_kickoff.stage == answered(at_kickoff, Ok(a)).0
            && in_kickoff.thread_id@ == answered(at_kickoff, Ok(a)).1,
        at_user.same_run(in_kickoff) && at_user.stage == drained(in_kickoff, Ok(kickoff)).0
            && at_user.thread_id@ == in_kickoff.thread_id@,
        in_user.same_run(at_user) && in_user.stage == answered(at_user, Ok(b)).0
            && in_user.thread_id@ == answered(at_user, Ok(b)).1,
    ensures
        answered(d, Ok(started)).2 == turn_request(thread_id, d.kickoff_prompt@),
        answered(at_kickoff, Ok(a)).2 == turn_drain(),
        drained(in_kickoff, Ok(kickoff)).1 == turn_request(thread_id, d.user_turn@),
        answered(at_user, Ok(b)).2 == turn_drain(),
        drained(in_user, Ok(user)) == (DriveStage::Over, DriveActionView::Finish(turn_of(user))),
{
}

// ---------------------------------------------------------------------------
// Laws of what is sent

/// The turn that is started carries the whole input, as one text, into the thread.
pub proof fn turns_carry_the_whole_input(thread_id: Seq<char>, input: Seq<char>)
    ensures
        ({
            let v = turn_start_view(thread_id, input);
            let items = v.items_field("input"@);
            &&& v.string_field("threadId"@) == Some(thread_id)
            &&& items is Some
            &&& items->0.len() == 1
            &&& items->0[0].string_field("type"@) == Some("text"@)
            &&& items->0[0].string_field("text"@) == Some(input)
        }),
{
    reveal_strlit("threadId");
    reveal_strlit("input");
    reveal_strlit("type");
    reveal_strlit("text");
    reveal_strlit("textElements");
    assert("threadId"@.len() == 8 && "input"@.len() == 5);
    assert("type"@[1] == 'y' && "text"@[1] == 'e' && "textElements"@.len() == 12);
    assert("type"@.len() == 4 && "text"@.len() == 4);
    let v = turn_start_view(thread_id, input);
    assert(v.field("threadId"@) == Some(JsonView::Str(thread_id)));
    let item = v.items_field("input"@)->0[0];
    assert(item.field("type"@) == Some(JsonView::Str("text"@)));
    assert(item.field("text"@) == Some(JsonView::Str(input)));
}

/// The thread that is started gets the directory and the instructions as they are, may
/// do all and asks for nothing; it is told of servers exactly where the team server is
/// there, and of the memory server where that was found too.
pub proof fn threads_start_as_they_are_told(
    cwd: Seq<char>,
    instructions: Seq<char>,
    team_mcp: Seq<char>,
    memory_mcp: Seq<char>,
)
    ensures
        ({
            let bare = thread_start_view(cwd, instructions, None, Some(memory_mcp));
            let team = thread_start_view(cwd, instructions, Some(team_mcp), None);
            let both = thread_start_view(cwd, instructions, Some(team_mcp), Some(memory_mcp));
            let told = |v: JsonView|
                v.string_field("cwd"@) == Some(cwd) && v.string_field("developerInstructions"@)
                    == Some(instructions) && v.string_field("approvalPolicy"@) == Some("never"@)
                    && v.string_field("sandbox"@) == Some("danger-full-access"@);
            &&& told(bare) && told(team) && told(both)
            &&& bare.field("config"@) is None
            &&& team.field("config"@) is Some
            &&& team.field("config"@)->0.field("mcp_servers.opencrab-memory"@) is None
            &&& nested_string(
                team.field("config"@)->0,
                "mcp_servers.opencrab-team"@,
                "command"@,
            ) == Some(team_mcp)
            &&& both.field("config"@) is Some
            &&& nested_string(
                both.field("config"@)->0,
                "mcp_servers.opencrab-team"@,
                "command"@,
            ) == Some(team_mcp)
            &&& nested_string(
                both.field("config"@)->0,
                "mcp_servers.opencrab-memory"@,
                "command"@,
            ) == Some(memory_mcp)
        }),
{
    reveal_strlit("cwd");
    reveal_strlit("approvalPolicy");
    reveal_strlit("sandbox");
    reveal_strlit("developerInstructions");
    reveal_strlit("config");
    reveal_strlit("command");
    reveal_strlit("args");
    reveal_strlit("mcp_servers.opencrab-team");
    reveal_strlit("mcp_servers.opencrab-memory");
    assert("cwd"@.len() == 3 && "approvalPolicy"@.len() == 14 && "sandbox"@.len() == 7);
    assert("developerInstructions"@.len() == 21 && "config"@.len() == 6);
    assert("command"@.len() == 7 && "args"@.len() == 4);
    assert("mcp_servers.opencrab-team"@.len() == 25);
    assert("mcp_servers.opencrab-memory"@.len() == 27);
    let bare = thread_start_view(cwd, instructions, None, Some(memory_mcp));
    let team = thread_start_view(cwd, instructions, Some(team_mcp), None);
    let both = thread_start_view(cwd, instructions, Some(team_mcp), Some(memory_mcp));
    assert(bare.field("cwd"@) == Some(JsonView::Str(cwd)));
    assert(team.field("cwd"@) == Some(JsonView::Str(cwd)));
    assert(both.field("cwd"@) == Some(JsonView::Str(cwd)));
    assert(bare.field("approvalPolicy"@) == Some(JsonView::Str("never"@)));
    assert(team.field("approvalPolicy"@) == Some(JsonView::Str("never"@)));
    assert(both.field("approvalPolicy"@) == Some(JsonView::Str("never"@)));
    assert(bare.field("sandbox"@) == Some(JsonView::Str("danger-full-access"@)));
    assert(team.field("sandbox"@) == Some(JsonView::Str("danger-full-access"@)));
    assert(both.field("sandbox"@) == Some(JsonView::Str("danger-full-access"@)));
    assert(bare.field("developerInstructions"@) == Some(JsonView::Str(instructions)));
    assert(team.field("developerInstructions"@) == Some(JsonView::Str(instructions)));
    assert(both.field("developerInstructions"@) == Some(JsonView::Str(instructions)));
    assert(team.field("config"@) == Some(servers_view(team_mcp, None)));
    assert(both.field("config"@) == Some(servers_view(team_mcp, Some(memory_mcp))));
    let args = seq![JsonView::Str("--agent-id"@), JsonView::Str("_eval"@)];
    let one = server_view(team_mcp, Seq::empty());
    let two = server_view(memory_mcp, args);
    assert(one.field("command"@) == Some(JsonView::Str(team_mcp)));
    assert(two.field("command"@) == Some(JsonView::Str(memory_mcp)));
    assert(servers_view(team_mcp, None).field("mcp_servers.opencrab-team"@) == Some(one));
    assert(servers_view(team_mcp, Some(memory_mcp)).field("mcp_servers.opencrab-team"@) == Some(
        one,
    ));
    assert(servers_view(team_mcp, Some(memory_mcp)).field("mcp_servers.opencrab-memory"@) == Some(
        two,
    ));
}

/// The configuration holds the whole token between quotes, and the team server's whole
/// path exactly where there is one, behind all that is there without it.
pub proof fn configuration_holds_what_is_given(bearer: Seq<char>, path: Seq<char>)
    ensures
        text::has(
            config_text(bearer, None),
            "experimental_bearer_token = \""@ + bearer + "\"\n"@,
        ),
        text::begins(config_text(bearer, Some(path)), config_text(bearer, None)),
        text::has(config_text(bearer, Some(path)), "command = \""@ + path + "\"\n"@),
{
    let head =
        "model = \"qwen3.5-plus\"\nmodel_provider = \"opencrab\"\n\n[model_providers]\n\n[model_providers.opencrab]\nname = \"opencrab\"\nbase_url = \"https://dashscope.aliyuncs.com/compatible-mode/v1\"\nexperimental_bearer_token = \""@;
    let tail =
        "\"\nwire_api = \"responses\"\n\n[features]\ncollaboration_modes = true\nsteer = true\nunified_exec = true\napps = false\n"@;
    reveal_strlit(
        "model = \"qwen3.5-plus\"\nmodel_provider = \"opencrab\"\n\n[model_providers]\n\n[model_providers.opencrab]\nname = \"opencrab\"\nbase_url = \"https://dashscope.aliyuncs.com/compatible-mode/v1\"\nexperimental_bearer_token = \"",
    );
    reveal_strlit(
        "\"\nwire_api = \"responses\"\n\n[features]\ncollaboration_modes = true\nsteer = true\nunified_exec = true\napps = false\n",
    );
    reveal_strlit("experimental_bearer_token = \"");
    reveal_strlit("\"\n");
    reveal_strlit("\n[mcp_servers.opencrab-team]\ncommand = \"");
    reveal_strlit("\"\nargs = []\n");
    reveal_strlit("command = \"");
    let key = "experimental_bearer_token = \""@;
    let n = head.len() - key.len();
    assert(head.skip(n) =~= key);
    assert(tail.take(2) =~= "\"\n"@);
    let bare = config_text(bearer, None);
    let m = key + bearer + "\"\n"@;
    assert(bare =~= head.take(n) + m + tail.skip(2));
    text::parts_stand_in_the_whole(head.take(n), m, tail.skip(2));
    let full = config_text(bearer, Some(path));
    let open = "\n[mcp_servers.opencrab-team]\ncommand = \""@;
    let close = "\"\nargs = []\n"@;
    assert(full =~= bare + (open + path + close));
    text::parts_stand_in_the_whole(Seq::empty(), bare, open + path + close);
    let word = "command = \""@;
    let k = open.len() - word.len();
    assert(open.skip(k) =~= word);
    assert(close.take(2) =~= "\"\n"@);
    let w = word + path + "\"\n"@;
    assert(full =~= (bare + open.take(k)) + w + close.skip(2));
    text::parts_stand_in_the_whole(bare + open.take(k), w, close.skip(2));
}

/// `value` stands right behind `name` among the arguments.
pub open spec fn is_set(args: Seq<Seq<char>>, name: Seq<char>, value: Seq<char>) -> bool {
    exists|i: int| 0 <= i < args.len() - 1 && #[trigger] args[i] == name && args[i + 1] == value
}

/// The composer is run on the script and is given each setting behind its name; the
/// tools mode is asked for exactly where it is wanted.
pub proof fn composer_is_given_its_settings(
    script: Seq<char>,
    sidecar_root: Seq<char>,
    user_data: Seq<char>,
    project_data: Seq<char>,
    agent_id: Seq<char>,
    tools_mode: bool,
)
    ensures
        ({
            let args = compose_view(
                script,
                sidecar_root,
                user_data,
                project_data,
                agent_id,
                tools_mode,
            );
            &&& args[0] == "--yes"@ && args[1] == "tsx"@ && args[2] == script
            &&& is_set(args, "--sidecar-root"@, sidecar_root)
            &&& is_set(args, "--user-data"@, user_data)
            &&& is_set(args, "--project-data"@, project_data)
            &&& is_set(args, "--agent-id"@, agent_id)
            &&& args.len() == (if tools_mode {
                12nat
            } else {
                11
            })
            &&& tools_mode ==> args[11] == "--tools-mode"@
        }),
{
    let args = compose_view(script, sidecar_root, user_data, project_data, agent_id, tools_mode);
    assert(args[3] == "--sidecar-root"@ && args[4] == sidecar_root);
    assert(args[5] == "--user-data"@ && args[6] == user_data);
    assert(args[7] == "--project-data"@ && args[8] == project_data);
    assert(args[9] == "--agent-id"@ && args[10] == agent_id);
}

// ---------------------------------------------------------------------------
// Laws of what is heard

/// A response names its thread in one of three places, the nearest first.
pub proof fn thread_ids_are_found(fields: Map<Seq<char>, JsonView>, id: Seq<char>)
    ensures
        ({
            let v = JsonView::Object(fields);
            let direct = fields.contains_key("threadId"@) && fields["threadId"@] is Str;
            let inner = nested_string(v, "thread"@, "id"@);
            &&& direct ==> thread_id_of(v) == Some(fields["threadId"@]->Str_0)
            &&& !direct && inner is Some ==> thread_id_of(v) == inner
            &&& !direct && inner is None && fields.contains_key("result"@) ==> thread_id_of(v)
                == nested_string(fields["result"@], "thread"@, "id"@)
            &&& !direct && inner is None && !fields.contains_key("result"@) ==> thread_id_of(v)
                is None
        }),
{
}

/// A completed message of the agent is taken with its id and its whole text; nothing
/// else is a message of the agent.
pub proof fn agent_messages_are_told_by_their_fields(
    method: Seq<char>,
    params: Map<Seq<char>, JsonView>,
    item: Map<Seq<char>, JsonView>,
)
    requires
        params.contains_key("item"@),
        params["item"@] == JsonView::Object(item),
    ensures
        ({
            let m = agent_message(method, JsonView::Object(params));
            let spoken = method == "item/completed"@ && item.contains_key("type"@) && item["type"@]
                == JsonView::Str("agentMessage"@) && item.contains_key("id"@) && item["id"@] is Str;
            &&& m is Some <==> spoken
            &&& spoken ==> m->Some_0.0 == item["id"@]->Str_0
            &&& spoken && item.contains_key("text"@) && item["text"@] is Str ==> m->Some_0.1
                == item["text"@]->Str_0
        }),
{
}

/// A message is known once it has been reported, and only then.
pub proof fn reported_messages_are_known(n: Seq<(Seq<char>, JsonView)>, id: Seq<char>)
    ensures
        heard(n).ids.contains(id) <==> exists|i: int|
            0 <= i < n.len() && agent_message((#[trigger] n[i]).0, n[i].1) is Some
                && agent_message(n[i].0, n[i].1)->Some_0.0 == id,
    decreases n.len(),
{
    if n.len() > 0 {
        let init = n.drop_last();
        let before = heard(init).ids;
        let all = heard(n).ids;
        let last = n.len() - 1;
        reported_messages_are_known(init, id);
        assert(n[last] == n.last());
        if before.contains(id) {
            let k = choose|k: int| 0 <= k < before.len() && before[k] == id;
            assert(all[k] == id);
            let i = choose|i: int|
                0 <= i < init.len() && agent_message((#[trigger] init[i]).0, init[i].1) is Some
                    && agent_message(init[i].0, init[i].1)->Some_0.0 == id;
            assert(n[i] == init[i]);
        } else if agent_message(n.last().0, n.last().1) is Some && agent_message(
            n.last().0,
            n.last().1,
        )->Some_0.0 == id {
            assert(all[before.len() as int] == id);
        } else {
            assert(!all.contains(id)) by {
                if all.contains(id) {
                    let k = choose|k: int| 0 <= k < all.len() && all[k] == id;
                    if k < before.len() {
                        assert(before[k] == id);
                    }
                }
            }
            assert forall|i: int|
                0 <= i < n.len() && agent_message((#[trigger] n[i]).0, n[i].1) is Some
                    && agent_message(n[i].0, n[i].1)->Some_0.0 == id implies false by {
                if i < last {
                    assert(init[i] == n[i]);
                }
            }
        }
    }
}

/// A message that is reported for the first time goes whole to the end of the final
/// text, behind a blank line where something stands before it.
pub proof fn new_messages_are_added_whole(
    n: Seq<(Seq<char>, JsonView)>,
    method: Seq<char>,
    params: JsonView,
    id: Seq<char>,
    said: Seq<char>,
)
    requires
        agent_message(method, params) == Some((id, said)),
        !heard(n).ids.contains(id),
        said.len() > 0,
    ensures
        final_text(n.push((method, params))) == (if heard(n).texts.len() == 0 {
            said
        } else {
            final_text(n) + seq!['\n', '\n'] + said
        }),
        text::ends(final_text(n.push((method, params))), said),
{
    reveal_strlit("\n\n");
    assert("\n\n"@ =~= seq!['\n', '\n']);
    let all = n.push((method, params));
    assert(all.drop_last() =~= n);
    let texts = heard(n).texts;
    assert(heard(all).texts == texts.push(said));
    assert(texts.push(said).drop_last() =~= texts);
    if texts.len() > 0 {
        text::parts_stand_in_the_whole(final_text(n) + "\n\n"@, said, Seq::empty());
    } else {
        text::parts_stand_in_the_whole(Seq::empty(), said, Seq::empty());
        assert(Seq::empty() + said =~= said);
    }
}

/// Every message of the agent that says something stands in the final text, word for
/// word, as it was first reported.
pub proof fn every_message_is_in_the_final_text(n: Seq<(Seq<char>, JsonView)>, i: int)
    requires
        0 <= i < n.len(),
        agent_message(n[i].0, n[i].1) is Some,
        agent_message(n[i].0, n[i].1)->Some_0.1.len() > 0,
        forall|j: int|
            0 <= j < i ==> (agent_message((#[trigger] n[j]).0, n[j].1) is None || agent_message(
                n[j].0,
                n[j].1,
            )->Some_0.0 != agent_message(n[i].0, n[i].1)->Some_0.0),
    ensures
        text::has(final_text(n), agent_message(n[i].0, n[i].1)->Some_0.1),
{
    said_is_kept(n, i);
    let said = agent_message(n[i].0, n[i].1)->Some_0.1;
    let texts = heard(n).texts;
    let k = choose|k: int| 0 <= k < texts.len() && texts[k] == said;
    text::each_part_is_in_the_whole(texts, "\n\n"@, k);
}

proof fn said_is_kept(n: Seq<(Seq<char>, JsonView)>, i: int)
    requires
        0 <= i < n.len(),
        agent_message(n[i].0, n[i].1) is Some,
        agent_message(n[i].0, n[i].1)->Some_0.1.len() > 0,
        forall|j: int|
            0 <= j < i ==> (agent_message((#[trigger] n[j]).0, n[j].1) is None || agent_message(
                n[j].0,
                n[j].1,
            )->Some_0.0 != agent_message(n[i].0, n[i].1)->Some_0.0),
    ensures
        heard(n).texts.contains(agent_message(n[i].0, n[i].1)->Some_0.1),
    decreases n.len(),
{
    let init = n.drop_last();
    let (id, said) = agent_message(n[i].0, n[i].1)->0;
    let before = heard(init).texts;
    let all = heard(n).texts;
    if i < n.len() - 1 {
        assert(init[i] == n[i]);
        assert forall|j: int| 0 <= j < i implies (agent_message((#[trigger] init[j]).0, init[j].1)
            is None || agent_message(init[j].0, init[j].1)->Some_0.0 != id) by {
            assert(init[j] == n[j]);
        }
        said_is_kept(init, i);
        let k = choose|k: int| 0 <= k < before.len() && before[k] == said;
        assert(all[k] == said);
    } else {
        reported_messages_are_known(init, id);
        if heard(init).ids.contains(id) {
            let j = choose|j: int|
                0 <= j < init.len() && agent_message((#[trigger] init[j]).0, init[j].1) is Some
                    && agent_message(init[j].0, init[j].1)->Some_0.0 == id;
            assert(init[j] == n[j]);
        }
        assert(all[before.len() as int] == said);
    }
}

// ---------------------------------------------------------------------------
// Laws of the run

/// A failure at any point ends the run and is given as it is; nothing is asked after it.
pub proof fn failures_end_the_run(d: FixtureDrive, why: Seq<char>)
    ensures
        answered(d, Err(why)).0 == DriveStage::Over,
        answered(d, Err(why)).2 == DriveActionView::Fail(why),
        drained(d, Err(why)) == (DriveStage::Over, DriveActionView::Fail(why)),
{
}

/// A thread that was not named fails the run.
pub proof fn unnamed_threads_fail_the_run(d: FixtureDrive, v: JsonView)
    requires
        d.stage == DriveStage::Thread,
        thread_id_of(v) is None,
    ensures
        answered(d, Ok(v)).0 == DriveStage::Over,
        answered(d, Ok(v)).2 is Fail,
        text::ends(answered(d, Ok(v)).2->Fail_0, json::rendered(v)),
{
    text::parts_stand_in_the_whole(
        "thread/start response missing thread id: "@,
        json::rendered(v),
        Seq::empty(),
    );
}

/// The result of a run is the fixture's own turn: all of its notifications and what the agent
/// said in them.
pub proof fn results_are_the_whole_turn(d: FixtureDrive, n: Seq<(Seq<char>, JsonView)>)
    requires
        d.stage == DriveStage::UserTurn,
    ensures
        drained(d, Ok(n)).1 is Finish,
        drained(d, Ok(n)).1->Finish_0.notifications == n,
        drained(d, Ok(n)).1->Finish_0.final_text == final_text(n),
{
}

/// A turn is started in its thread with its whole input and collected up to its end, each
/// within its own time.
pub proof fn turns_are_started_and_collected(thread_id: Seq<char>, input: Seq<char>)
    ensures
        turn_request(thread_id, input) == (DriveActionView::Request {
            method: "turn/start"@,
            params: turn_start_view(thread_id, input),
            budget_secs: 60,
        }),
        turn_drain() == (DriveActionView::Drain {
            stop_method: "turn/completed"@,
            budget_secs: 180,
        }),
{
}

/// The handshake names the client by name, title and version, asks for the experimental
/// interface, and says nothing else.
pub proof fn handshakes_name_the_client(version: Seq<char>)
    ensures
        ({
            let v = initialize_view(version);
            let client = v.field("clientInfo"@);
            let wanted = v.field("capabilities"@);
            &&& client is Some
            &&& client->0.string_field("name"@) == Some("codex_monitor"@)
            &&& client->0.string_field("title"@) == Some("Codex Monitor"@)
            &&& client->0.string_field("version"@) == Some(version)
            &&& wanted is Some
            &&& wanted->0.field("experimentalApi"@) == Some(JsonView::Bool(true))
            &&& forall|key: Seq<char>| #[trigger]
                v.field(key) is Some ==> key == "clientInfo"@ || key == "capabilities"@
            &&& forall|key: Seq<char>| #[trigger]
                client->0.field(key) is Some ==> key == "name"@ || key == "title"@ || key
                    == "version"@
        }),
{
    reveal_strlit("clientInfo");
    reveal_strlit("capabilities");
    reveal_strlit("name");
    reveal_strlit("title");
    reveal_strlit("version");
    assert("clientInfo"@.len() == 10 && "capabilities"@.len() == 12);
    assert("name"@.len() == 4 && "title"@.len() == 5 && "version"@.len() == 7);
    let v = initialize_view(version);
    let client = v.field("clientInfo"@)->0;
    assert(client.field("name"@) == Some(JsonView::Str("codex_monitor"@)));
    assert(client.field("title"@) == Some(JsonView::Str("Codex Monitor"@)));
    assert(client.field("version"@) == Some(JsonView::Str(version)));
}

} // verus!
