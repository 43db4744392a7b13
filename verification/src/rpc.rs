//! JSON-RPC over a message socket: one client, serial requests, and the
//! notifications that arrive in between.
use crate::assertions;
use crate::json;
use crate::json::Json;
use crate::json::JsonView;
use crate::json::NumberView;
use crate::text;
use vstd::prelude::*;
use vstd::string::*;

verus! {

/// What came off the socket.
#[derive(Debug)]
pub enum FrameEvent {
    /// A text frame.
    Text(String),
    /// A frame that carries no message.
    Control,
    /// The peer closed the connection with a frame.
    Closed,
    /// The stream ended.
    Ended,
    /// Receiving failed.
    Failed(String),
    /// The time limit passed while waiting.
    TimedOut,
}

/// A notification: method and parameters.
pub type NotificationView = (Seq<char>, JsonView);

/// The envelope of a request.
pub open spec fn request_envelope(id: u64, method: Seq<char>, params: JsonView) -> JsonView {
    JsonView::Object(
        Map::empty().insert("jsonrpc"@, JsonView::Str("2.0"@)).insert(
            "id"@,
            JsonView::Number(NumberView::Integer(id as int)),
        ).insert("method"@, JsonView::Str(method)).insert("params"@, params),
    )
}

/// The envelope of a notification.
pub open spec fn notification_envelope(method: Seq<char>, params: JsonView) -> JsonView {
    JsonView::Object(
        Map::empty().insert("jsonrpc"@, JsonView::Str("2.0"@)).insert(
            "method"@,
            JsonView::Str(method),
        ).insert("params"@, params),
    )
}

/// The notification that a message is: it names a method and has no id.
pub open spec fn notification_in(v: JsonView) -> Option<NotificationView> {
    match v.string_field("method"@) {
        None => None,
        Some(method) => if v.field("id"@) is Some {
            None
        } else {
            Some(
                (
                    method,
                    match v.field("params"@) {
                        Some(p) => p,
                        None => JsonView::Null,
                    },
                ),
            )
        },
    }
}

/// The message answers the request with this id.
pub open spec fn answers(v: JsonView, id: u64) -> bool {
    v.field("id"@) is Some && v.field("id"@)->0.uint64() == Some(id)
}

/// What an answer says: the result, null where there is none, or the error.
pub open spec fn answer_of(v: JsonView, method: Seq<char>) -> Result<JsonView, Seq<char>> {
    match v.field("error"@) {
        Some(e) => Err("ws "@ + method + " error: "@ + json::rendered(e)),
        None => Ok(
            match v.field("result"@) {
                Some(r) => r,
                None => JsonView::Null,
            },
        ),
    }
}

/// What a message does while a request waits: it answers it, or is kept as a
/// notification, or is ignored.
pub ghost enum Reaction {
    Answer(Result<JsonView, Seq<char>>),
    Keep(NotificationView),
    Ignore,
}

pub open spec fn reaction(v: JsonView, id: u64, method: Seq<char>) -> Reaction {
    if answers(v, id) {
        Reaction::Answer(answer_of(v, method))
    } else {
        match notification_in(v) {
            Some(n) => Reaction::Keep(n),
            None => Reaction::Ignore,
        }
    }
}

/// What becomes of a wait for an answer.
#[derive(Debug)]
pub enum RequestStep {
    /// Keep waiting.
    Wait,
    /// The request is over.
    Over(Result<Json, String>),
}

pub ghost enum RequestStepView {
    Wait,
    Over(Result<JsonView, Seq<char>>),
}

impl View for RequestStep {
    type V = RequestStepView;

    open spec fn view(&self) -> RequestStepView {
        match *self {
            RequestStep::Wait => RequestStepView::Wait,
            RequestStep::Over(r) => RequestStepView::Over(
                match r {
                    Ok(j) => Ok(j@),
                    Err(e) => Err(e@),
                },
            ),
        }
    }
}

/// A client's side of the protocol: the next request id, and the notifications
/// that came in while requests waited.
#[derive(Debug)]
pub struct RpcState {
    pub next_id: u64,
    pub pending: Vec<(String, Json)>,
}

/// What the wait for an answer becomes, and the notifications that are then
/// pending.
pub open spec fn after_frame(
    pending: Seq<NotificationView>,
    id: u64,
    method: Seq<char>,
    budget: Seq<char>,
    event: FrameEvent,
) -> (RequestStepView, Seq<NotificationView>) {
    match event {
        FrameEvent::Control => (RequestStepView::Wait, pending),
        FrameEvent::Closed => (
            RequestStepView::Over(Err("ws closed mid-request"@)),
            pending,
        ),
        FrameEvent::Ended => (RequestStepView::Over(Err("ws closed unexpectedly"@)), pending),
        FrameEvent::Failed(e) => (RequestStepView::Over(Err("ws recv error: "@ + e@)), pending),
        FrameEvent::TimedOut => (
            RequestStepView::Over(Err("ws "@ + method + " timed out after "@ + budget)),
            pending,
        ),
        FrameEvent::Text(t) => match json::parsed(t@) {
            Err(e) => (
                RequestStepView::Over(
                    Err("ws frame is not JSON: "@ + e + "; body="@ + t@),
                ),
                pending,
            ),
            Ok(v) => match reaction(v, id, method) {
                Reaction::Answer(r) => (RequestStepView::Over(r), pending),
                Reaction::Keep(n) => (RequestStepView::Wait, pending.push(n)),
                Reaction::Ignore => (RequestStepView::Wait, pending),
            },
        },
    }
}

fn read_notification(v: &Json) -> (r: Option<(String, Json)>)
    ensures
        match r {
            Some(n) => notification_in(v@) == Some((n.0@, n.1@)),
            None => notification_in(v@) is None,
        },
{
    match v.get_str("method") {
        None => None,
        Some(method) => {
            if v.get("id").is_some() {
                return None;
            }
            let params = match v.get("params") {
                Some(p) => p.copy(),
                None => Json::Null,
            };
            Some((method.to_owned(), params))
        },
    }
}

fn envelope_head() -> (r: Vec<(String, Json)>)
    ensures
        json::fields_view(r@) == Map::<Seq<char>, JsonView>::empty().insert(
            "jsonrpc"@,
            JsonView::Str("2.0"@),
        ),
{
    let fields: Vec<(String, Json)> = Vec::new();
    json::with_field(fields, "jsonrpc", json::string("2.0"))
}

/// The envelope of a notification to be sent.
pub fn notification(method: &str, params: Json) -> (j: Json)
    ensures
        j@ == notification_envelope(method@, params@),
{
    let fields = json::with_field(envelope_head(), "method", json::string(method));
    let fields = json::with_field(fields, "params", params);
    Json::Object(fields)
}

impl RpcState {
    pub fn new() -> (r: RpcState)
        ensures
            r.next_id == 1,
            r.pending@.len() == 0,
    {
        RpcState { next_id: 1, pending: Vec::new() }
    }

    /// Takes the next id and makes the envelope of a request.
    pub fn request(&mut self, method: &str, params: Json) -> (r: (u64, Json))
        requires
            old(self).next_id < u64::MAX,
        ensures
            r.0 == old(self).next_id,
            r.1@ == request_envelope(r.0, method@, params@),
            final(self).next_id == old(self).next_id + 1,
            final(self).pending@ == old(self).pending@,
    {
        let id: u64 = self.next_id;
        self.next_id = id + 1;
        let fields = json::with_field(envelope_head(), "id", Json::UInt(id));
        let fields = json::with_field(fields, "method", json::string(method));
        let fields = json::with_field(fields, "params", params);
        (id, Json::Object(fields))
    }

    /// Takes a decoded message while the request with this id waits.
    pub fn on_message(&mut self, id: u64, method: &str, v: &Json) -> (s: RequestStep)
        ensures
            final(self).next_id == old(self).next_id,
            match reaction(v@, id, method@) {
                Reaction::Answer(r) => s@ == RequestStepView::Over(r) && final(self).pending@
                    == old(self).pending@,
                Reaction::Keep(n) => s@ == RequestStepView::Wait && assertions::notification_views(
                    final(self).pending@,
                ) == assertions::notification_views(old(self).pending@).push(n),
                Reaction::Ignore => s@ == RequestStepView::Wait && final(self).pending@
                    == old(self).pending@,
            },
    {
        let answered = match v.get("id") {
            Some(x) => match x.as_u64() {
                Some(n) => n == id,
                None => false,
            },
            None => false,
        };
        if answered {
            if let Some(e) = v.get("error") {
                return RequestStep::Over(
                    Err(
                        "ws ".to_owned().concat(method).concat(" error: ").concat(
                            e.to_text().as_str(),
                        ),
                    ),
                );
            }
            let result = match v.get("result") {
                Some(r) => r.copy(),
                None => Json::Null,
            };
            return RequestStep::Over(Ok(result));
        }
        if let Some(n) = read_notification(v) {
            let ghost before = assertions::notification_views(self.pending@);
            self.pending.push(n);
            assert(assertions::notification_views(self.pending@) =~= before.push((n.0@, n.1@)));
        }
        RequestStep::Wait
    }

    /// Takes what came off the socket while the request with this id waits.
    /// `budget` is the time limit as it is shown.
    pub fn on_request_frame(
        &mut self,
        id: u64,
        method: &str,
        budget: &str,
        event: FrameEvent,
    ) -> (s: RequestStep)
        ensures
            final(self).next_id == old(self).next_id,
            (s@, assertions::notification_views(final(self).pending@)) == after_frame(
                assertions::notification_views(old(self).pending@),
                id,
                method@,
                budget@,
                event,
            ),
    {
        match event {
            FrameEvent::Control => RequestStep::Wait,
            FrameEvent::Closed => RequestStep::Over(Err("ws closed mid-request".to_owned())),
            FrameEvent::Ended => RequestStep::Over(Err("ws closed unexpectedly".to_owned())),
            FrameEvent::Failed(e) => RequestStep::Over(
                Err("ws recv error: ".to_owned().concat(e.as_str())),
            ),
            FrameEvent::TimedOut => RequestStep::Over(
                Err("ws ".to_owned().concat(method).concat(" timed out after ").concat(budget)),
            ),
            FrameEvent::Text(t) => match Json::from_str(t.as_str()) {
                Err(e) => RequestStep::Over(
                    Err(
                        "ws frame is not JSON: ".to_owned().concat(e.as_str()).concat(
                            "; body=",
                        ).concat(t.as_str()),
                    ),
                ),
                Ok(v) => self.on_message(id, method, &v),
            },
        }
    }
}

// ---------------------------------------------------------------------------
// Draining

/// One of the notifications has this method.
pub open spec fn has_method(n: Seq<NotificationView>, method: Seq<char>) -> bool {
    exists|i: int| 0 <= i < n.len() && (#[trigger] n[i]).0 == method
}

/// What becomes of a drain.
#[derive(Debug)]
pub enum DrainStep {
    /// Keep reading.
    Wait,
    /// The stop method arrived: everything that was collected, itself included.
    Over(Vec<(String, Json)>),
    /// The drain failed.
    Failed(String),
}

/// A drain in progress.
#[derive(Debug)]
pub struct Drain {
    pub stop_method: String,
    pub collected: Vec<(String, Json)>,
}

/// Collecting one message: a notification is added, anything else is ignored.
pub open spec fn collected_after(
    collected: Seq<NotificationView>,
    v: JsonView,
) -> Seq<NotificationView> {
    match notification_in(v) {
        Some(n) => collected.push(n),
        None => collected,
    }
}

/// The message is the notification that the drain waits for.
pub open spec fn is_stop(v: JsonView, stop: Seq<char>) -> bool {
    match notification_in(v) {
        Some((method, _)) => method == stop,
        None => false,
    }
}

impl RpcState {
    /// Begins a drain with what is already pending. It is over at once where
    /// the stop method is among that.
    pub fn start_drain(&mut self, stop_method: &str) -> (r: (Drain, DrainStep))
        ensures
            final(self).next_id == old(self).next_id,
            final(self).pending@.len() == 0,
            r.0.stop_method@ == stop_method@,
            if has_method(assertions::notification_views(old(self).pending@), stop_method@) {
                &&& r.1 matches DrainStep::Over(v)
                &&& v@ == old(self).pending@
                &&& r.0.collected@.len() == 0
            } else {
                &&& r.1 is Wait
                &&& r.0.collected@ == old(self).pending@
            },
    {
        let mut taken: Vec<(String, Json)> = Vec::new();
        let ghost before = self.pending@;
        std::mem::swap(&mut taken, &mut self.pending);
        let ghost all = assertions::notification_views(before);
        let mut i: usize = 0;
        while i < taken.len()
            invariant
                i <= taken@.len(),
                taken@ == before,
                all == assertions::notification_views(before),
                forall|j: int| 0 <= j < i ==> (#[trigger] all[j]).0 != stop_method@,
                self.pending@.len() == 0,
                self.next_id == old(self).next_id,
                before == old(self).pending@,
            decreases taken@.len() - i,
        {
            assert(all[i as int].0 == taken@[i as int].0@);
            if text::same(taken[i].0.as_str(), stop_method) {
                let drain = Drain {
                    stop_method: stop_method.to_owned(),
                    collected: Vec::new(),
                };
                return (drain, DrainStep::Over(taken));
            }
            i += 1;
        }
        (Drain { stop_method: stop_method.to_owned(), collected: taken }, DrainStep::Wait)
    }
}

impl Drain {
    /// Takes a decoded message. Gives back whether it was the one waited for.
    pub fn on_message(&mut self, v: &Json) -> (stop: bool)
        ensures
            final(self).stop_method@ == old(self).stop_method@,
            assertions::notification_views(final(self).collected@) == collected_after(
                assertions::notification_views(old(self).collected@),
                v@,
            ),
            stop == is_stop(v@, old(self).stop_method@),
    {
        match read_notification(v) {
            Some(n) => {
                let ghost before = assertions::notification_views(self.collected@);
                let stop = text::same(n.0.as_str(), self.stop_method.as_str());
                self.collected.push(n);
                assert(assertions::notification_views(self.collected@) =~= before.push(
                    (n.0@, n.1@),
                ));
                stop
            },
            None => false,
        }
    }

    /// Takes what came off the socket. `budget` is the time limit as it is
    /// shown. Where the stop method arrived, everything that was collected is
    /// given back.
    pub fn on_frame(&mut self, budget: &str, event: FrameEvent) -> (s: DrainStep)
        ensures
            final(self).stop_method@ == old(self).stop_method@,
            s is Failed ==> final(self).collected@ == old(self).collected@,
            s is Over ==> final(self).collected@.len() == 0,
            match event {
                FrameEvent::Control => s is Wait && final(self).collected@ == old(self).collected@,
                FrameEvent::Closed => s matches DrainStep::Failed(m) && m@ == "ws closed mid-drain"@,
                FrameEvent::Ended => s matches DrainStep::Failed(m) && m@
                    == "ws closed unexpectedly"@,
                FrameEvent::Failed(e) => s matches DrainStep::Failed(m) && m@ == "ws recv error: "@
                    + e@,
                FrameEvent::TimedOut => s matches DrainStep::Failed(m) && m@ == "drain_until("@
                    + old(self).stop_method@ + ") timed out after "@ + budget@,
                FrameEvent::Text(t) => match json::parsed(t@) {
                    Err(e) => s matches DrainStep::Failed(m) && m@ == "ws frame is not JSON: "@ + e,
                    Ok(v) => {
                        let all = collected_after(
                            assertions::notification_views(old(self).collected@),
                            v,
                        );
                        if is_stop(v, old(self).stop_method@) {
                            s matches DrainStep::Over(c) && assertions::notification_views(c@)
                                == all
                        } else {
                            s is Wait && assertions::notification_views(final(self).collected@)
                                == all
                        }
                    },
                },
            },
    {
        match event {
            FrameEvent::Control => DrainStep::Wait,
            FrameEvent::Closed => DrainStep::Failed("ws closed mid-drain".to_owned()),
            FrameEvent::Ended => DrainStep::Failed("ws closed unexpectedly".to_owned()),
            FrameEvent::Failed(e) => DrainStep::Failed(
                "ws recv error: ".to_owned().concat(e.as_str()),
            ),
            FrameEvent::TimedOut => DrainStep::Failed(
                "drain_until(".to_owned().concat(self.stop_method.as_str()).concat(
                    ") timed out after ",
                ).concat(budget),
            ),
            FrameEvent::Text(t) => match Json::from_str(t.as_str()) {
                Err(e) => DrainStep::Failed(
                    "ws frame is not JSON: ".to_owned().concat(e.as_str()),
                ),
                Ok(v) => {
                    if self.on_message(&v) {
                        let mut taken: Vec<(String, Json)> = Vec::new();
                        std::mem::swap(&mut taken, &mut self.collected);
                        DrainStep::Over(taken)
                    } else {
                        DrainStep::Wait
                    }
                },
            },
        }
    }

    /// The failure when the time limit has passed before a read.
    pub fn overdue(&self, budget: &str) -> (m: String)
        ensures
            m@ == "drain_until("@ + self.stop_method@ + ") timed out after "@ + budget@
                + "; collected="@ + text::decimal_text(self.collected@.len())
                + " notifications"@,
    {
        "drain_until(".to_owned().concat(self.stop_method.as_str()).concat(
            ") timed out after ",
        ).concat(budget).concat("; collected=").concat(
            text::u64_text(self.collected.len() as u64).as_str(),
        ).concat(" notifications")
    }
}

// ---------------------------------------------------------------------------
// Laws

/// The notifications that the messages carry, in order.
pub open spec fn all_notifications(messages: Seq<JsonView>) -> Seq<NotificationView>
    decreases messages.len(),
{
    if messages.len() == 0 {
        Seq::empty()
    } else {
        collected_after(all_notifications(messages.drop_last()), messages.last())
    }
}

/// The pending notifications after messages came in while a request waited,
/// none of which answered it.
pub open spec fn pending_after(
    pending: Seq<NotificationView>,
    id: u64,
    method: Seq<char>,
    messages: Seq<JsonView>,
) -> Seq<NotificationView>
    decreases messages.len(),
{
    if messages.len() == 0 {
        pending
    } else {
        let before = pending_after(pending, id, method, messages.drop_last());
        match reaction(messages.last(), id, method) {
            Reaction::Keep(n) => before.push(n),
            _ => before,
        }
    }
}

/// No notification that arrives while a request waits is lost or reordered: the
/// next drain finds all of them, after those that were pending before.
pub proof fn waiting_loses_no_notification(
    pending: Seq<NotificationView>,
    id: u64,
    method: Seq<char>,
    messages: Seq<JsonView>,
)
    requires
        forall|i: int| 0 <= i < messages.len() ==> !answers(#[trigger] messages[i], id),
    ensures
        pending_after(pending, id, method, messages) == pending + all_notifications(messages),
    decreases messages.len(),
{
    if messages.len() == 0 {
        assert(pending + all_notifications(messages) =~= pending);
    } else {
        assert forall|i: int| 0 <= i < messages.drop_last().len() implies !answers(
            #[trigger] messages.drop_last()[i],
            id,
        ) by {
            assert(messages.drop_last()[i] == messages[i]);
        }
        waiting_loses_no_notification(pending, id, method, messages.drop_last());
        assert(!answers(messages[messages.len() - 1], id));
        assert(pending_after(pending, id, method, messages) =~= pending + all_notifications(
            messages,
        ));
    }
}

proof fn envelope_keys_differ()
    ensures
        "jsonrpc"@ != "id"@,
        "jsonrpc"@ != "method"@,
        "jsonrpc"@ != "params"@,
        "id"@ != "method"@,
        "id"@ != "params"@,
        "method"@ != "params"@,
{
    reveal_strlit("jsonrpc");
    reveal_strlit("id");
    reveal_strlit("method");
    reveal_strlit("params");
    assert("jsonrpc"@[0] == 'j' && "id"@[0] == 'i' && "method"@[0] == 'm' && "params"@[0] == 'p');
}

/// A request carries its id, its method and its parameters as they are, and names the
/// version of the protocol.
pub proof fn requests_carry_what_is_asked(id: u64, method: Seq<char>, params: JsonView)
    ensures
        ({
            let v = request_envelope(id, method, params);
            &&& v.string_field("jsonrpc"@) == Some("2.0"@)
            &&& v.field("id"@) == Some(JsonView::Number(NumberView::Integer(id as int)))
            &&& v.string_field("method"@) == Some(method)
            &&& v.field("params"@) == Some(params)
            &&& notification_in(v) is None
        }),
{
    envelope_keys_differ();
    let v = request_envelope(id, method, params);
    assert(v.field("jsonrpc"@) == Some(JsonView::Str("2.0"@)));
    assert(v.field("method"@) == Some(JsonView::Str(method)));
}

/// A notification that was sent is read as the one that it is, and answers no request.
pub proof fn notifications_read_back(method: Seq<char>, params: JsonView, id: u64)
    ensures
        notification_in(notification_envelope(method, params)) == Some((method, params)),
        notification_envelope(method, params).string_field("jsonrpc"@) == Some("2.0"@),
        !answers(notification_envelope(method, params), id),
{
    envelope_keys_differ();
    let v = notification_envelope(method, params);
    assert(v.field("jsonrpc"@) == Some(JsonView::Str("2.0"@)));
    assert(v.field("method"@) == Some(JsonView::Str(method)));
    assert(v.field("params"@) == Some(params));
    assert(v.field("id"@) is None);
}

/// A message is a notification exactly where it names a method and has no id; without
/// parameters it carries null.
pub proof fn notifications_are_told_by_their_fields(fields: Map<Seq<char>, JsonView>)
    ensures
        ({
            let n = notification_in(JsonView::Object(fields));
            &&& n is Some <==> fields.contains_key("method"@) && fields["method"@] is Str
                && !fields.contains_key("id"@)
            &&& n is Some ==> n->Some_0.0 == fields["method"@]->Str_0
            &&& n is Some && fields.contains_key("params"@) ==> n->Some_0.1 == fields["params"@]
            &&& n is Some && !fields.contains_key("params"@) ==> n->Some_0.1 == JsonView::Null
        }),
{
}

/// The answer to a request is the message with its id. An error in it is the error of
/// the request; without one the result is given as it is, and null where there is none.
pub proof fn answers_are_taken_as_they_are(
    fields: Map<Seq<char>, JsonView>,
    id: u64,
    other: u64,
    method: Seq<char>,
)
    requires
        fields.contains_key("id"@),
        fields["id"@] == JsonView::Number(NumberView::Integer(id as int)),
    ensures
        ({
            let v = JsonView::Object(fields);
            let failed = fields.contains_key("error"@);
            &&& answers(v, other) <==> other == id
            &&& other != id ==> reaction(v, other, method) is Ignore
            &&& reaction(v, id, method) is Answer
            &&& failed ==> reaction(v, id, method)->Answer_0 is Err && text::ends(
                reaction(v, id, method)->Answer_0->Err_0,
                json::rendered(fields["error"@]),
            ) && text::has(reaction(v, id, method)->Answer_0->Err_0, method)
            &&& !failed && fields.contains_key("result"@) ==> reaction(v, id, method)->Answer_0
                == Ok::<JsonView, Seq<char>>(fields["result"@])
            &&& !failed && !fields.contains_key("result"@) ==> reaction(v, id, method)->Answer_0
                == Ok::<JsonView, Seq<char>>(JsonView::Null)
        }),
{
    if fields.contains_key("error"@) {
        let told = json::rendered(fields["error"@]);
        text::parts_stand_in_the_whole("ws "@ + method + " error: "@, told, Seq::empty());
        assert("ws "@ + method + " error: "@ + told =~= "ws "@ + method + (" error: "@ + told));
        text::parts_stand_in_the_whole("ws "@, method, " error: "@ + told);
    }
}

/// A wait ends with the answer or with a failure, never with a notification; and what
/// was pending stays pending, in order.
pub proof fn waits_end_with_answers_or_failures(
    pending: Seq<NotificationView>,
    id: u64,
    method: Seq<char>,
    budget: Seq<char>,
    event: FrameEvent,
)
    ensures
        ({
            let (step, after) = after_frame(pending, id, method, budget, event);
            &&& pending.is_prefix_of(after)
            &&& after.len() <= pending.len() + 1
            &&& match event {
                FrameEvent::Control => step is Wait && after == pending,
                FrameEvent::Text(t) => json::parsed(t@) matches Ok(v) ==> {
                    &&& step is Wait <==> !answers(v, id)
                    &&& answers(v, id) ==> after == pending
                    &&& !answers(v, id) && notification_in(v) is Some ==> after == pending.push(
                        notification_in(v)->0,
                    )
                    &&& !answers(v, id) && notification_in(v) is None ==> after == pending
                },
                _ => step is Over && step->Over_0 is Err && after == pending,
            }
        }),
{
}

/// A failure tells what failed: a frame that is no JSON is told whole, a failed read with its
/// reason, and a time-out with the method and the limit.
pub proof fn failed_waits_tell_why(
    pending: Seq<NotificationView>,
    id: u64,
    method: Seq<char>,
    budget: Seq<char>,
    event: FrameEvent,
)
    ensures
        ({
            let step = after_frame(pending, id, method, budget, event).0;
            let failed = step is Over && step->Over_0 is Err;
            match event {
                FrameEvent::Text(t) => json::parsed(t@) is Err ==> failed && text::ends(
                    step->Over_0->Err_0,
                    t@,
                ),
                FrameEvent::Failed(why) => failed && text::ends(step->Over_0->Err_0, why@),
                FrameEvent::TimedOut => failed && text::ends(step->Over_0->Err_0, budget)
                    && text::has(step->Over_0->Err_0, method),
                _ => true,
            }
        }),
{
    match event {
        FrameEvent::Text(t) => {
            if let Err(e) = json::parsed(t@) {
                text::parts_stand_in_the_whole(
                    "ws frame is not JSON: "@ + e + "; body="@,
                    t@,
                    Seq::empty(),
                );
            }
        },
        FrameEvent::Failed(why) => {
            text::parts_stand_in_the_whole("ws recv error: "@, why@, Seq::empty());
        },
        FrameEvent::TimedOut => {
            let told = " timed out after "@ + budget;
            text::parts_stand_in_the_whole(
                "ws "@ + method + " timed out after "@,
                budget,
                Seq::empty(),
            );
            text::parts_stand_in_the_whole("ws "@, method, told);
            assert("ws "@ + method + " timed out after "@ + budget =~= "ws "@ + method + told);
        },
        _ => {},
    }
}

/// The notifications of two runs of messages are those of the first, then those of the
/// second: none is lost and none is added.
pub proof fn notifications_are_collected_in_order(a: Seq<JsonView>, b: Seq<JsonView>)
    ensures
        all_notifications(a + b) == all_notifications(a) + all_notifications(b),
        a.len() == 1 ==> all_notifications(a) == (match notification_in(a[0]) {
            Some(n) => seq![n],
            None => Seq::empty(),
        }),
    decreases b.len(),
{
    if b.len() == 0 {
        assert(a + b =~= a);
    } else {
        assert((a + b).drop_last() =~= a + b.drop_last());
        notifications_are_collected_in_order(a, b.drop_last());
    }
    assert(all_notifications(a + b) =~= all_notifications(a) + all_notifications(b));
    if a.len() == 1 {
        assert(a.drop_last() =~= Seq::empty());
        assert(all_notifications(a.drop_last()) =~= Seq::empty());
        assert(all_notifications(a) =~= (match notification_in(a[0]) {
            Some(n) => seq![n],
            None => Seq::empty(),
        }));
    }
}

/// A drain stops at the notification that it waits for, which is itself collected, and
/// at nothing else.
pub proof fn drains_stop_where_they_should(
    collected: Seq<NotificationView>,
    v: JsonView,
    stop: Seq<char>,
)
    ensures
        is_stop(v, stop) <==> notification_in(v) is Some && notification_in(v)->Some_0.0 == stop,
        is_stop(v, stop) ==> has_method(collected_after(collected, v), stop),
        collected.is_prefix_of(collected_after(collected, v)),
        notification_in(v) is Some ==> collected_after(collected, v) == collected + seq![
            notification_in(v)->0,
        ],
        notification_in(v) is None ==> collected_after(collected, v) == collected,
{
    let after = collected_after(collected, v);
    if let Some(n) = notification_in(v) {
        assert(after =~= collected + seq![n]);
        assert(after[collected.len() as int].0 == n.0);
    }
}

} // verus!
