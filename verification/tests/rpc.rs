use opencrab::json::Json;
use opencrab::rpc::notification;
use opencrab::rpc::DrainStep;
use opencrab::rpc::FrameEvent;
use opencrab::rpc::RequestStep;
use opencrab::rpc::RpcState;

fn json(text: &str) -> Json {
    Json::from_str(text).unwrap()
}

fn text(frame: &str) -> FrameEvent {
    FrameEvent::Text(frame.to_string())
}

fn answer(step: RequestStep) -> Result<String, String> {
    match step {
        RequestStep::Over(Ok(j)) => Ok(j.to_text()),
        RequestStep::Over(Err(e)) => Err(e),
        RequestStep::Wait => panic!("the request still waits"),
    }
}

fn methods(list: &[(String, Json)]) -> Vec<&str> {
    list.iter().map(|(m, _)| m.as_str()).collect()
}

#[test]
fn requests_are_numbered() {
    let mut s = RpcState::new();
    let (id, envelope) = s.request("initialize", json(r#"{"a":1}"#));
    assert_eq!(id, 1);
    assert_eq!(
        envelope.to_text(),
        r#"{"id":1,"jsonrpc":"2.0","method":"initialize","params":{"a":1}}"#
    );
    assert_eq!(s.request("x", Json::Null).0, 2);
    assert_eq!(
        notification("initialized", json("{}")).to_text(),
        r#"{"jsonrpc":"2.0","method":"initialized","params":{}}"#
    );
}

#[test]
fn request_waits_for_its_own_answer() {
    let mut s = RpcState::new();
    let (id, _) = s.request("m", Json::Null);
    for frame in [
        FrameEvent::Control,
        text(r#"{"id":99,"result":1}"#),
        text(r#"{"method":"note","params":{"k":1}}"#),
        text(r#"{"method":"ask","id":7}"#),
    ] {
        assert!(matches!(
            s.on_request_frame(id, "m", "5s", frame),
            RequestStep::Wait
        ));
    }
    assert_eq!(methods(&s.pending), vec!["note"], "notifications are kept");
    let step = s.on_request_frame(id, "m", "5s", text(r#"{"id":1,"result":{"ok":true}}"#));
    assert_eq!(answer(step).unwrap(), r#"{"ok":true}"#);
    let step = s.on_request_frame(id, "m", "5s", text(r#"{"id":1}"#));
    assert_eq!(answer(step).unwrap(), "null");
}

#[test]
fn failed_requests_say_why() {
    let mut s = RpcState::new();
    let mut fail = |event: FrameEvent| answer(s.on_request_frame(1, "m", "5s", event)).unwrap_err();
    assert_eq!(
        fail(text(r#"{"id":1,"error":{"code":-1}}"#)),
        r#"ws m error: {"code":-1}"#
    );
    assert_eq!(fail(FrameEvent::Closed), "ws closed mid-request");
    assert_eq!(fail(FrameEvent::Ended), "ws closed unexpectedly");
    assert_eq!(fail(FrameEvent::Failed("x".into())), "ws recv error: x");
    assert_eq!(fail(FrameEvent::TimedOut), "ws m timed out after 5s");
    assert!(fail(text("oops")).starts_with("ws frame is not JSON: "));
    assert!(fail(text("oops")).ends_with("; body=oops"));
}

#[test]
fn drain_begins_with_what_is_pending() {
    let mut s = RpcState::new();
    s.on_message(1, "m", &json(r#"{"method":"a"}"#));
    let (mut drain, step) = s.start_drain("done");
    assert!(matches!(step, DrainStep::Wait));
    assert!(s.pending.is_empty());
    assert!(matches!(
        drain.on_frame("1s", text(r#"{"method":"b","params":1}"#)),
        DrainStep::Wait
    ));
    assert!(matches!(
        drain.on_frame("1s", text(r#"{"id":4,"result":1}"#)),
        DrainStep::Wait
    ));
    assert_eq!(
        drain.overdue("1s"),
        "drain_until(done) timed out after 1s; collected=2 notifications"
    );
    match drain.on_frame("1s", text(r#"{"method":"done"}"#)) {
        DrainStep::Over(all) => assert_eq!(methods(&all), vec!["a", "b", "done"]),
        other => panic!("{other:?}"),
    }
}

#[test]
fn drain_is_over_at_once_where_the_stop_method_is_pending() {
    let mut s = RpcState::new();
    s.on_message(1, "m", &json(r#"{"method":"done"}"#));
    s.on_message(1, "m", &json(r#"{"method":"late"}"#));
    match s.start_drain("done").1 {
        DrainStep::Over(all) => assert_eq!(methods(&all), vec!["done", "late"]),
        other => panic!("{other:?}"),
    }
}

#[test]
fn failed_drains_say_why() {
    let mut s = RpcState::new();
    let (mut drain, _) = s.start_drain("done");
    let mut fail = |event: FrameEvent| match drain.on_frame("1s", event) {
        DrainStep::Failed(m) => m,
        other => panic!("{other:?}"),
    };
    assert_eq!(fail(FrameEvent::Closed), "ws closed mid-drain");
    assert_eq!(fail(FrameEvent::Ended), "ws closed unexpectedly");
    assert_eq!(fail(FrameEvent::Failed("x".into())), "ws recv error: x");
    assert_eq!(
        fail(FrameEvent::TimedOut),
        "drain_until(done) timed out after 1s"
    );
    assert!(fail(text("oops")).starts_with("ws frame is not JSON: "));
}
