use chromiumoxid::cmd::CommandMessage;
use chromiumoxid::error::CdpError;
use chromiumoxid::handler::dispatch::Dispatcher;
use chromiumoxid::handler::REQUEST_TIMEOUT;
use chromiumoxid::types::{CallId, Response, ResponseError};

fn message(method: &str, slot: u32) -> CommandMessage<u32> {
    CommandMessage::with_session(
        method.to_string(),
        serde_json::Value::Object(serde_json::Map::new()),
        slot,
        Some("session".to_string()),
    )
}

fn ok_response(id: u64) -> Response {
    Response { id: CallId(id), result: Some(serde_json::Value::Bool(true)), error: None }
}

#[test]
fn ids_are_issued_in_submission_order() {
    let mut dispatcher: Dispatcher<u32> = Dispatcher::default();
    for expected in 0..5u64 {
        let call = dispatcher.submit(message("Page.enable", 1), 0).expect("open");
        assert_eq!(call.id, CallId(expected));
        assert_eq!(call.method, "Page.enable");
        assert_eq!(call.session_id, Some("session".to_string()));
        assert!(dispatcher.is_pending(call.id));
    }
    assert!(!dispatcher.is_pending(CallId(5)));
}

#[test]
fn response_resolves_its_request_once() {
    let mut dispatcher: Dispatcher<u32> = Dispatcher::new(100);
    let first = dispatcher.submit(message("A.a", 10), 0).expect("open");
    let second = dispatcher.submit(message("B.b", 20), 0).expect("open");
    let answered = dispatcher.on_response(ok_response(second.id.0)).expect("pending");
    assert_eq!(answered.sender, 20);
    assert_eq!(answered.method, "B.b");
    assert_eq!(answered.response.id, second.id);
    assert_eq!(answered.response.result, Some(serde_json::Value::Bool(true)));
    assert!(!dispatcher.is_pending(second.id));
    assert!(dispatcher.is_pending(first.id));
    assert!(dispatcher.on_response(ok_response(second.id.0)).is_none());
    assert!(dispatcher.on_response(ok_response(99)).is_none());
    assert!(dispatcher.is_pending(first.id));
    let answered = dispatcher.on_response(ok_response(first.id.0)).expect("pending");
    assert_eq!(answered.sender, 10);
    assert_eq!(answered.method, "A.a");
}

#[test]
fn error_response_resolves_too() {
    let mut dispatcher: Dispatcher<u32> = Dispatcher::new(100);
    let call = dispatcher.submit(message("A.a", 10), 0).expect("open");
    let response = Response {
        id: call.id,
        result: None,
        error: Some(ResponseError { code: -32000, message: "no".to_string() }),
    };
    let answered = dispatcher.on_response(response).expect("pending");
    assert_eq!(answered.sender, 10);
    assert_eq!(answered.response.error.expect("error").code, -32000);
    assert!(!dispatcher.is_pending(call.id));
}

#[test]
fn response_at_the_deadline_is_in_time() {
    let mut dispatcher: Dispatcher<u32> = Dispatcher::default();
    let call = dispatcher.submit(message("A.a", 10), 500).expect("open");
    assert!(dispatcher.evict_timed_out(500 + REQUEST_TIMEOUT).is_empty());
    assert!(dispatcher.is_pending(call.id));
    let answered = dispatcher.on_response(ok_response(call.id.0)).expect("still pending");
    assert_eq!(answered.sender, 10);
}

#[test]
fn sweep_fails_what_is_past_its_deadline() {
    let mut dispatcher: Dispatcher<u32> = Dispatcher::new(100);
    let early = dispatcher.submit(message("A.a", 1), 0).expect("open");
    let late = dispatcher.submit(message("B.b", 2), 50).expect("open");
    let other = dispatcher.submit(message("C.c", 3), 0).expect("open");
    assert!(dispatcher.evict_timed_out(100).is_empty());
    let mut failed = dispatcher.evict_timed_out(101);
    failed.sort_by_key(|(id, _, _)| id.0);
    assert_eq!(failed.len(), 2);
    assert_eq!((failed[0].0, failed[0].1), (early.id, 1));
    match &failed[0].2 {
        CdpError::DeadlineExceeded(err) => {
            assert_eq!(err.deadline, 100);
            assert_eq!(err.issued_at, 101);
        }
        other => panic!("expected a missed deadline, got {:?}", other),
    }
    assert_eq!((failed[1].0, failed[1].1), (other.id, 3));
    assert!(!dispatcher.is_pending(early.id));
    assert!(!dispatcher.is_pending(other.id));
    assert!(dispatcher.is_pending(late.id));
    assert!(dispatcher.on_response(ok_response(early.id.0)).is_none());
    assert!(dispatcher.evict_timed_out(150).is_empty());
    let failed = dispatcher.evict_timed_out(151);
    assert_eq!(failed.len(), 1);
    assert_eq!(failed[0].0, late.id);
    assert!(matches!(&failed[0].2, CdpError::DeadlineExceeded(err) if err.deadline == 150));
}

#[test]
fn failed_submission_releases_the_slot() {
    let mut dispatcher: Dispatcher<u32> = Dispatcher::new(100);
    let call = dispatcher.submit(message("A.a", 7), 0).expect("open");
    match dispatcher.fail(call.id, "broken pipe".to_string()) {
        Some((slot, CdpError::Transport(cause))) => {
            assert_eq!(slot, 7);
            assert_eq!(cause, "broken pipe");
        }
        other => panic!("expected the slot, got {:?}", other),
    }
    assert!(!dispatcher.is_pending(call.id));
    assert!(dispatcher.fail(call.id, "again".to_string()).is_none());
    assert!(dispatcher.fail(CallId(42), "unknown".to_string()).is_none());
}

#[test]
fn closed_dispatcher_fails_everything_and_refuses_more() {
    let mut dispatcher: Dispatcher<u32> = Dispatcher::new(100);
    let a = dispatcher.submit(message("A.a", 1), 0).expect("open");
    let b = dispatcher.submit(message("B.b", 2), 0).expect("open");
    let mut open = dispatcher.close("reset".to_string());
    open.sort_by_key(|(id, _, _)| id.0);
    assert_eq!(open.len(), 2);
    assert_eq!((open[0].0, open[0].1), (a.id, 1));
    assert_eq!((open[1].0, open[1].1), (b.id, 2));
    for (_, _, err) in &open {
        assert!(matches!(err, CdpError::Transport(cause) if cause == "reset"));
    }
    assert!(!dispatcher.is_pending(a.id));
    assert!(!dispatcher.is_pending(b.id));
    match dispatcher.submit(message("C.c", 3), 0) {
        Err((slot, CdpError::Transport(cause))) => {
            assert_eq!(slot, 3);
            assert_eq!(cause, "reset");
        }
        other => panic!("expected a refusal, got {:?}", other.map(|call| call.id)),
    }
    assert!(dispatcher.close("again".to_string()).is_empty());
}
