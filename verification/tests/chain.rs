use chromiumoxid::cmd::{CommandChain, CommandMessage, Poll};
use chromiumoxid::handler::REQUEST_TIMEOUT;

fn empty() -> serde_json::Value {
    serde_json::Value::Object(serde_json::Map::new())
}

fn handshake() -> CommandChain {
    let mut lifecycle = serde_json::Map::new();
    lifecycle.insert("enabled".to_string(), serde_json::Value::Bool(true));
    CommandChain::new(vec![
        ("Page.enable".to_string(), empty()),
        ("Page.getFrameTree".to_string(), empty()),
        ("Page.setLifecycleEventsEnabled".to_string(), serde_json::Value::Object(lifecycle)),
        ("Runtime.enable".to_string(), empty()),
    ])
}

fn issued(step: Poll<Option<Result<(String, serde_json::Value), chromiumoxid::error::DeadlineExceeded>>>) -> String {
    match step {
        Poll::Ready(Some(Ok((method, _)))) => method,
        other => panic!("expected a command, got {:?}", other),
    }
}

#[test]
fn handshake_issues_four_steps_in_order() {
    let mut chain = handshake();
    let mut methods = Vec::new();
    let mut now = 0;
    for _ in 0..4 {
        let method = issued(chain.poll(now));
        assert!(matches!(chain.poll(now + 1), Poll::Pending));
        assert!(chain.received_response(&method));
        methods.push(method);
        now += 10;
    }
    assert_eq!(
        methods,
        vec![
            "Page.enable",
            "Page.getFrameTree",
            "Page.setLifecycleEventsEnabled",
            "Runtime.enable"
        ]
    );
    assert!(matches!(chain.poll(now), Poll::Ready(None)));
    assert!(matches!(chain.poll(now + REQUEST_TIMEOUT + 1), Poll::Ready(None)));
}

#[test]
fn withheld_response_times_the_step_out() {
    let mut chain = handshake();
    assert_eq!(issued(chain.poll(0)), "Page.enable");
    assert!(chain.received_response("Page.enable"));
    assert_eq!(issued(chain.poll(5)), "Page.getFrameTree");
    assert!(matches!(chain.poll(5 + REQUEST_TIMEOUT), Poll::Pending));
    match chain.poll(5 + REQUEST_TIMEOUT + 1) {
        Poll::Ready(Some(Err(err))) => {
            assert_eq!(err.deadline, 5 + REQUEST_TIMEOUT);
            assert_eq!(err.issued_at, 5 + REQUEST_TIMEOUT + 1);
        }
        other => panic!("expected a missed deadline, got {:?}", other),
    }
    assert!(matches!(chain.poll(5 + REQUEST_TIMEOUT + 2), Poll::Ready(Some(Err(_)))));
}

#[test]
fn response_to_another_method_is_ignored() {
    let mut chain = handshake();
    assert!(!chain.received_response("Page.enable"));
    assert_eq!(issued(chain.poll(0)), "Page.enable");
    assert!(!chain.received_response("Page.getFrameTree"));
    assert!(!chain.received_response("page.enable"));
    assert!(matches!(chain.poll(1), Poll::Pending));
    assert!(chain.received_response("Page.enable"));
    assert!(!chain.received_response("Page.enable"));
    assert_eq!(issued(chain.poll(2)), "Page.getFrameTree");
}

#[test]
fn push_back_appends_at_any_time() {
    let mut chain = CommandChain::default();
    assert!(matches!(chain.poll(0), Poll::Ready(None)));
    chain.push_back("A.first".to_string(), empty());
    assert_eq!(issued(chain.poll(1)), "A.first");
    chain.push_back("A.second".to_string(), serde_json::Value::Bool(false));
    assert!(matches!(chain.poll(2), Poll::Pending));
    assert!(chain.received_response("A.first"));
    match chain.poll(3) {
        Poll::Ready(Some(Ok((method, params)))) => {
            assert_eq!(method, "A.second");
            assert_eq!(params, serde_json::Value::Bool(false));
        }
        other => panic!("expected a command, got {:?}", other),
    }
}

#[test]
fn command_message_parts() {
    let message = CommandMessage::new("Page.navigate".to_string(), empty(), 7u8);
    assert!(message.is_navigation());
    assert_eq!(message.identifier(), "Page.navigate");
    assert_eq!(message.session_id, None);
    let (request, sender) = message.split();
    assert_eq!(request.method, "Page.navigate");
    assert_eq!(request.session_id, None);
    assert_eq!(request.params, empty());
    assert_eq!(sender, 7);

    let message = CommandMessage::with_session(
        "Page.enable".to_string(),
        serde_json::Value::Null,
        "slot",
        Some("session-1".to_string()),
    );
    assert!(!message.is_navigation());
    let (request, sender) = message.split();
    assert_eq!(request.session_id, Some("session-1".to_string()));
    assert_eq!(request.params, serde_json::Value::Null);
    assert_eq!(sender, "slot");
}
