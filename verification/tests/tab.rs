use chromiumoxid::error::{CdpError, DeadlineExceeded};
use chromiumoxid::tab::{command_response, document_title, navigation_result, pdf_bytes};
use chromiumoxid::types::{message_kind, CallId, MessageKind, Response, ResponseError};

#[test]
fn result_wins() {
    let response = Response {
        id: CallId(3),
        result: Some(serde_json::Value::String("done".to_string())),
        error: Some(ResponseError { code: 1, message: "ignored".to_string() }),
    };
    let answer = command_response(response, "Page.enable".to_string()).expect("result");
    assert_eq!(answer.id, CallId(3));
    assert_eq!(answer.method, "Page.enable");
    assert_eq!(answer.result, serde_json::Value::String("done".to_string()));
}

#[test]
fn protocol_error_is_passed_on() {
    let response = Response {
        id: CallId(4),
        result: None,
        error: Some(ResponseError { code: -32601, message: "not found".to_string() }),
    };
    match command_response(response, "X.y".to_string()) {
        Err(CdpError::Protocol { code, message }) => {
            assert_eq!(code, -32601);
            assert_eq!(message, "not found");
        }
        other => panic!("expected a protocol error, got {:?}", other),
    }
}

#[test]
fn empty_response_is_an_error() {
    let response = Response { id: CallId(5), result: None, error: None };
    assert!(matches!(command_response(response, "X.y".to_string()), Err(CdpError::EmptyResponse)));
}

#[test]
fn navigation_error_text_fails_the_navigation() {
    assert_eq!(navigation_result("F".to_string(), None), Ok("F".to_string()));
    assert_eq!(
        navigation_result("F".to_string(), Some("net::ERR_ABORTED".to_string())),
        Err("net::ERR_ABORTED".to_string())
    );
}

#[test]
fn empty_title_is_no_title() {
    assert_eq!(document_title(String::new()), None);
    assert_eq!(document_title("Home".to_string()), Some("Home".to_string()));
    assert_eq!(document_title(" ".to_string()), Some(" ".to_string()));
}

#[test]
fn pdf_is_decoded_from_base64() {
    assert_eq!(pdf_bytes("aGVsbG8gd29ybGQ=").expect("base64"), b"hello world".to_vec());
    assert_eq!(pdf_bytes("").expect("base64"), Vec::<u8>::new());
    assert_eq!(pdf_bytes("JVBERi0=").expect("base64"), b"%PDF-".to_vec());
    assert!(matches!(pdf_bytes("not base64!"), Err(CdpError::Serialization(_))));
    assert!(matches!(pdf_bytes("a"), Err(CdpError::Serialization(_))));
}

#[test]
fn deadline_exceeded_keeps_both_instants() {
    let err = DeadlineExceeded::new(12, 10);
    assert_eq!(err.issued_at, 12);
    assert_eq!(err.deadline, 10);
    assert_eq!(err, DeadlineExceeded { issued_at: 12, deadline: 10 });
}

fn object(members: Vec<(&str, serde_json::Value)>) -> serde_json::Value {
    let mut map = serde_json::Map::new();
    for (key, value) in members {
        map.insert(key.to_string(), value);
    }
    serde_json::Value::Object(map)
}

#[test]
fn inbound_messages_are_told_apart() {
    let response = object(vec![
        ("id", serde_json::Value::from(7u64)),
        ("result", object(vec![])),
    ]);
    assert_eq!(message_kind(&response), MessageKind::Response);
    let event = object(vec![
        ("method", serde_json::Value::String("Page.frameAttached".to_string())),
        ("params", object(vec![])),
    ]);
    assert_eq!(message_kind(&event), MessageKind::Event);
    let both = object(vec![
        ("id", serde_json::Value::from(1u64)),
        ("method", serde_json::Value::String("Page.enable".to_string())),
    ]);
    assert_eq!(message_kind(&both), MessageKind::Response);
    assert_eq!(message_kind(&object(vec![])), MessageKind::Unknown);
    assert_eq!(message_kind(&serde_json::Value::Null), MessageKind::Unknown);
    assert_eq!(
        message_kind(&serde_json::Value::Array(vec![serde_json::Value::String("id".to_string())])),
        MessageKind::Unknown
    );
}
