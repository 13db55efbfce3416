use memo_vault::store::WorkerEvent;
use memo_vault::worker::{extract_json_object, message_kind, search_done_event, MessageKind};

#[test]
fn message_kinds() {
    assert_eq!(message_kind("STATUS"), MessageKind::Status);
    assert_eq!(message_kind("READY"), MessageKind::Ready);
    assert_eq!(message_kind("TOKEN"), MessageKind::Token);
    assert_eq!(message_kind("TOKEN_SEARCH"), MessageKind::TokenSearch);
    assert_eq!(message_kind("DONE_CLASSIFY"), MessageKind::DoneClassify);
    assert_eq!(message_kind("DONE_SEARCH"), MessageKind::DoneSearch);
    assert_eq!(message_kind("ERROR"), MessageKind::Error);
    assert_eq!(message_kind("status"), MessageKind::Other);
    assert_eq!(message_kind(""), MessageKind::Other);
}

#[test]
fn json_object_is_cut_from_first_brace_to_last() {
    assert_eq!(
        extract_json_object("Sure! {\"category\": \"기타\", \"x\": {}} done"),
        Some("{\"category\": \"기타\", \"x\": {}}".to_string())
    );
}

#[test]
fn json_object_without_braces_is_whole_reply() {
    assert_eq!(extract_json_object("no json here"), Some("no json here".to_string()));
    assert_eq!(extract_json_object("only { open"), Some("only { open".to_string()));
}

#[test]
fn json_object_with_adjacent_reversed_braces_is_empty() {
    assert_eq!(extract_json_object("a}{b"), Some(String::new()));
}

#[test]
fn json_object_with_reversed_braces_would_panic() {
    assert_eq!(extract_json_object("} x {"), None);
}

#[test]
fn search_done_event_carries_ids() {
    match search_done_event("[4,2]") {
        WorkerEvent::SearchDone(ids) => assert_eq!(ids, vec![4, 2]),
        _ => panic!("wrong event"),
    }
    match search_done_event("bad") {
        WorkerEvent::SearchDone(ids) => assert!(ids.is_empty()),
        _ => panic!("wrong event"),
    }
}
