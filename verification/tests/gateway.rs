use aerokv::proxy::{after_failure, contains_text, is_read_only_path, json_member, leader_hint, JsonValue, ProxyState, ProxyStep};

/// A parsed JSON value as the library's plain value.
fn json_value(v: serde_json::Value) -> JsonValue {
    match v {
        serde_json::Value::Null => JsonValue::Null,
        serde_json::Value::Bool(b) => JsonValue::Bool(b),
        serde_json::Value::Number(n) => JsonValue::Number(n.to_string()),
        serde_json::Value::String(s) => JsonValue::Str(s),
        serde_json::Value::Array(a) => JsonValue::Array(a.into_iter().map(json_value).collect()),
        serde_json::Value::Object(m) => JsonValue::Object(m.into_iter().map(|(k, v)| (k, json_value(v))).collect()),
    }
}

/// A node's answer read as JSON, as the gateway reads it (not JSON: `Null`).
fn reply(body: &[u8]) -> JsonValue {
    json_value(serde_json::from_slice(body).unwrap_or_default())
}

fn gateway() -> ProxyState {
    ProxyState {
        nodes: vec!["http://n1".to_string(), "http://n2".to_string(), "http://n3".to_string()],
        current_leader: "http://n1".to_string(),
        rr_index: 0,
    }
}

#[test]
fn substring_search() {
    assert!(contains_text("/api/kv/get?key=1", "/kv/get"));
    assert!(!contains_text("/kv/ge", "/kv/get"));
    assert!(contains_text("abc", ""));
}

#[test]
fn reads_rotate_and_writes_go_to_the_leader() {
    let mut g = gateway();
    assert!(is_read_only_path("/kv/scan"));
    assert!(!is_read_only_path("/kv/upsert"));
    assert_eq!(g.pick_target(true, "/health"), "http://n1");
    assert_eq!(g.pick_target(true, "/health"), "http://n2");
    assert_eq!(g.pick_target(false, "/kv/page"), "http://n3");
    assert_eq!(g.pick_target(false, "/kv/upsert"), "http://n1");
    assert_eq!(g.rr_index, 3);
    assert_eq!(g.pick_target(true, "/x"), "http://n1");
}

#[test]
fn a_named_leader_is_learned_and_tried() {
    let mut g = gateway();
    let step = g.inspect_response(0, 503, &reply(br#"{"leader_node":{"addr":"10.0.0.2:8002"}}"#)).unwrap();
    assert_eq!(g.current_leader, "http://10.0.0.2:8002");
    assert!(matches!(step, ProxyStep::Send { ref target, attempt: 1, pause: false } if target == "http://10.0.0.2:8002"));
    let last = g.inspect_response(2, 503, &reply(br#"{"leader_node":{"addr":"h:1"}}"#)).unwrap();
    assert!(matches!(last, ProxyStep::Unavailable));
}

#[test]
fn the_leader_address_is_read_from_leader_node_addr() {
    let r = JsonValue::Object(vec![
        ("status".to_string(), JsonValue::Str("error".to_string())),
        ("leader_node".to_string(), JsonValue::Object(vec![("addr".to_string(), JsonValue::Str("h:2".to_string()))])),
    ]);
    assert_eq!(leader_hint(&r), Some(Some("h:2".to_string())));
    assert!(matches!(json_member(&r, "status"), Some(JsonValue::Str(s)) if s == "error"));
    assert!(json_member(&r, "addr").is_none());
    assert!(json_member(&JsonValue::Array(vec![]), "leader_node").is_none());
    let other = JsonValue::Object(vec![("leader".to_string(), JsonValue::Str("h:2".to_string()))]);
    assert_eq!(leader_hint(&other), None);
    let numeric = JsonValue::Object(vec![(
        "leader_node".to_string(),
        JsonValue::Object(vec![("addr".to_string(), JsonValue::Number("5".to_string()))]),
    )]);
    assert_eq!(leader_hint(&numeric), Some(None));
}

#[test]
fn other_answers_are_passed_on() {
    let mut g = gateway();
    assert!(matches!(g.inspect_response(0, 200, &reply(b"not json")).unwrap(), ProxyStep::Reply { status: 200 }));
    assert!(matches!(g.inspect_response(1, 404, &reply(br#"{"status":"error"}"#)).unwrap(), ProxyStep::Reply { status: 404 }));
    assert!(g.inspect_response(0, 200, &reply(br#"{"leader_node":{"addr":5}}"#)).is_none());
    assert_eq!(g.current_leader, "http://n1");
}

#[test]
fn failures_are_retried_twice() {
    let t = "http://n2".to_string();
    assert!(matches!(after_failure(&t, 0), ProxyStep::Send { ref target, attempt: 1, pause: true } if target == "http://n2"));
    assert!(matches!(after_failure(&t, 1), ProxyStep::Send { attempt: 2, .. }));
    assert!(matches!(after_failure(&t, 2), ProxyStep::Unavailable));
}
