use serde_json::Value;
use spyglass::body::{sanitize_body, JsonDoc, JsonNode};

fn push_node(v: &Value, nodes: &mut Vec<JsonNode>) -> usize {
    let at = nodes.len();
    nodes.push(JsonNode::Null);
    let node = match v {
        Value::Null => JsonNode::Null,
        Value::Bool(b) => JsonNode::Bool(*b),
        Value::Number(n) => JsonNode::Number(n.to_string()),
        Value::String(s) => JsonNode::Str(s.clone()),
        Value::Array(a) => {
            let mut ids = Vec::new();
            for x in a {
                ids.push(push_node(x, nodes));
            }
            JsonNode::Array(ids)
        }
        Value::Object(m) => {
            let mut ms = Vec::new();
            for (k, x) in m {
                ms.push((k.clone(), push_node(x, nodes)));
            }
            JsonNode::Object(ms)
        }
    };
    nodes[at] = node;
    at
}

/// The body as the capture path parses it.
fn parsed(body: &str) -> Option<JsonDoc> {
    let v: Value = serde_json::from_str(body).ok()?;
    let mut nodes = Vec::new();
    push_node(&v, &mut nodes);
    Some(JsonDoc { nodes })
}

fn sanitize(body: &str, cap: usize) -> spyglass::sanitize::SanitizedBody {
    let doc = parsed(body);
    sanitize_body(body, doc.as_ref(), cap)
}

#[test]
fn a_clean_body_is_returned_byte_identical() {
    let body = r#"{"currency":"EUR","customer":"cust-7","card_class":"premium","amount":42.1}"#;
    let s = sanitize(body, 2048);
    assert_eq!(s.text, body);
    assert!(s.redactions.is_empty());
    assert!(!s.truncated);
}

#[test]
fn secret_keys_and_card_numbers_are_redacted_by_path() {
    let body = r#"{"customer":"c","card":{"number":"4111 1111 1111 1111","cvv":"123"},"password":"hunter2","session_token":"abc"}"#;
    let s = sanitize(body, 2048);
    assert!(!s.text.contains("4111"));
    assert!(!s.text.contains("hunter2"));
    assert!(!s.text.contains("\"abc\""));
    let mut r = s.redactions.clone();
    r.sort();
    assert_eq!(r, vec!["card.cvv", "card.number:pan", "password", "session_token"]);
}

#[test]
fn non_json_bodies_still_lose_card_like_runs_and_get_capped() {
    let s = sanitize("pan=4111111111111111&x=1", 8);
    assert!(s.text.starts_with("pan=[red"));
    assert!(s.truncated);
    assert_eq!(s.redactions, vec!["text:pan"]);
}

#[test]
fn amounts_and_ids_are_not_mistaken_for_card_numbers() {
    let body = r#"{"amount":178.91,"order":"ord_1234567890ab","req":"d49edd91-2f1f-4132-826b-2236e4a07521"}"#;
    assert!(sanitize(body, 2048).redactions.is_empty());
}

#[test]
fn a_redacted_body_is_written_back_compact_with_sorted_keys() {
    let body = r#"{ "b": [1, "x\"y", null, true], "a": {"api_key": "k"} }"#;
    let s = sanitize(body, 2048);
    assert_eq!(s.text, r#"{"a":{"api_key":"[redacted]"},"b":[1,"x\"y",null,true]}"#);
    assert_eq!(s.redactions, vec!["a.api_key"]);
    assert_eq!(s.bytes, s.text.len());
}

#[test]
fn control_characters_are_escaped_as_the_parser_writes_them() {
    let body = "{\"pwd\":\"p\",\"note\":\"tab\\tbell\\u0007\"}";
    let s = sanitize(body, 2048);
    assert_eq!(s.text, "{\"note\":\"tab\\tbell\\u0007\",\"pwd\":\"[redacted]\"}");
}

#[test]
fn card_runs_inside_arrays_are_found_by_index() {
    let body = r#"["ok", "card 4111-1111-1111-1111 end"]"#;
    let s = sanitize(body, 2048);
    assert_eq!(s.redactions, vec!["[1]:pan"]);
    assert_eq!(s.text, r#"["ok","card [redacted:pan] end"]"#);
}
