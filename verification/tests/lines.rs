use serde_json::Value;
use spyglass::body::{JsonDoc, JsonNode};
use spyglass::identity::{mask, template_id};
use spyglass::lines::parse_event;

fn push_node(v: &Value, nodes: &mut Vec<JsonNode>) -> usize {
    let at = nodes.len();
    nodes.push(JsonNode::Null);
    let node = match v {
        Value::Null => JsonNode::Null,
        Value::Bool(b) => JsonNode::Bool(*b),
        Value::Number(n) => JsonNode::Number(n.to_string()),
        Value::String(s) => JsonNode::Str(s.clone()),
        Value::Array(a) => {
            let mut ids = Vec::new();
            for x in a {
                ids.push(push_node(x, nodes));
            }
            JsonNode::Array(ids)
        }
        Value::Object(m) => {
            let mut ms = Vec::new();
            for (k, x) in m {
                ms.push((k.clone(), push_node(x, nodes)));
            }
            JsonNode::Object(ms)
        }
    };
    nodes[at] = node;
    at
}

fn doc(line: &str) -> JsonDoc {
    let v: Value = serde_json::from_str(line).unwrap();
    let mut nodes = Vec::new();
    push_node(&v, &mut nodes);
    JsonDoc { nodes }
}

fn us(t: &str) -> i64 {
    t.parse::<chrono::DateTime<chrono::Utc>>().unwrap().timestamp_micros()
}

#[test]
fn a_full_line_becomes_an_event_with_its_template() {
    let line = r#"{"ts":"2026-08-29T09:27:45.287Z","level":"ERROR","service":"payments","instance":"payments-v2","msg":"payment validation failed: unsupported currency EUR req=r-first","req_id":"r-first","route":"/charge","status":500,"latency_ms":12.5,"stack":"at charge()"}"#;
    let e = parse_event(&doc(line), line, "hint", "payments-v2:7".into(), 4096).unwrap();
    assert_eq!(e.event_id, "payments-v2:7");
    assert_eq!(e.ts, us("2026-08-29T09:27:45.287Z"));
    assert_eq!((e.service.as_str(), e.instance.as_str(), e.level.as_str()), ("payments", "payments-v2", "ERROR"));
    assert_eq!(e.version, "");
    assert_eq!(e.req_id.as_deref(), Some("r-first"));
    assert_eq!(e.route.as_deref(), Some("/charge"));
    assert_eq!(e.status, Some(500));
    assert!(e.has_stack);
    assert_eq!(e.pattern, mask("payment validation failed: unsupported currency EUR req=r-first"));
    assert_eq!(e.template_id, template_id(&e.pattern));
    assert_eq!(e.raw, line);
}

#[test]
fn missing_fields_default_to_the_file_and_info() {
    let line = r#"{"ts":"2026-08-29T09:27:45Z","msg":"started"}"#;
    let e = parse_event(&doc(line), line, "orders", "orders:1".into(), 4096).unwrap();
    assert_eq!((e.service.as_str(), e.instance.as_str(), e.level.as_str()), ("orders", "orders", "INFO"));
    assert_eq!(e.status, None);
    assert!(!e.has_stack);
    assert!(e.kind.is_none());
}

#[test]
fn lines_without_a_timestamp_or_message_are_malformed() {
    for line in [r#"{"msg":"x"}"#, r#"{"ts":"yesterday","msg":"x"}"#, r#"{"ts":"2026-08-29T09:27:45Z"}"#, r#"{"ts":5,"msg":"x"}"#, r#"[1,2]"#, r#""just text""#] {
        assert!(parse_event(&doc(line), line, "a", "a:1".into(), 4096).is_none(), "{line}");
    }
}

#[test]
fn status_must_be_a_whole_number_and_is_kept_as_sixteen_bits() {
    let f = r#"{"ts":"2026-08-29T09:27:45Z","msg":"x","status":500.0}"#;
    assert_eq!(parse_event(&doc(f), f, "a", "a:1".into(), 4096).unwrap().status, None);
    let n = r#"{"ts":"2026-08-29T09:27:45Z","msg":"x","status":-1}"#;
    assert_eq!(parse_event(&doc(n), n, "a", "a:1".into(), 4096).unwrap().status, None);
    let big = r#"{"ts":"2026-08-29T09:27:45Z","msg":"x","status":70000}"#;
    assert_eq!(parse_event(&doc(big), big, "a", "a:1".into(), 4096).unwrap().status, Some(4464));
}

#[test]
fn the_raw_line_is_capped() {
    let line = r#"{"ts":"2026-08-29T09:27:45Z","msg":"a long enough message"}"#;
    let e = parse_event(&doc(line), line, "a", "a:1".into(), 10).unwrap();
    assert_eq!(e.raw, format!("{}…[capped]", &line[..10]));
}
