use serde_json::Value;
use sha2::{Digest, Sha256};
use spyglass::body::{JsonDoc, JsonNode};
use spyglass::digest::{cap_item, canonical, compact_json, digest_json, stamp_eid, stamp_items};
use spyglass::investigation::Investigation;

fn push_node(v: &Value, nodes: &mut Vec<JsonNode>) -> usize {
    let at = nodes.len();
    nodes.push(JsonNode::Null);
    let node = match v {
        Value::Null => JsonNode::Null,
        Value::Bool(b) => JsonNode::Bool(*b),
        Value::Number(n) => JsonNode::Number(n.to_string()),
        Value::String(s) => JsonNode::Str(s.clone()),
        Value::Array(a) => {
            let mut ids = Vec::new();
            for x in a {
                ids.push(push_node(x, nodes));
            }
            JsonNode::Array(ids)
        }
        Value::Object(m) => {
            let mut ms = Vec::new();
            for (k, x) in m {
                ms.push((k.clone(), push_node(x, nodes)));
            }
            JsonNode::Object(ms)
        }
    };
    nodes[at] = node;
    at
}

fn doc(v: &Value) -> JsonDoc {
    let mut nodes = Vec::new();
    push_node(v, &mut nodes);
    JsonDoc { nodes }
}

fn without_eids(v: &Value) -> Value {
    match v {
        Value::Object(m) => Value::Object(m.iter().filter(|(k, _)| k.as_str() != "eid").map(|(k, v)| (k.clone(), without_eids(v))).collect()),
        Value::Array(a) => Value::Array(a.iter().map(without_eids).collect()),
        other => other.clone(),
    }
}

fn hex(b: &[u8]) -> String {
    b.iter().map(|x| format!("{x:02x}")).collect()
}

fn payload() -> Value {
    serde_json::from_str(
        r#"{"items":[{"template_id":"T3","count":12,"sample":"payment \"failed\"\n\ttab","eid":"E7"},{"ratio":0.25,"flags":[true,false,null],"eid":"E8"}],"truncated":false,"note":"é ✓ \u0001"}"#,
    )
    .unwrap()
}

#[test]
fn the_canonical_text_is_compact_json_without_evidence_ids() {
    let v = payload();
    let d = doc(&v);
    let expected = serde_json::to_string(&without_eids(&v)).unwrap();
    assert_eq!(canonical(&d), expected);
    assert!(!canonical(&d).contains("eid"));
    assert_eq!(digest_json(&d), hex(&Sha256::digest(expected.as_bytes())));
}

#[test]
fn evidence_ids_do_not_move_the_digest() {
    let v = payload();
    let mut d = doc(&v);
    let before = digest_json(&d);
    let items = match &d.nodes[0] {
        JsonNode::Object(m) => match &d.nodes[m.iter().find(|(k, _)| k == "items").unwrap().1] {
            JsonNode::Array(ids) => ids.clone(),
            _ => unreachable!(),
        },
        _ => unreachable!(),
    };
    let mut inv = Investigation::new("inv-1");
    let eids = stamp_items(&mut d, &items, &mut inv);
    assert_eq!(eids, vec!["E1".to_string(), "E2".to_string()]);
    assert_eq!(inv.next_eid, 3);
    assert_eq!(digest_json(&d), before);
    // the first item now carries E1 in place of E7
    match &d.nodes[items[0]] {
        JsonNode::Object(m) => {
            let (_, at) = m.iter().find(|(k, _)| k == "eid").unwrap();
            assert!(matches!(&d.nodes[*at], JsonNode::Str(s) if s == "E1"));
        }
        _ => unreachable!(),
    }
    // an item without an id gets one as its last member
    let mut plain = doc(&serde_json::from_str::<Value>(r#"{"a":1}"#).unwrap());
    let d0 = digest_json(&plain);
    stamp_eid(&mut plain, 0, "E5".to_string());
    match &plain.nodes[0] {
        JsonNode::Object(m) => assert_eq!(m.last().map(|(k, at)| (k.as_str(), *at)), Some(("eid", 2))),
        _ => unreachable!(),
    }
    assert_eq!(digest_json(&plain), d0);
    // a value that is no object is left alone
    let mut scalar = doc(&Value::from(3));
    stamp_eid(&mut scalar, 0, "E6".to_string());
    assert_eq!(scalar.nodes.len(), 1);
}

#[test]
fn results_that_differ_only_in_evidence_ids_share_a_digest() {
    let a: Value = serde_json::from_str(r#"{"eid":"E1","items":[{"eid":"E2","n":1},{"n":2}],"ok":true}"#).unwrap();
    let b: Value = serde_json::from_str(r#"{"items":[{"n":1},{"n":2,"eid":"E9"}],"ok":true,"eid":"E40"}"#).unwrap();
    let c: Value = serde_json::from_str(r#"{"items":[{"n":1},{"n":3}],"ok":true}"#).unwrap();
    assert_eq!(digest_json(&doc(&a)), digest_json(&doc(&b)));
    assert_ne!(digest_json(&doc(&a)), digest_json(&doc(&c)));
}

fn str_member(d: &JsonDoc, key: &str) -> String {
    match &d.nodes[0] {
        JsonNode::Object(m) => match &d.nodes[m.iter().find(|(k, _)| k == key).unwrap().1] {
            JsonNode::Str(s) => s.clone(),
            _ => unreachable!(),
        },
        _ => unreachable!(),
    }
}

#[test]
fn an_oversized_item_has_its_longest_string_halved_until_it_fits_or_is_short() {
    let long = "x".repeat(100);
    let v: Value = serde_json::from_str(&format!(r#"{{"a":"{long}","b":"short","n":1}}"#)).unwrap();
    let mut d = doc(&v);
    assert_eq!(compact_json(&d), serde_json::to_string(&v).unwrap());
    cap_item(&mut d, 60);
    // 100 bytes -> 50 + marker (61 bytes, under 64: no further round)
    assert_eq!(str_member(&d, "a"), format!("{}…[capped]", "x".repeat(50)));
    assert_eq!(str_member(&d, "b"), "short");
    // an item that fits is left alone
    let mut small = doc(&v);
    cap_item(&mut small, 1000);
    assert_eq!(str_member(&small, "a"), long);
    // the cut falls back to a character boundary
    let wide: Value = serde_json::from_str(&format!(r#"{{"s":"{}"}}"#, "é".repeat(40))).unwrap();
    let mut w = doc(&wide);
    cap_item(&mut w, 10);
    assert_eq!(str_member(&w, "s"), format!("{}…[capped]", "é".repeat(20)));
}
