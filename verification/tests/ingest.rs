use serde_json::Value;
use spyglass::body::{JsonDoc, JsonNode};
use spyglass::config::DrainCfg;
use spyglass::ingest::{absorb_lines, metric_samples, record_deploy, take_lines, Cursor};
use spyglass::recovery::DeployEvent;
use spyglass::store::Store;

fn push_node(v: &Value, nodes: &mut Vec<JsonNode>) -> usize {
    let at = nodes.len();
    nodes.push(JsonNode::Null);
    let node = match v {
        Value::Null => JsonNode::Null,
        Value::Bool(b) => JsonNode::Bool(*b),
        Value::Number(n) => JsonNode::Number(n.to_string()),
        Value::String(s) => JsonNode::Str(s.clone()),
        Value::Array(a) => {
            let mut ids = Vec::new();
            for x in a {
                ids.push(push_node(x, nodes));
            }
            JsonNode::Array(ids)
        }
        Value::Object(m) => {
            let mut ms = Vec::new();
            for (k, x) in m {
                ms.push((k.clone(), push_node(x, nodes)));
            }
            JsonNode::Object(ms)
        }
    };
    nodes[at] = node;
    at
}

fn parsed(line: &str) -> Option<JsonDoc> {
    let v: Value = serde_json::from_str(line).ok()?;
    let mut nodes = Vec::new();
    push_node(&v, &mut nodes);
    Some(JsonDoc { nodes })
}

fn watermark(s: &Store, key: &str) -> Option<i64> {
    s.watermarks.entries.iter().find(|(k, _)| k == key).map(|(_, t)| *t)
}

#[test]
fn only_complete_lines_are_consumed_and_blank_ones_skipped() {
    let cur = Cursor { offset: 10, lineno: 3 };
    let bytes = b"a\nb\r\n  \npartial".to_vec();
    let (lines, c) = take_lines(40, cur, &bytes).unwrap();
    assert_eq!(lines, vec![(4, "a".to_string()), (5, "b\r".to_string())]);
    assert_eq!(c, Cursor { offset: 10 + 8, lineno: 6 });
}

#[test]
fn a_file_shorter_than_the_cursor_was_reset() {
    let cur = Cursor { offset: 10, lineno: 3 };
    assert!(take_lines(9, cur, &b"x\n".to_vec()).is_none());
    let (lines, c) = take_lines(10, cur, &b"x\n".to_vec()).unwrap();
    assert!(lines.is_empty());
    assert_eq!(c, cur);
    let start = Cursor::start();
    assert_eq!((start.offset, start.lineno), (0, 0));
}

#[test]
fn invalid_utf8_is_read_with_replacement_characters() {
    let (lines, c) = take_lines(4, Cursor::start(), &vec![b'o', 0xff, b'k', b'\n']).unwrap();
    assert_eq!(lines, vec![(1, "o\u{fffd}k".to_string())]);
    assert_eq!(c.offset, 4);
}

#[test]
fn a_line_cut_short_is_read_whole_on_the_next_tick() {
    let all = b"one\ntw".to_vec();
    let (first, c1) = take_lines(6, Cursor::start(), &all).unwrap();
    assert_eq!(first, vec![(1, "one".to_string())]);
    let mut rest = all[c1.offset as usize..].to_vec();
    rest.extend_from_slice(b"o\nthree\n");
    let (second, c2) = take_lines(14, c1, &rest).unwrap();
    assert_eq!(second, vec![(2, "two".to_string()), (3, "three".to_string())]);
    let mut whole = all.clone();
    whole.extend_from_slice(b"o\nthree\n");
    let (once, c) = take_lines(14, Cursor::start(), &whole).unwrap();
    assert_eq!(once, [first, second].concat());
    assert_eq!(c, c2);
    assert_eq!(c, Cursor { offset: 14, lineno: 3 });
}

#[test]
fn lines_become_events_replays_are_counted_and_garbage_is_malformed() {
    let mut s = Store::new(DrainCfg { depth: 3, similarity_threshold_ppm: 500_000, max_children: 100 });
    let raw = vec![
        (1, r#"{"ts":"2026-08-29T09:27:45.287Z","service":"payments","level":"ERROR","req_id":"r-1","msg":"payment validation failed"}"#.to_string()),
        (2, r#"{"ts":"2026-08-29T09:27:46.000Z","req_id":"replay-7","msg":"replayed"}"#.to_string()),
        (3, "not json".to_string()),
        (4, r#"{"ts":"yesterday","msg":"bad time"}"#.to_string()),
        (5, r#"{"ts":"2026-08-29T09:27:47.000Z","msg":"request completed"}"#.to_string()),
    ];
    let docs: Vec<Option<JsonDoc>> = raw.iter().map(|(_, l)| parsed(l)).collect();
    let stored = absorb_lines(&mut s, "payments-v2", &raw, &docs);
    assert_eq!(stored, vec![0, 4]);
    assert_eq!((s.malformed, s.replay_lines_excluded, s.ingested), (2, 1, 2));
    assert_eq!(s.events.len(), 2);
    let e = &s.events[0];
    assert_eq!((e.event_id.as_str(), e.service.as_str(), e.instance.as_str(), e.level.as_str()), ("payments-v2:1", "payments", "payments-v2", "ERROR"));
    assert_eq!(e.template_id, "T1");
    assert_eq!(s.events[1].event_id, "payments-v2:5");
    assert_eq!(s.events[1].level, "INFO");
    assert_eq!(watermark(&s, "log:payments-v2"), Some(s.events[1].ts));
}

fn dep(n: u64, ts: i64) -> DeployEvent {
    DeployEvent {
        n,
        kind: "deploy".into(),
        deploy_id: Some(format!("d-{n}")),
        service: "payments".into(),
        version: Some("v2".into()),
        from_version: Some("v1".into()),
        ts,
        actor: "operator".into(),
        request_id: None,
        justification_eids: vec![],
        note: None,
    }
}

#[test]
fn the_journal_watermark_only_rises() {
    let mut s = Store::new(DrainCfg { depth: 3, similarity_threshold_ppm: 500_000, max_children: 100 });
    record_deploy(&mut s, dep(1, 50));
    record_deploy(&mut s, dep(2, 20));
    assert_eq!(s.deploys.len(), 2);
    assert_eq!(s.deploys[1].n, 2);
    assert_eq!(watermark(&s, "journal"), Some(50));
    record_deploy(&mut s, dep(3, 70));
    assert_eq!(watermark(&s, "journal"), Some(70));
    assert!(s.events.is_empty());
}

#[test]
fn a_scrape_keeps_the_counters_by_series() {
    let text = "# TYPE requests_total counter\nrequests_total{route=\"/charge\",status=\"500\"} 12\nerrors_total 3\ngo_goroutines 8\nlatency_ms_sum{route=\"/\"} 1.5e3\nnovalue\n";
    let got = metric_samples("payments-v2", text);
    assert_eq!(
        got,
        vec![
            ("payments-v2|requests_total{route=\"/charge\",status=\"500\"}".to_string(), "12".to_string()),
            ("payments-v2|errors_total".to_string(), "3".to_string()),
            ("payments-v2|latency_ms_sum{route=\"/\"}".to_string(), "1.5e3".to_string()),
        ]
    );
    assert!(metric_samples("gateway", "").is_empty());
}
