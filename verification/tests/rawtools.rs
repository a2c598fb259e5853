use serde_json::Value;
use spyglass::body::{JsonDoc, JsonNode};
use spyglass::rawtools::{
    deploy_events, get_metric, grep_logs, http_plan, pattern_error, response, tail_logs, text_lines, ts_of, DeployArgs,
    GrepArgs, HttpArgs, HttpMethod, MetricArgs, TailArgs,
};

fn push_node(v: &Value, nodes: &mut Vec<JsonNode>) -> usize {
    let at = nodes.len();
    nodes.push(JsonNode::Null);
    let node = match v {
        Value::Null => JsonNode::Null,
        Value::Bool(b) => JsonNode::Bool(*b),
        Value::Number(n) => JsonNode::Number(n.to_string()),
        Value::String(s) => JsonNode::Str(s.clone()),
        Value::Array(a) => {
            let mut ids = Vec::new();
            for x in a {
                ids.push(push_node(x, nodes));
            }
            JsonNode::Array(ids)
        }
        Value::Object(m) => {
            let mut ms = Vec::new();
            for (k, x) in m {
                ms.push((k.clone(), push_node(x, nodes)));
            }
            JsonNode::Object(ms)
        }
    };
    nodes[at] = node;
    at
}

fn parsed(line: &str) -> Option<JsonDoc> {
    let v: Value = serde_json::from_str(line).ok()?;
    let mut nodes = Vec::new();
    push_node(&v, &mut nodes);
    Some(JsonDoc { nodes })
}

fn line(ts: &str, level: &str, msg: &str) -> String {
    format!("{{\"ts\":\"{ts}\",\"level\":\"{level}\",\"msg\":\"{msg}\"}}")
}

fn strings(v: &[&str]) -> Vec<String> {
    v.iter().map(|s| s.to_string()).collect()
}

#[test]
fn the_timestamp_is_read_from_its_fixed_place_in_the_line() {
    assert_eq!(ts_of(&line("2026-08-29T09:27:45.287Z", "INFO", "x")), "2026-08-29T09:27:45.287Z");
    assert_eq!(ts_of("{\"ts\":\"short"), "");
    // byte 7 falls inside the two-byte 'é': no timestamp
    assert_eq!(ts_of("{\"ts\":é2026-08-29T09:27:45.287Z\"}"), "");
    // a two-byte 'é' in place of the two letters keeps both ends on boundaries
    assert_eq!(ts_of("{\"é\":\"2026-08-29T09:27:45.287Z\"}"), "2026-08-29T09:27:45.287Z");
}

#[test]
fn tail_keeps_the_most_recent_lines_at_the_level_asked() {
    let lines = vec![
        line("2026-08-29T09:00:00.000Z", "INFO", "a"),
        line("2026-08-29T09:00:01.000Z", "ERROR", "b"),
        line("2026-08-29T09:00:02.000Z", "ERROR", "c"),
        line("2026-08-29T09:00:03.000Z", "INFO", "d"),
        line("2026-08-29T09:00:04.000Z", "ERROR", "e"),
    ];
    let a = TailArgs { instance: "gateway".into(), lines: Some(2), level: Some("error".into()) };
    let out = tail_logs("data/logs/gateway.jsonl", &lines, &a);
    assert_eq!(out, format!("# 2 of 3 lines from data/logs/gateway.jsonl (most recent 2)\n{}\n{}\n", lines[2], lines[4]));
    let all = TailArgs { instance: "gateway".into(), lines: None, level: None };
    let out = tail_logs("g", &lines, &all);
    assert!(out.starts_with("# 5 of 5 lines from g (most recent 100)\n"));
    assert_eq!(out.lines().count(), 6);
    let zero = TailArgs { instance: "gateway".into(), lines: Some(0), level: None };
    assert_eq!(tail_logs("g", &lines, &zero), format!("# 1 of 5 lines from g (most recent 1)\n{}\n", lines[4]));
    let big = TailArgs { instance: "gateway".into(), lines: Some(5000), level: None };
    assert!(tail_logs("g", &lines, &big).starts_with("# 5 of 5 lines from g (most recent 1000)\n"));
}

fn grep(pattern: &str, since: Option<&str>, until: Option<&str>, limit: Option<usize>) -> GrepArgs {
    GrepArgs {
        pattern: pattern.into(),
        instance: None,
        since: since.map(str::to_string),
        until: until.map(str::to_string),
        limit,
    }
}

#[test]
fn grep_returns_matches_oldest_first_across_files() {
    // two files read one after the other: orders, then payments
    let lines = vec![
        line("2026-08-29T09:00:02.000Z", "ERROR", "orders failed"),
        line("2026-08-29T09:00:05.000Z", "INFO", "orders ok"),
        line("2026-08-29T09:00:01.000Z", "ERROR", "payments failed"),
        line("2026-08-29T09:00:02.000Z", "ERROR", "payments failed again"),
    ];
    let out = grep_logs(&grep("failed", None, None, None), &lines, 2).unwrap();
    assert_eq!(
        out,
        format!("# 3 of 3 matching lines across 2 file(s)\n{}\n{}\n{}\n", lines[2], lines[0], lines[3])
    );
    let windowed = grep_logs(&grep("failed", Some("2026-08-29T09:00:02.000Z"), Some("2026-08-29T09:00:02.000Z"), None), &lines, 2).unwrap();
    assert_eq!(windowed, format!("# 2 of 2 matching lines across 2 file(s)\n{}\n{}\n", lines[0], lines[3]));
    let cut = grep_logs(&grep("ERROR", None, None, Some(1)), &lines, 2).unwrap();
    assert_eq!(
        cut,
        format!("# 1 of 3 matching lines across 2 file(s) -- TRUNCATED; narrow the window or raise limit\n{}\n", lines[2])
    );
    let none = grep_logs(&grep("nothing here", None, None, None), &lines, 0).unwrap();
    assert_eq!(none, "# 0 of 0 matching lines across 0 file(s)\n");
}

#[test]
fn a_pattern_that_does_not_compile_is_refused() {
    let lines = vec![line("2026-08-29T09:00:02.000Z", "ERROR", "x")];
    let e = grep_logs(&grep("(unclosed", None, None, None), &lines, 1).unwrap_err();
    assert!(e.starts_with("bad regex: "));
    assert_eq!(pattern_error("(unclosed"), Some(e));
    assert_eq!(pattern_error("ok|fine"), None);
}

#[test]
fn lines_split_as_str_lines_does() {
    assert_eq!(text_lines("a\r\nb\n\nc"), strings(&["a", "b", "", "c"]));
    assert_eq!(text_lines("a\n"), strings(&["a"]));
    assert_eq!(text_lines(""), Vec::<String>::new());
    assert_eq!(text_lines("\n"), strings(&[""]));
    let text = "x\r\ny\n\r\nz\r";
    assert_eq!(text_lines(text), text.lines().map(str::to_string).collect::<Vec<_>>());
}

#[test]
fn metrics_drop_comments_and_keep_the_names_asked() {
    let body = "# HELP requests_total all\r\n# TYPE requests_total counter\r\nrequests_total{route=\"/\"} 5\r\nerrors_total 2\r\n";
    let all = get_metric("http://127.0.0.1:8080/metrics", "unix 7", body, &MetricArgs { instance: "gateway".into(), name: None });
    assert_eq!(all, "# http://127.0.0.1:8080/metrics (fetched unix 7)\nrequests_total{route=\"/\"} 5\nerrors_total 2\n");
    let some = get_metric("u", "t", body, &MetricArgs { instance: "gateway".into(), name: Some("errors".into()) });
    assert_eq!(some, "# u (fetched t)\nerrors_total 2\n");
}

fn http(method: Option<&str>, path: &str, headers: &[&str]) -> HttpArgs {
    HttpArgs {
        instance: "payments-v1".into(),
        method: method.map(str::to_string),
        path: path.into(),
        body: Some("{\"amount\":1}".into()),
        headers: strings(headers),
    }
}

#[test]
fn a_request_is_checked_before_it_is_sent() {
    let base = Some("http://127.0.0.1:8082".to_string());
    let p = http_plan(base.clone(), &http(Some("post"), "/charge", &["content-type: application/json", "nocolon", " a : b:c "])).unwrap();
    assert_eq!(p.url, "http://127.0.0.1:8082/charge");
    assert_eq!(p.method, HttpMethod::Post);
    assert_eq!(p.headers, vec![("content-type".to_string(), "application/json".to_string()), ("a".to_string(), "b:c".to_string())]);
    assert_eq!(p.body.as_deref(), Some("{\"amount\":1}"));
    assert_eq!(http_plan(base.clone(), &http(None, "/health", &[])).unwrap().method, HttpMethod::Get);
    assert_eq!(http_plan(None, &http(None, "/health", &[])).unwrap_err(), "no published port for 'payments-v1'");
    assert_eq!(http_plan(base.clone(), &http(None, "health", &[])).unwrap_err(), "path must start with '/'");
    assert_eq!(http_plan(base, &http(Some("put"), "/x", &[])).unwrap_err(), "method PUT not allowed (GET | POST)");
}

#[test]
fn a_response_body_is_capped_at_two_kilobytes() {
    let short = response(200, "1.5", "application/json", "r-1", "{}");
    assert_eq!(short, "HTTP 200 (1.5 ms)\ncontent-type: application/json\nx-request-id: r-1\n\n{}\n");
    // 2047 ASCII bytes, then a three-byte character that would cross 2048
    let body = format!("{}€tail", "a".repeat(2047));
    let long = response(502, "0.3", "text/plain", "", &body);
    assert_eq!(long, format!("HTTP 502 (0.3 ms)\ncontent-type: text/plain\nx-request-id: \n\n{}…[capped at 2 kB]\n", "a".repeat(2047)));
    let exact = "b".repeat(2048);
    assert_eq!(response(200, "1.0", "", "", &exact), format!("HTTP 200 (1.0 ms)\ncontent-type: \nx-request-id: \n\n{exact}\n"));
}

#[test]
fn the_journal_is_filtered_by_time_and_service() {
    let body = "{\"n\":1,\"ts\":\"2026-08-29T09:00:00Z\",\"service\":\"payments\"}\nnot json\n{\"n\":2,\"ts\":\"2026-08-29T10:00:00Z\",\"service\":\"orders\"}\n{\"n\":3,\"ts\":\"2026-08-29T11:00:00Z\",\"service\":\"payments\"}\n";
    let lines = text_lines(body);
    let docs: Vec<Option<JsonDoc>> = lines.iter().map(|l| parsed(l)).collect();
    let all = deploy_events("data/deploy/journal.jsonl", body, &docs, &DeployArgs { since: None, service: None });
    assert_eq!(all, format!("# 4 journal entries from data/deploy/journal.jsonl\n{}\n", lines.join("\n")));
    let later = deploy_events("j", body, &docs, &DeployArgs { since: Some("2026-08-29T10:00:00Z".into()), service: None });
    assert_eq!(later, format!("# 2 journal entries from j\n{}\n{}\n", lines[2], lines[3]));
    let pay = deploy_events("j", body, &docs, &DeployArgs { since: None, service: Some("payments".into()) });
    assert_eq!(pay, format!("# 2 journal entries from j\n{}\n{}\n", lines[0], lines[3]));
    let none = deploy_events("j", body, &docs, &DeployArgs { since: None, service: Some("gateway".into()) });
    assert_eq!(none, "# 0 journal entries from j\n\n");
}
