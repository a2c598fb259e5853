use spyglass::events::{Event, Window};
use spyglass::config::DrainCfg;
use spyglass::store::Store;
use spyglass::tools::{error_counts, error_delta, parse_group_by, resolve_at, severity_rank, tokenize, DeltaArgs, GroupBy, WindowArg};

fn us(t: &str) -> i64 {
    t.parse::<chrono::DateTime<chrono::Utc>>().unwrap().timestamp_micros()
}

#[test]
fn tokens_are_lowercase_alphanumeric_runs_of_two_bytes_or_more() {
    assert_eq!(tokenize("Payment FAILED: card-declined, x=1"), vec!["payment", "failed", "card", "declined"]);
    assert_eq!(tokenize(""), Vec::<String>::new());
    assert_eq!(tokenize("a b c"), Vec::<String>::new());
    // A single two-byte letter is long enough.
    assert_eq!(tokenize("é"), vec!["é"]);
}

#[test]
fn severity_ranks() {
    assert_eq!(severity_rank("FATAL"), 4);
    assert_eq!(severity_rank("CRITICAL"), 4);
    assert_eq!(severity_rank("ERROR"), 3);
    assert_eq!(severity_rank("WARN"), 2);
    assert_eq!(severity_rank("WARNING"), 2);
    assert_eq!(severity_rank("INFO"), 1);
    assert_eq!(severity_rank("DEBUG"), 0);
    assert_eq!(severity_rank("error"), 0);
}

#[test]
fn an_absent_window_is_the_lookback_ending_at_the_watermark() {
    let wm = us("2026-08-29T09:30:00Z");
    let w = resolve_at(wm, 900, None).unwrap();
    assert_eq!(w, Window { from: us("2026-08-29T09:15:00Z"), to: wm });
    let empty = WindowArg { from: None, to: None };
    assert!(empty.given().is_none());
}

#[test]
fn given_ends_are_parsed_and_checked() {
    let wm = us("2026-08-29T09:30:00Z");
    let a = WindowArg { from: Some("2026-08-29T09:00:00Z".into()), to: None };
    assert_eq!(resolve_at(wm, 900, a.given()).unwrap(), Window { from: us("2026-08-29T09:00:00Z"), to: wm });
    let b = WindowArg { from: None, to: Some("2026-08-29T09:10:00Z".into()) };
    assert_eq!(resolve_at(wm, 60, b.given()).unwrap(), Window { from: us("2026-08-29T09:09:00Z"), to: us("2026-08-29T09:10:00Z") });
    let bad = WindowArg { from: Some("yesterday".into()), to: None };
    assert!(resolve_at(wm, 60, bad.given()).unwrap_err().starts_with("bad timestamp 'yesterday': "));
    let backwards = WindowArg { from: Some("2026-08-29T09:20:00Z".into()), to: Some("2026-08-29T09:10:00Z".into()) };
    assert_eq!(resolve_at(wm, 60, backwards.given()).unwrap_err(), "window.from is after window.to");
}

fn req(service: &str, instance: &str, route: &str, status: u16, ts: i64) -> Event {
    Event {
        event_id: format!("{instance}:{ts}"),
        ts,
        service: service.into(),
        instance: instance.into(),
        version: String::new(),
        level: "INFO".into(),
        req_id: None,
        msg: String::new(),
        route: Some(route.into()),
        status: Some(status),
        deploy_id: None,
        upstream: None,
        kind: None,
        has_stack: false,
        template_id: String::new(),
        pattern: String::new(),
        raw: String::new(),
    }
}

#[test]
fn error_counts_group_request_lines_per_window() {
    let events = vec![
        req("payments", "payments-v2", "/charge", 200, 10),
        req("payments", "payments-v2", "/charge", 500, 110),
        req("payments", "payments-v1", "/charge", 502, 120),
        req("orders", "orders", "/orders", 200, 115),
        req("orders", "orders", "/orders", 503, 15),
    ];
    let wa = Window { from: 0, to: 99 };
    let wb = Window { from: 100, to: 199 };
    let rows = error_counts(&events, &vec![], GroupBy::Service, &wa, &wb);
    let got: Vec<(String, u64, u64, u64, u64)> =
        rows.iter().map(|r| (r.group.clone(), r.a_requests, r.a_errors, r.b_requests, r.b_errors)).collect();
    assert_eq!(got, vec![("orders".to_string(), 1, 1, 1, 0), ("payments".to_string(), 1, 0, 2, 2)]);
    let rows = error_counts(&events, &vec!["payments-v2".into()], GroupBy::Route, &wa, &wb);
    assert_eq!(rows.len(), 1);
    assert_eq!(rows[0].group, "payments /charge");
    assert_eq!((rows[0].a_requests, rows[0].b_requests, rows[0].b_errors), (1, 1, 1));
}

#[test]
fn group_by_defaults_to_service_and_refuses_others() {
    assert_eq!(parse_group_by(&None), Ok(GroupBy::Service));
    assert_eq!(parse_group_by(&Some("instance".into())), Ok(GroupBy::Instance));
    assert_eq!(parse_group_by(&Some("host".into())), Err("group_by must be service | route | instance".to_string()));
}

#[test]
fn error_delta_defaults_to_the_last_minute_against_the_five_before() {
    const S: i64 = 1_000_000;
    let mut s = Store::new(DrainCfg { depth: 3, similarity_threshold_ppm: 500_000, max_children: 100 });
    s.append(req("payments", "payments-v2", "/charge", 200, 100 * S));
    s.append(req("payments", "payments-v2", "/charge", 500, 350 * S));
    s.append(req("payments", "payments-v2", "/charge", 500, 400 * S));
    let none = WindowArg { from: None, to: None };
    let a = DeltaArgs { window_a: none.clone(), window_b: none.clone(), group_by: None, services: vec![] };
    let r = error_delta(&s, 900, &a).unwrap();
    assert_eq!(r.window_b, Window { from: 340 * S, to: 400 * S });
    assert_eq!(r.window_a, Window { from: 40 * S, to: 340 * S });
    assert_eq!(r.group_by, GroupBy::Service);
    assert_eq!(r.rows.len(), 1);
    assert_eq!((r.rows[0].a_requests, r.rows[0].a_errors, r.rows[0].b_requests, r.rows[0].b_errors), (1, 0, 2, 2));
    let bad = DeltaArgs { window_a: none.clone(), window_b: none, group_by: Some("host".into()), services: vec![] };
    assert_eq!(error_delta(&s, 900, &bad).unwrap_err(), "group_by must be service | route | instance");
}
