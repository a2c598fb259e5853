use spyglass::bundle::{bundle_budget, bundle_counts, bundle_cut, cascade_groups, changepoint_cascades, coverage, deploy_relations, deploys_considered, incident_onset, kind_diverse_order, origin_order, order_by_start, series_labels, CascadePoint, Kind, OnsetChange, OnsetSource, OnsetTemplate};
use spyglass::events::{Event, Window};
use spyglass::recovery::DeployEvent;
use spyglass::changepoints::Direction;

#[test]
fn labels_are_read_from_between_the_braces() {
    let l = series_labels(r#"http_requests{service="payments",route="/charge",status="5xx"}"#);
    assert_eq!(
        l,
        vec![
            ("route".to_string(), "/charge".to_string()),
            ("service".to_string(), "payments".to_string()),
            ("status".to_string(), "5xx".to_string()),
        ]
    );
    assert!(series_labels("error_rate").is_empty());
    assert!(series_labels("x{}").is_empty());
    assert_eq!(series_labels(r#"x{a="1",a="2",junk}"#), vec![("a".to_string(), "2".to_string())]);
}

#[test]
fn kinds_and_directions_have_their_names() {
    assert_eq!(Kind::Template.as_str(), "novel_template");
    assert_eq!(Kind::Changepoint.as_str(), "changepoint");
    assert_eq!(Kind::Deploy.as_str(), "deploy");
    assert_eq!(Direction::Up.as_str(), "up");
    assert_eq!(Direction::Down.as_str(), "down");
}

fn ids(v: &[&[&str]]) -> Vec<Vec<String>> {
    v.iter().map(|x| x.iter().map(|s| s.to_string()).collect()).collect()
}

#[test]
fn templates_sharing_a_request_are_one_cascade_transitively() {
    // 0 ~ 2 through r1, 2 ~ 4 through r9; 1 alone; 3 has no requests.
    let r = ids(&[&["r1", "r2"], &["r5"], &["r9", "r1"], &[], &["r9"]]);
    assert_eq!(cascade_groups(&r), vec![vec![0, 2, 4], vec![1], vec![3]]);
    assert_eq!(cascade_groups(&ids(&[])), Vec::<Vec<usize>>::new());
    assert_eq!(cascade_groups(&ids(&[&[], &[]])), vec![vec![0], vec![1]]);
}

#[test]
fn the_origin_is_the_earliest_then_the_one_with_a_stack_then_the_most_severe() {
    let first = vec![Some(30), Some(10), Some(10), None, Some(10)];
    let stack = vec![true, false, true, false, true];
    let level: Vec<String> = ["ERROR", "ERROR", "WARN", "INFO", "FATAL"].iter().map(|s| s.to_string()).collect();
    // 3 has no first-seen (sorts first); among the 10s, 2 and 4 have stacks and 4 is more severe.
    assert_eq!(origin_order(&vec![0, 1, 2, 3, 4], &first, &stack, &level), vec![3, 4, 2, 1, 0]);
    assert_eq!(origin_order(&vec![0, 1], &first, &stack, &level), vec![1, 0]);
}

fn ev(ts: i64, raw: &str, template: &str) -> Event {
    Event {
        event_id: String::new(),
        ts,
        service: "s".into(),
        instance: "s".into(),
        version: String::new(),
        level: "INFO".into(),
        req_id: None,
        msg: String::new(),
        route: None,
        status: None,
        deploy_id: None,
        upstream: None,
        kind: None,
        has_stack: false,
        template_id: template.into(),
        pattern: String::new(),
        raw: raw.into(),
    }
}

#[test]
fn coverage_counts_events_bytes_and_templates_in_the_window() {
    let evs = vec![ev(1, "abc", "T1"), ev(5, "héllo", "T2"), ev(6, "x", "T1"), ev(9, "zz", "T3")];
    let c = coverage(&evs, Window { from: 2, to: 8 });
    assert_eq!(c.events_scanned, 2);
    assert_eq!(c.bytes_scanned, 7, "UTF-8 bytes: é is two");
    assert_eq!(c.templates_in_window, 2);
}

fn dep(id: Option<&str>, ts: i64) -> DeployEvent {
    DeployEvent {
        n: 0,
        kind: "deploy".into(),
        deploy_id: id.map(str::to_string),
        service: "payments".into(),
        version: None,
        from_version: None,
        ts,
        actor: "operator".into(),
        request_id: None,
        justification_eids: vec![],
        note: None,
    }
}

#[test]
fn deploys_in_the_window_or_cited_before_it_are_considered() {
    let d = vec![dep(Some("D-1"), 1), dep(Some("D-2"), 2), dep(None, 5), dep(Some("D-3"), 6), dep(Some("D-4"), 20)];
    let cited = vec!["D-2".to_string(), "D-4".to_string()];
    assert_eq!(deploys_considered(&d, Window { from: 4, to: 10 }, &cited), vec![1, 3]);
}

#[test]
fn the_head_holds_the_best_of_each_kind_then_the_rest_follow_by_score() {
    let k = vec![Kind::Deploy, Kind::Template, Kind::Template, Kind::Changepoint, Kind::Deploy];
    assert_eq!(kind_diverse_order(&k), vec![0, 1, 3, 2, 4]);
    assert_eq!(kind_diverse_order(&vec![Kind::Template, Kind::Template]), vec![0, 1]);
    assert!(kind_diverse_order(&vec![]).is_empty());
}

fn cp(metric: &str, direction: &str, at: Option<i64>) -> OnsetChange {
    OnsetChange { metric: metric.into(), direction: direction.into(), at }
}

fn tpl(level: &str, first_seen: Option<i64>) -> OnsetTemplate {
    OnsetTemplate { dominant_level: level.into(), first_seen }
}

#[test]
fn the_onset_is_the_earliest_error_step_else_the_earliest_error_template() {
    let cps = vec![cp("latency_ms_mean", "up", Some(5)), cp("error_rate", "up", Some(40)), cp("errors_total", "up", Some(30)), cp("error_rate", "down", Some(1)), cp("error_rate", "up", None)];
    let ts = vec![tpl("ERROR", Some(10)), tpl("CRITICAL", Some(20))];
    let (t, src) = incident_onset(&cps, &ts, 99);
    assert_eq!((t, src.as_str()), (30, "earliest_error_changepoint"));
    let (t, src) = incident_onset(&vec![cp("latency_ms_mean", "up", Some(5))], &vec![tpl("WARNING", Some(1)), tpl("FATAL", Some(25)), tpl("ERROR", Some(12))], 99);
    assert_eq!((t, src), (12, OnsetSource::EarliestNovelErrorTemplate));
    let (t, src) = incident_onset(&vec![], &vec![tpl("INFO", Some(3)), tpl("ERROR", None)], 99);
    assert_eq!((t, src.as_str()), (99, "window_end"));
}

fn pt(at: Option<i64>, error_step: bool, service: &str) -> CascadePoint {
    CascadePoint { at, error_step, service: service.into() }
}

#[test]
fn changepoints_are_visited_in_start_order_with_unreadable_times_first() {
    let pts = vec![pt(Some(30), true, "a"), pt(None, false, "a"), pt(Some(10), true, "a"), pt(Some(10), false, "b")];
    assert_eq!(order_by_start(&pts), vec![1, 2, 3, 0]);
}

#[test]
fn error_steps_close_in_time_on_connected_services_form_one_cascade() {
    let edges = vec![("gateway".to_string(), "orders".to_string()), ("orders".to_string(), "payments".to_string())];
    let s = 1_000_000;
    let pts = vec![
        pt(Some(100 * s), true, "payments"),
        pt(Some(104 * s), true, "gateway"),
        pt(Some(101 * s), false, "orders"),
        pt(Some(130 * s), true, "orders"),
        pt(Some(102 * s), true, "redis"),
    ];
    let g = changepoint_cascades(&pts, &edges, 200 * s, 5_000);
    assert_eq!(g, vec![(0, vec![1]), (2, vec![]), (4, vec![]), (3, vec![])]);
    // a wider span takes in the later step too
    let g = changepoint_cascades(&pts, &edges, 200 * s, 40_000);
    assert_eq!(g, vec![(0, vec![1, 3]), (2, vec![]), (4, vec![])]);
}

#[test]
fn the_bundle_keeps_the_longest_prefix_within_its_item_and_byte_bounds() {
    assert_eq!(bundle_budget(8192), 6792);
    assert_eq!(bundle_budget(1000), 0);
    let sizes = vec![100, 200, 300, 400];
    // each item costs its size and one separator byte
    assert_eq!(bundle_cut(&sizes, 20, 603), 3);
    assert_eq!(bundle_cut(&sizes, 20, 602), 2);
    assert_eq!(bundle_cut(&sizes, 2, 10_000), 2);
    assert_eq!(bundle_cut(&sizes, 20, 10_000), 4);
    assert_eq!(bundle_cut(&sizes, 20, 50), 0);
    let c = bundle_counts(&sizes, 20, 602);
    assert_eq!((c.facts_after_dedupe, c.items_returned, c.truncated), (4, 2, true));
    let c = bundle_counts(&sizes, 20, 10_000);
    assert!(!c.truncated);
}

#[test]
fn a_deploy_precedes_the_changes_within_its_correlation_window() {
    let s = 1_000_000;
    let kinds = vec![Kind::Deploy, Kind::Template, Kind::Changepoint, Kind::Deploy, Kind::Template];
    let times = vec![100 * s, 130 * s, 99 * s, 200 * s, 320 * s + 500];
    let rels = deploy_relations(&kinds, &times, &vec![0, 1, 2, 3, 4], 120);
    assert_eq!(rels, vec![(0, 1), (3, 4)]);
    // only chosen facts relate
    assert_eq!(deploy_relations(&kinds, &times, &vec![0, 2], 120), vec![]);
}
