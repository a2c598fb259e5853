use spyglass::config::{DrainCfg, ReplayRoute, ServiceCfg};
use spyglass::events::{capture_index, Event, Window};
use spyglass::identity::mask;
use spyglass::replay::{
    captured_request, chain, evidence_exemplars, replay_hint, chain_edge, chain_origin, cited_exemplar, is_eid, plan_targets, replay_n, resolve_exemplar,
    resolve_selector, select, template_of_record, EvidenceRef, ExemplarArgs, Selector,
};
use spyglass::tools::WindowArg;
use spyglass::store::Store;

fn us(t: &str) -> i64 {
    t.parse::<chrono::DateTime<chrono::Utc>>().unwrap().timestamp_micros()
}

#[allow(clippy::too_many_arguments)]
fn ev(
    s: &mut Store,
    instance: &str,
    n: u64,
    ts: &str,
    service: &str,
    level: &str,
    req: &str,
    msg: &str,
    route: Option<&str>,
    status: Option<u16>,
    kind: Option<&str>,
) {
    let e = Event {
        event_id: format!("{instance}:{n}"),
        ts: us(ts),
        service: service.into(),
        instance: instance.into(),
        version: String::new(),
        level: level.into(),
        req_id: Some(req.into()),
        msg: msg.into(),
        route: route.map(str::to_string),
        status,
        deploy_id: None,
        upstream: None,
        kind: kind.map(str::to_string),
        has_stack: false,
        template_id: String::new(),
        pattern: mask(msg),
        raw: String::new(),
    };
    s.append(e);
}

fn w(from: &str, to: &str) -> Window {
    Window { from: us(from), to: us(to) }
}

/// Files are ingested one after another, so the store's order is payments
/// then gateway here -- the opposite of time order.
fn s1_like() -> Store {
    let mut s = Store::new(DrainCfg { depth: 3, similarity_threshold_ppm: 500_000, max_children: 100 });
    ev(&mut s, "payments-v2", 1, "2026-08-29T09:27:46.000Z", "payments", "ERROR", "r-later", "payment validation failed: unsupported currency GBP req=r-later", Some("/charge"), Some(500), None);
    ev(&mut s, "payments-v2", 2, "2026-08-29T09:27:45.287Z", "payments", "ERROR", "r-first", "payment validation failed: unsupported currency EUR req=r-first", Some("/charge"), Some(500), None);
    ev(&mut s, "payments-v2", 3, "2026-08-29T09:27:45.100Z", "payments", "ERROR", "r-nocap", "payment validation failed: unsupported currency JPY req=r-nocap", Some("/charge"), Some(500), None);
    ev(&mut s, "orders", 1, "2026-08-29T09:27:45.290Z", "orders", "ERROR", "r-first", "payments charge failed with HTTP 500", Some("/orders"), Some(502), None);
    ev(&mut s, "gateway", 1, "2026-08-29T09:27:45.280Z", "gateway", "INFO", "r-first", "request captured", None, None, Some("request_capture"));
    ev(&mut s, "gateway", 2, "2026-08-29T09:27:45.295Z", "gateway", "ERROR", "r-first", "checkout failed: orders returned HTTP 502", Some("/checkout"), Some(502), None);
    ev(&mut s, "gateway", 3, "2026-08-29T09:27:45.990Z", "gateway", "INFO", "r-later", "request captured", None, None, Some("request_capture"));
    s
}

fn template_of(s: &Store, req_id: &str) -> String {
    s.events.iter().find(|e| e.req_id.as_deref() == Some(req_id) && e.instance == "payments-v2").unwrap().template_id.clone()
}

#[test]
fn the_capture_index_is_keyed_by_request_id() {
    let s = s1_like();
    let first = capture_index(&s.events, "r-first").unwrap();
    let later = capture_index(&s.events, "r-later").unwrap();
    assert_ne!(first, later);
    assert!(capture_index(&s.events, "r-nocap").is_none());
    assert_eq!(s.events[first].kind.as_deref(), Some("request_capture"));
}

#[test]
fn selection_is_the_earliest_matching_event_with_a_capture_regardless_of_ingest_order() {
    let s = s1_like();
    let t = template_of(&s, "r-first");
    let ex = select(&s.events, &Selector::Template(t), &w("2026-08-29T09:27:00Z", "2026-08-29T09:28:00Z")).unwrap();
    // r-nocap is earlier but has no capture; r-first beats r-later on ts.
    assert_eq!(ex.req_id, "r-first");
    assert_eq!((ex.matching, ex.with_capture), (3, 2));
}

#[test]
fn an_event_selector_ignores_the_window_and_needs_a_capture() {
    let s = s1_like();
    let ev = s.events.iter().find(|e| e.req_id.as_deref() == Some("r-later") && e.instance == "payments-v2").unwrap().event_id.clone();
    let ex = select(&s.events, &Selector::Event(ev), &w("2026-08-29T09:00:00Z", "2026-08-29T09:10:00Z")).unwrap();
    assert_eq!(ex.req_id, "r-later");
    let nocap = s.events.iter().find(|e| e.req_id.as_deref() == Some("r-nocap")).unwrap().event_id.clone();
    assert!(select(&s.events, &Selector::Event(nocap), &w("2026-08-29T09:00:00Z", "2026-08-29T09:10:00Z"))
        .unwrap_err()
        .contains("no captured request"));
}

#[test]
fn route_status_selects_through_the_edge_line() {
    let s = s1_like();
    let ex = select(&s.events, &Selector::RouteStatus("/checkout".into(), 502), &w("2026-08-29T09:27:00Z", "2026-08-29T09:28:00Z")).unwrap();
    assert_eq!(ex.req_id, "r-first");
}

#[test]
fn selection_respects_the_window_and_reports_why_it_found_nothing() {
    let s = s1_like();
    let t = template_of(&s, "r-first");
    let err = select(&s.events, &Selector::Template(t), &w("2026-08-29T09:00:00Z", "2026-08-29T09:10:00Z")).unwrap_err();
    assert!(err.contains("0 matching"), "{err}");
    assert!(select(&s.events, &Selector::Template("T999".into()), &w("2026-08-29T09:00:00Z", "2026-08-29T09:10:00Z")).is_err());
}

// ------------------------------------------------------------------ more

#[test]
fn the_chain_is_the_request_path_in_time_order_without_the_capture() {
    let s = s1_like();
    let c: Vec<&str> = chain(&s.events, "r-first").iter().map(|&i| s.events[i].instance.as_str()).collect();
    assert_eq!(c, vec!["payments-v2", "orders", "gateway"]);
}

#[test]
fn the_no_match_message_names_the_selector_window_and_counts() {
    let s = s1_like();
    let err = select(&s.events, &Selector::RouteStatus("/nowhere".into(), 404), &w("2026-08-29T09:27:00Z", "2026-08-29T09:28:00Z")).unwrap_err();
    assert_eq!(
        err,
        "no captured request matches /nowhere 404 in the window 2026-08-29T09:27:00.000Z..2026-08-29T09:28:00.000Z (0 matching event(s), none with a request capture); check the template_id, or pass the eid of the template item"
    );
}

#[test]
fn unknown_event_ids_are_refused() {
    let s = s1_like();
    assert_eq!(select(&s.events, &Selector::Event("nope:1".into()), &w("2026-08-29T09:27:00Z", "2026-08-29T09:28:00Z")).unwrap_err(), "unknown event_id 'nope:1'");
}

#[test]
fn selector_labels() {
    assert_eq!(Selector::Template("T3".into()).label(), "T3");
    assert_eq!(Selector::RouteStatus("/checkout".into(), 502).label(), "/checkout 502");
    assert_eq!(Selector::Event("gateway:2".into()).label(), "gateway:2");
}

#[test]
fn replay_counts_are_clamped() {
    assert_eq!(replay_n(None, 20, 50), 20);
    assert_eq!(replay_n(Some(0), 20, 50), 1);
    assert_eq!(replay_n(Some(500), 20, 50), 50);
    assert_eq!(replay_n(Some(7), 20, 50), 7);
}

#[test]
fn evidence_ids_are_recognised() {
    assert!(is_eid("E4"));
    assert!(is_eid("E12"));
    assert!(!is_eid("E"));
    assert!(!is_eid("T21"));
    assert!(!is_eid("E4x"));
}

fn svc(name: &str, service: &str, version: Option<&str>) -> ServiceCfg {
    ServiceCfg {
        name: name.into(),
        service: service.into(),
        role: "app".into(),
        upstreams: vec![],
        port_env: None,
        default_port: None,
        has_log: true,
        version: version.map(str::to_string),
    }
}

#[test]
fn targets_are_the_always_on_instances_of_the_versions_asked() {
    let routes = vec![ReplayRoute { captured_path: "/checkout".into(), service: "payments".into(), path: "/charge".into() }];
    let services = vec![svc("payments", "payments", None), svc("payments-v1", "payments", Some("v1")), svc("payments-v2", "payments", Some("v2"))];
    let (path, t) = plan_targets(&routes, &services, "/checkout", "payments", &vec![]).unwrap();
    assert_eq!(path, "/charge");
    assert_eq!(t, vec![("v1".to_string(), "payments-v1".to_string()), ("v2".to_string(), "payments-v2".to_string())]);
    let (_, t) = plan_targets(&routes, &services, "/checkout", "payments", &vec!["v2".into()]).unwrap();
    assert_eq!(t, vec![("v2".to_string(), "payments-v2".to_string())]);
    assert!(plan_targets(&routes, &services, "/checkout", "payments", &vec!["v9".into()]).unwrap_err().contains("no always-on instance for version v9; have: v1, v2"));
    assert!(plan_targets(&routes, &services, "/other", "payments", &vec![]).unwrap_err().contains("no replay route from captured path /other"));
    assert_eq!(
        plan_targets(&routes, &[svc("payments", "payments", None)].to_vec(), "/checkout", "payments", &vec![]).unwrap_err(),
        "payments has no always-on version instances to replay against"
    );
}

#[test]
fn refused_plans_say_what_is_configured() {
    let routes = vec![
        ReplayRoute { captured_path: "/checkout".into(), service: "payments".into(), path: "/charge".into() },
        ReplayRoute { captured_path: "/orders".into(), service: "orders".into(), path: "/orders".into() },
    ];
    let services = vec![svc("payments-v1", "payments", Some("v1")), svc("payments-v2", "payments", Some("v2"))];
    assert_eq!(
        plan_targets(&routes, &services, "/checkout", "orders", &vec![]).unwrap_err(),
        "no replay route from captured path /checkout to service orders; configured: /checkout → payments /charge, /orders → orders /orders"
    );
    assert_eq!(
        plan_targets(&routes, &services, "/checkout", "payments", &vec!["v2".into(), "v3".into(), "v4".into()]).unwrap_err(),
        "payments has no always-on instance for version v3; have: v1, v2"
    );
}

#[test]
fn the_origin_is_the_first_5xx_and_the_edge_the_capturing_line() {
    let s = s1_like();
    let c = chain(&s.events, "r-first");
    let o = chain_origin(&s.events, &c).unwrap();
    assert_eq!(s.events[c[o]].instance, "payments-v2");
    let e = chain_edge(&s.events, &c, "gateway", "/checkout").unwrap();
    assert_eq!(s.events[c[e]].status, Some(502));
    assert!(chain_edge(&s.events, &c, "gateway", "/charge").is_none());
    assert!(chain_origin(&s.events, &vec![]).is_none());
}

fn rec(kind: &str) -> EvidenceRef {
    EvidenceRef {
        kind: Some(kind.into()),
        req_id: None,
        matched_event_id: None,
        matched_template_id: None,
        template_id: None,
        bundle_ref: None,
        exemplar_event_ids: vec![],
    }
}

fn args() -> ExemplarArgs {
    ExemplarArgs { template_id: None, eid: None, route: None, status: None, event_id: None, window: WindowArg { from: None, to: None } }
}

fn label(r: Result<Selector, String>) -> String {
    match r {
        Ok(s) => s.label(),
        Err(e) => format!("error: {e}"),
    }
}

#[test]
fn selector_arguments_resolve_in_order() {
    let s = s1_like();
    let ev = |id: &str| ExemplarArgs { event_id: Some(id.into()), template_id: Some("T9".into()), ..args() };
    assert!(matches!(resolve_selector(&s.events, &ev("payments-v2:1"), None), Ok(Selector::Event(e)) if e == "payments-v2:1"));
    let t = ExemplarArgs { template_id: Some("T9".into()), eid: Some("E1".into()), ..args() };
    assert!(matches!(resolve_selector(&s.events, &t, None), Ok(Selector::Template(x)) if x == "T9"));
    let unknown = ExemplarArgs { eid: Some("E7".into()), ..args() };
    assert_eq!(label(resolve_selector(&s.events, &unknown, None)), "error: unknown evidence id 'E7' in this investigation");
    let dep = rec("deploy");
    assert_eq!(label(resolve_selector(&s.events, &unknown, Some(&dep))), "error: evidence E7 is not a template item (kind deploy)");
    let rs = ExemplarArgs { route: Some("/checkout".into()), status: Some(502), ..args() };
    assert_eq!(label(resolve_selector(&s.events, &rs, None)), "/checkout 502");
    let big = ExemplarArgs { route: Some("/checkout".into()), status: Some(70000), ..args() };
    assert_eq!(label(resolve_selector(&s.events, &big, None)), "error: status out of range");
    assert_eq!(label(resolve_selector(&s.events, &args(), None)), "error: pass template_id, or eid, or route + status, or event_id");
}

#[test]
fn a_template_item_selects_the_exemplar_it_already_cites() {
    let s = s1_like();
    let t = template_of(&s, "r-first");
    let later = s.events.iter().find(|e| e.req_id.as_deref() == Some("r-later") && e.instance == "payments-v2").unwrap().event_id.clone();
    let nocap = s.events.iter().find(|e| e.req_id.as_deref() == Some("r-nocap")).unwrap().event_id.clone();
    let mut r = rec("novel_template");
    r.template_id = Some(t.clone());
    r.exemplar_event_ids = vec!["nope:1".into(), nocap, later.clone()];
    assert_eq!(cited_exemplar(&s.events, &r), Some(later.clone()));
    let a = ExemplarArgs { eid: Some("E1".into()), ..args() };
    assert_eq!(label(resolve_selector(&s.events, &a, Some(&r))), later);
    r.exemplar_event_ids.pop();
    assert_eq!(label(resolve_selector(&s.events, &a, Some(&r))), t);
    let mut b = rec("novel_template");
    b.bundle_ref = Some("T5".into());
    assert_eq!(template_of_record(&b).as_deref(), Some("T5"));
    b.bundle_ref = Some("D-1".into());
    assert_eq!(template_of_record(&b), None);
    let mut ex = rec("exemplar_request");
    ex.matched_event_id = Some("gateway:2".into());
    assert_eq!(label(resolve_selector(&s.events, &a, Some(&ex))), "gateway:2");
}

#[test]
fn a_replay_exemplar_resolves_four_ways() {
    let s = s1_like();
    let all = w("2026-08-29T09:00:00Z", "2026-08-29T10:00:00Z");
    let t = template_of(&s, "r-first");
    let by_t = resolve_exemplar(&s.events, &t, None, &all).unwrap();
    assert_eq!(by_t.req_id, "r-first");
    assert_eq!(by_t.template_id.as_deref(), Some(t.as_str()));
    assert_eq!(by_t.exemplar_eid, None);
    assert_eq!(s.events[by_t.capture_idx].kind.as_deref(), Some("request_capture"));
    let by_req = resolve_exemplar(&s.events, "r-later", None, &all).unwrap();
    assert_eq!((by_req.req_id.as_str(), by_req.template_id.is_none(), by_req.matched_event_id.is_none()), ("r-later", true, true));
    let mut ex = rec("exemplar_request");
    ex.req_id = Some("r-later".into());
    ex.matched_event_id = Some("payments-v2:1".into());
    let by_eid = resolve_exemplar(&s.events, "E4", Some(&ex), &all).unwrap();
    assert_eq!((by_eid.req_id.as_str(), by_eid.exemplar_eid.as_deref()), ("r-later", Some("E4")));
    let mut tr = rec("novel_template");
    tr.template_id = Some(t.clone());
    let by_item = resolve_exemplar(&s.events, "E1", Some(&tr), &all).unwrap();
    assert_eq!(by_item.req_id, "r-first");
    assert_eq!(by_item.exemplar_eid.as_deref(), Some("E1"));
    assert_eq!(resolve_exemplar(&s.events, "E9", None, &all).unwrap_err(), "unknown evidence id 'E9' in this investigation");
    assert_eq!(resolve_exemplar(&s.events, "r-nocap", None, &all).unwrap_err(), "'r-nocap' is not an evidence id, a known template_id, or a captured req_id");
    ex.req_id = Some("r-nocap".into());
    assert_eq!(resolve_exemplar(&s.events, "E4", Some(&ex), &all).unwrap_err(), "no captured request for req_id r-nocap");
}

#[test]
fn a_captured_request_defaults_its_method_and_path_and_is_sanitized() {
    let headers = vec![("Authorization".to_string(), "Bearer x".to_string()), ("X-Client".to_string(), "web".to_string())];
    let c = captured_request(None, None, &headers, "pan=4111111111111111", None, 2048);
    assert_eq!((c.method.as_str(), c.path.as_str()), ("POST", "/"));
    assert_eq!(c.headers, vec![("x-client".to_string(), "web".to_string())]);
    assert_eq!(c.headers_dropped, vec!["authorization"]);
    assert_eq!(c.body.text, "pan=[redacted:pan]");
    let d = captured_request(Some("PUT".into()), Some("/charge".into()), &vec![], "", None, 2048);
    assert_eq!((d.method.as_str(), d.path.as_str(), d.body.text.as_str()), ("PUT", "/charge", ""));
}

#[test]
fn the_replay_hint_lists_routes_for_the_captured_path_with_their_versions() {
    let routes = vec![
        ReplayRoute { captured_path: "/checkout".into(), service: "payments".into(), path: "/charge".into() },
        ReplayRoute { captured_path: "/other".into(), service: "orders".into(), path: "/orders".into() },
        ReplayRoute { captured_path: "/checkout".into(), service: "orders".into(), path: "/orders".into() },
    ];
    let services = vec![svc("payments", "payments", None), svc("payments-v1", "payments", Some("v1")), svc("payments-v2", "payments", Some("v2"))];
    let h = replay_hint(&routes, &services, "/checkout");
    assert_eq!(h.len(), 2);
    assert_eq!((h[0].route, h[0].versions.clone()), (0, vec!["v1".to_string(), "v2".to_string()]));
    assert_eq!((h[1].route, h[1].versions.len()), (2, 0));
    assert!(replay_hint(&routes, &services, "/nowhere").is_empty());
}

#[test]
fn evidence_shows_the_stored_events_of_its_first_three_exemplars() {
    let s = s1_like();
    let ids: Vec<String> = vec!["nope:1".into(), "orders:1".into(), "payments-v2:1".into(), "gateway:1".into()];
    assert_eq!(evidence_exemplars(&s.events, &ids), vec![3, 0]);
    assert!(evidence_exemplars(&s.events, &vec![]).is_empty());
    let two: Vec<String> = vec!["gateway:3".into(), "gateway:3".into()];
    assert_eq!(evidence_exemplars(&s.events, &two), vec![6, 6]);
}
