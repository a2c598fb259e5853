use spyglass::config::{Bounds, DrainCfg};
use spyglass::events::{Event, Window};
use spyglass::search::{
    clamp_limit, dominant_of, events_in, group_by_template, novel_templates, novelty_groups, search_hits, search_logs,
    NoveltyArgs,
};
use spyglass::store::Store;
use spyglass::tools::{SearchArgs, WindowArg};

const S: i64 = 1_000_000;

fn ev(id: &str, service: &str, level: &str, ts: i64, msg: &str, stack: bool) -> Event {
    Event {
        event_id: id.into(),
        ts,
        service: service.into(),
        instance: format!("{service}-1"),
        version: String::new(),
        level: level.into(),
        req_id: None,
        msg: msg.into(),
        route: None,
        status: None,
        deploy_id: None,
        upstream: None,
        kind: None,
        has_stack: stack,
        template_id: String::new(),
        pattern: msg.into(),
        raw: String::new(),
    }
}

fn store() -> Store {
    Store::new(DrainCfg { depth: 3, similarity_threshold_ppm: 500_000, max_children: 100 })
}

fn bounds() -> Bounds {
    Bounds { max_items: 20, search_limit_max: 50, max_bytes_per_item: 2048, excerpt_bytes: 240 }
}

fn no_window() -> WindowArg {
    WindowArg { from: None, to: None }
}

fn search_store() -> Store {
    let mut s = store();
    s.append(ev("p:1", "payments", "ERROR", 1 * S, "payment failed card declined", false));
    s.append(ev("p:2", "payments", "ERROR", 3 * S, "payment failed card expired", false));
    s.append(ev("g:1", "gateway", "INFO", 2 * S, "payment ok", false));
    s.append(ev("o:1", "orders", "INFO", 4 * S, "user login", false));
    s
}

#[test]
fn search_hits_any_term_case_insensitively_and_groups_by_template() {
    let s = search_store();
    let a = SearchArgs {
        query: "Payment FAILED".into(),
        services: vec![],
        level: None,
        window: no_window(),
        limit: None,
    };
    let r = search_logs(&s, 900, &bounds(), &a).unwrap();
    assert_eq!(r.window, Window { from: 4 * S - 900 * S, to: 4 * S });
    assert_eq!(r.limit, 20);
    assert_eq!(r.terms, vec!["payment", "failed"]);
    assert_eq!(r.hits, vec![0, 1, 2]);
    assert_eq!(r.groups.len(), 2);
    let g = &r.groups[0];
    assert_eq!(g.template_id, s.events[0].template_id);
    assert_eq!(g.members, vec![0, 1]);
    assert_eq!(g.examples, vec![0, 1]);
    assert_eq!((g.first, g.last), (1 * S, 3 * S));
    assert!(g.phrase, "the whole query occurs in a member");
    let h = &r.groups[1];
    assert_eq!(h.template_id, s.events[2].template_id);
    assert_eq!(h.members, vec![2]);
    assert!(!h.phrase);
}

#[test]
fn the_level_filter_is_uppercased_and_the_service_filter_matches_instances() {
    let s = search_store();
    let a = SearchArgs {
        query: "payment".into(),
        services: vec!["payments-1".into()],
        level: Some("error".into()),
        window: no_window(),
        limit: Some(500),
    };
    let r = search_logs(&s, 900, &bounds(), &a).unwrap();
    assert_eq!(r.limit, 50, "clamped to the search maximum");
    assert_eq!(r.hits, vec![0, 1]);
    assert_eq!(r.groups.len(), 1);
}

#[test]
fn a_query_without_terms_is_refused() {
    let s = search_store();
    let a = SearchArgs { query: "a ! ?".into(), services: vec![], level: None, window: no_window(), limit: None };
    assert_eq!(search_logs(&s, 900, &bounds(), &a).unwrap_err(), "query has no searchable terms");
}

#[test]
fn an_unreadable_window_is_refused_before_the_query_is_read() {
    let s = search_store();
    let a = SearchArgs {
        query: "".into(),
        services: vec![],
        level: None,
        window: WindowArg { from: Some("yesterday".into()), to: None },
        limit: None,
    };
    let e = search_logs(&s, 900, &bounds(), &a).unwrap_err();
    assert_ne!(e, "query has no searchable terms");
}

#[test]
fn the_window_bounds_the_hits() {
    let s = search_store();
    let terms = vec!["payment".to_string()];
    let hits = search_hits(&s.events, Window { from: 2 * S, to: 3 * S }, &vec![], &None, &terms);
    assert_eq!(hits, vec![1, 2]);
}

#[test]
fn groups_follow_first_hit_order() {
    let s = search_store();
    let groups = group_by_template(&s.events, &vec![2, 0, 3, 1]);
    let ids: Vec<&str> = groups.iter().map(|g| g.template_id.as_str()).collect();
    assert_eq!(ids, vec![s.events[2].template_id.as_str(), s.events[0].template_id.as_str(), s.events[3].template_id.as_str()]);
    assert_eq!(groups[1].members, vec![0, 1]);
}

#[test]
fn limits_default_and_clamp() {
    assert_eq!(clamp_limit(None, 20, 50), 20);
    assert_eq!(clamp_limit(Some(0), 20, 50), 1);
    assert_eq!(clamp_limit(Some(99), 20, 50), 50);
    assert_eq!(clamp_limit(Some(7), 20, 50), 7);
}

#[test]
fn the_dominant_level_is_the_most_frequent_then_most_severe_then_last_named() {
    let evs = vec![
        ev("a:1", "a", "INFO", 0, "x", false),
        ev("a:2", "a", "WARN", 0, "x", false),
        ev("a:3", "a", "WARN", 0, "x", false),
        ev("a:4", "a", "INFO", 0, "x", false),
        ev("a:5", "a", "WARNING", 0, "x", false),
        ev("a:6", "a", "DEBUG", 0, "x", false),
        ev("a:7", "a", "DEBUG", 0, "x", false),
        ev("a:8", "a", "TRACE", 0, "x", false),
        ev("a:9", "a", "TRACE", 0, "x", false),
    ];
    assert_eq!(dominant_of(&evs, &vec![0, 1, 2, 3]), "WARN");
    assert_eq!(dominant_of(&evs, &vec![1, 4]), "WARNING");
    assert_eq!(dominant_of(&evs, &vec![0, 1, 1]), "WARN");
    assert_eq!(dominant_of(&evs, &vec![5, 6, 7, 8]), "TRACE");
    assert_eq!(dominant_of(&evs, &vec![]), "");
}

fn novelty_store() -> Store {
    let mut s = store();
    s.append(ev("d:1", "disk", "INFO", 1 * S, "disk slow on node", false));
    s.append(ev("d:2", "disk", "INFO", 2 * S, "disk slow on node", false));
    s.append(ev("p:1", "payments", "ERROR", 9 * S + S / 2, "payment failed hard", true));
    s.append(ev("p:2", "payments", "ERROR", 10 * S, "payment failed hard", false));
    s.append(ev("d:3", "disk", "INFO", 10 * S, "disk slow on node", false));
    s
}

fn nargs(level: Option<&str>) -> NoveltyArgs {
    NoveltyArgs { window: no_window(), baseline: no_window(), limit: None, services: vec![], level: level.map(str::to_string) }
}

#[test]
fn novelty_counts_window_and_baseline_per_template() {
    let s = novelty_store();
    let p = novel_templates(&s, true, 900, 20, 2, 10, 5, &nargs(None)).unwrap();
    assert_eq!(p.window, Window { from: 8 * S, to: 10 * S });
    assert_eq!(p.baseline, Window { from: -2 * S, to: 8 * S });
    assert_eq!(p.earliest, 1 * S);
    assert_eq!(p.baseline_effective, Window { from: 1 * S, to: 8 * S });
    assert!(p.history_ok);
    assert_eq!(p.limit, 20);
    let c = &p.candidates;
    assert_eq!(c.templates_in_window, 2);
    assert_eq!(c.groups.len(), 2);
    let disk = &c.groups[0];
    assert_eq!(disk.template_id, s.events[0].template_id);
    assert_eq!((disk.count_window, disk.count_baseline), (1, 2));
    assert_eq!(disk.dominant_level, "INFO");
    assert!(!disk.has_stack);
    let pay = &c.groups[1];
    assert_eq!(pay.template_id, s.events[2].template_id);
    assert_eq!((pay.count_window, pay.count_baseline), (2, 0));
    assert_eq!((pay.first_in_window, pay.last_in_window), (9 * S + S / 2, 10 * S));
    assert_eq!(pay.window_members, vec![2, 3]);
    assert_eq!(pay.examples, vec![2, 3]);
    assert!(pay.has_stack);
    assert_eq!(pay.dominant_level, "ERROR");
}

#[test]
fn the_level_filter_keeps_the_window_count_of_templates() {
    let s = novelty_store();
    let p = novel_templates(&s, true, 900, 20, 2, 10, 8, &nargs(Some("error"))).unwrap();
    assert!(!p.history_ok, "seven seconds of history is short of eight");
    assert_eq!(p.candidates.templates_in_window, 2);
    assert_eq!(p.candidates.groups.len(), 1);
    assert_eq!(p.candidates.groups[0].dominant_level, "ERROR");
}

#[test]
fn templates_seen_only_in_the_baseline_are_not_candidates() {
    let s = novelty_store();
    let c = novelty_groups(&s.events, Window { from: 9 * S, to: 9 * S + S / 2 }, Window { from: 0, to: 3 * S }, &vec![], &None);
    assert_eq!(c.templates_in_window, 1);
    assert_eq!(c.groups.len(), 1);
    assert_eq!(c.groups[0].count_window, 1);
}

#[test]
fn a_default_window_that_leaves_the_clock_range_is_refused() {
    let s = novelty_store();
    let e = novel_templates(&s, true, 900, 20, i64::MIN / 1_000_000, 10, 5, &nargs(None)).unwrap_err();
    assert_eq!(e, "window is out of range");
}

#[test]
fn events_in_a_window_and_scope_come_in_store_order() {
    let s = search_store();
    assert_eq!(events_in(&s.events, Window { from: 2 * S, to: 4 * S }, &vec![]), vec![1, 2, 3]);
    assert_eq!(events_in(&s.events, Window { from: 0, to: 4 * S }, &vec!["payments".to_string()]), vec![0, 1]);
}

#[test]
fn with_novelty_switched_off_nothing_is_reported_novel() {
    let s = novelty_store();
    let e = novel_templates(&s, false, 900, 20, 2, 10, 5, &nargs(None)).unwrap_err();
    assert_eq!(e, "novel_templates is disabled (novelty.enabled = false)");
}
