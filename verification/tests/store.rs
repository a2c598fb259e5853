use spyglass::config::DrainCfg;
use spyglass::events::{event_index, has_template, Event, Window};
use spyglass::config::default_true;
use spyglass::store::{split_whitespace, Store};
use spyglass::tools::freshness;

fn e(id: &str, instance: &str, level: &str, ts: i64, pattern: &str) -> Event {
    Event {
        event_id: id.into(),
        ts,
        service: instance.into(),
        instance: instance.into(),
        version: String::new(),
        level: level.into(),
        req_id: None,
        msg: pattern.into(),
        route: None,
        status: None,
        deploy_id: None,
        upstream: None,
        kind: None,
        has_stack: false,
        template_id: String::new(),
        pattern: pattern.into(),
        raw: String::new(),
    }
}

#[test]
fn appended_events_get_their_cluster_id_and_template() {
    let mut s = Store::new(DrainCfg { depth: 3, similarity_threshold_ppm: 500_000, max_children: 100 });
    s.append(e("a:1", "a", "INFO", 20, "user alice logged in"));
    s.append(e("a:2", "a", "INFO", 10, "user bob logged in"));
    s.append(e("b:1", "b", "ERROR", 30, "user bob logged in"));
    assert_eq!(s.events[0].template_id, "T1");
    assert_eq!(s.events[1].template_id, "T1");
    assert_eq!(s.events[1].pattern, "user <*> logged in");
    assert_eq!(s.events[2].template_id, "T2", "another level, another template");
    assert_eq!(s.earliest_ts, Some(10));
    assert_eq!(s.ingested, 3);
    assert_eq!(s.watermarks.newest_log_ts(), Some(30));
    assert_eq!(s.watermarks.safe_log_ts(), Some(20));
    assert_eq!(event_index(&s.events, "a:2"), Some(1));
    assert!(has_template(&s.events, "T2"));
    assert!(!has_template(&s.events, "T3"));
    s.reset();
    assert_eq!(s.epoch, 1);
    assert!(s.events.is_empty());
}

#[test]
fn words_are_split_on_whitespace_runs() {
    assert_eq!(split_whitespace("  a\tbb  c \n"), vec!["a", "bb", "c"]);
    assert!(split_whitespace("   ").is_empty());
}

#[test]
fn an_idle_source_does_not_hold_the_safe_watermark_back() {
    let mut s = Store::new(DrainCfg { depth: 3, similarity_threshold_ppm: 500_000, max_children: 100 });
    s.append(e("a:1", "a", "INFO", 1_000_000, "x"));
    s.append(e("b:1", "b", "INFO", 10_000_000, "y"));
    s.append(e("c:1", "c", "INFO", 8_000_000, "z"));
    // a is more than 5 s behind the newest: idle.
    assert_eq!(s.watermarks.safe_log_ts(), Some(8_000_000));
}

#[test]
fn a_window_ending_at_a_time_reaches_back_its_lookback() {
    let w = Window::ending_at(10_000_000, 3);
    assert_eq!((w.from, w.to), (7_000_000, 10_000_000));
    assert!(w.contains(7_000_000) && w.contains(10_000_000));
    assert!(!w.contains(6_999_999) && !w.contains(10_000_001));
    assert!(default_true());
}

#[test]
fn freshness_reports_the_newest_line_and_the_counts() {
    let mut s = Store::new(DrainCfg { depth: 3, similarity_threshold_ppm: 500_000, max_children: 100 });
    let f = freshness(&s, 5_000_000);
    assert_eq!((f.newest_log_ts, f.lag_ms, f.templates_total, f.ingested_events), (None, None, 0, 0));
    s.append(e("a:1", "a", "INFO", 1_000_000, "user alice logged in"));
    s.append(e("a:2", "a", "INFO", 2_500_000, "user bob logged in"));
    s.append(e("b:1", "b", "ERROR", 2_000_000, "disk full"));
    s.malformed = 4;
    let f = freshness(&s, 5_000_000);
    assert_eq!(f.newest_log_ts, Some(2_500_000));
    assert_eq!(f.lag_ms, Some(2_500));
    assert_eq!((f.ingested_events, f.malformed_lines, f.templates_total, f.deploy_entries, f.epoch), (3, 4, 2, 0, 0));
    // a clock behind the newest line gives a negative lag, rounded toward zero
    assert_eq!(freshness(&s, 2_498_500).lag_ms, Some(-1));
}
