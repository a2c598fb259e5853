use spyglass::events::{Event, Window};
use spyglass::recovery::{recovery_counts, recovery_windows, DeployEvent, VerifyArgs};

fn d(n: u64, id: Option<&str>, version: &str, from: Option<&str>, ts: i64) -> DeployEvent {
    DeployEvent {
        n,
        kind: "deploy".into(),
        deploy_id: id.map(str::to_string),
        service: "payments".into(),
        version: Some(version.into()),
        from_version: from.map(str::to_string),
        ts,
        actor: "op".into(),
        request_id: None,
        justification_eids: vec![],
        note: None,
    }
}

const S: i64 = 1_000_000;

#[test]
fn the_windows_run_from_the_reverted_deploy_to_the_action() {
    let deploys = vec![d(1, None, "v1", None, 0), d(2, Some("D-1"), "v2", Some("v1"), 100 * S), d(3, Some("D-2"), "v1", Some("v2"), 400 * S)];
    let a = VerifyArgs { service: "payments".into(), deploy_id: "D-2".into(), services: vec![] };
    let w = recovery_windows(&deploys, &a, 500 * S, 300, 300, 60).unwrap();
    assert_eq!(w.action, 2);
    assert_eq!(w.reverted, Some(1));
    assert_eq!(w.incident, Window { from: 100 * S, to: 400 * S });
    assert_eq!(w.baseline, Window { from: -200 * S, to: 100 * S });
    assert_eq!(w.post, Window { from: 440 * S, to: 500 * S });
}

#[test]
fn without_a_reverted_deploy_the_incident_is_the_lookback() {
    let deploys = vec![d(1, Some("D-1"), "v1", Some("v2"), 400 * S)];
    let a = VerifyArgs { service: "payments".into(), deploy_id: "D-1".into(), services: vec![] };
    let w = recovery_windows(&deploys, &a, 410 * S, 300, 60, 60).unwrap();
    assert_eq!(w.reverted, None);
    assert_eq!(w.incident, Window { from: 100 * S, to: 400 * S });
    // the post window never starts before the action
    assert_eq!(w.post, Window { from: 400 * S, to: 410 * S });
    let missing = VerifyArgs { service: "payments".into(), deploy_id: "D-9".into(), services: vec![] };
    assert_eq!(
        recovery_windows(&deploys, &missing, 410 * S, 300, 60, 60).unwrap_err(),
        "no journal entry D-9 for payments has been ingested yet; check freshness_watermark and retry"
    );
}

fn req(status: u16, ts: i64) -> Event {
    Event {
        event_id: format!("gw:{ts}"),
        ts,
        service: "gateway".into(),
        instance: "gateway".into(),
        version: String::new(),
        level: "INFO".into(),
        req_id: None,
        msg: String::new(),
        route: Some("/checkout".into()),
        status: Some(status),
        deploy_id: None,
        upstream: None,
        kind: None,
        has_stack: false,
        template_id: String::new(),
        pattern: String::new(),
        raw: String::new(),
    }
}

#[test]
fn an_event_at_the_action_instant_belongs_to_the_incident() {
    let deploys = vec![d(1, Some("D-1"), "v2", Some("v1"), 100), d(2, Some("D-2"), "v1", Some("v2"), 200)];
    let a = VerifyArgs { service: "payments".into(), deploy_id: "D-2".into(), services: vec![] };
    let w = recovery_windows(&deploys, &a, 300, 300, 300, 60).unwrap();
    let events = vec![req(200, 50), req(502, 150), req(502, 200), req(200, 250), req(500, 300)];
    let c = recovery_counts(&events, &vec![], &w);
    assert_eq!(c, [(1, 0), (2, 2), (2, 1)]);
}
