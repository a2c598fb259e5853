use spyglass::config::DrainCfg;
use spyglass::deploys::{deploy_events, report_kind, DeployArgs};
use spyglass::events::{Event, Window};
use spyglass::recovery::DeployEvent;
use spyglass::store::Store;
use spyglass::tools::WindowArg;

const S: i64 = 1_000_000;

fn d(n: u64, kind: &str, service: &str, ts: i64) -> DeployEvent {
    DeployEvent {
        n,
        kind: kind.into(),
        deploy_id: None,
        service: service.into(),
        version: None,
        from_version: None,
        ts,
        actor: "operator".into(),
        request_id: None,
        justification_eids: vec![],
        note: None,
    }
}

fn store() -> Store {
    let mut s = Store::new(DrainCfg { depth: 3, similarity_threshold_ppm: 500_000, max_children: 100 });
    s.deploys.push(d(1, "deploy", "payments", 5 * S));
    s.deploys.push(d(2, "rollback", "payments", 3 * S));
    s.deploys.push(d(3, "proposal", "orders", 3 * S));
    s.deploys.push(d(4, "noop", "payments", 9 * S));
    s.append(Event {
        event_id: "a:1".into(),
        ts: 8 * S,
        service: "a".into(),
        instance: "a".into(),
        version: String::new(),
        level: "INFO".into(),
        req_id: None,
        msg: "tick".into(),
        route: None,
        status: None,
        deploy_id: None,
        upstream: None,
        kind: None,
        has_stack: false,
        template_id: String::new(),
        pattern: "tick".into(),
        raw: String::new(),
    });
    s
}

#[test]
fn entries_come_oldest_first_and_the_newest_are_kept() {
    let s = store();
    let a = DeployArgs { window: WindowArg { from: None, to: None }, service: None };
    let r = deploy_events(&s, 900, 2, &a).unwrap();
    assert_eq!(r.window, Window { from: 0, to: 8 * S });
    assert_eq!(r.available, 3, "the entry after the watermark is outside");
    assert_eq!(r.rows, vec![2, 0], "(3 s, n 3) then (5 s, n 1); (3 s, n 2) dropped as oldest");
}

#[test]
fn the_service_filter_is_exact() {
    let s = store();
    let a = DeployArgs { window: WindowArg { from: None, to: None }, service: Some("payments".into()) };
    let r = deploy_events(&s, 900, 20, &a).unwrap();
    assert_eq!(r.available, 2);
    assert_eq!(r.rows, vec![1, 0]);
}

#[test]
fn a_given_window_is_resolved_and_an_unreadable_one_refused() {
    let s = store();
    let a = DeployArgs {
        window: WindowArg { from: Some("1970-01-01T00:00:04Z".into()), to: Some("1970-01-01T00:00:10Z".into()) },
        service: None,
    };
    let r = deploy_events(&s, 900, 20, &a).unwrap();
    assert_eq!(r.window, Window { from: 4 * S, to: 10 * S });
    assert_eq!(r.rows, vec![0, 3]);
    let bad = DeployArgs { window: WindowArg { from: Some("soon".into()), to: None }, service: None };
    assert!(deploy_events(&s, 900, 20, &bad).is_err());
}

#[test]
fn routing_changes_report_as_deploys() {
    assert_eq!(report_kind("deploy"), "deploy");
    assert_eq!(report_kind("rollback"), "deploy");
    assert_eq!(report_kind("proposal"), "journal_proposal");
    assert_eq!(report_kind("noop"), "journal_noop");
}
