use spyglass::deployer::{
    deploy, execute, execute_at, init, propose, propose_at, Entry, EntryKind, Restated, RollbackOutcome, Store,
    check_known, eid_ok, uuid_text, DeployError,
};


fn fresh() -> Store {
    let mut store = Store::new();
    init(&mut store, true).unwrap();
    deploy(&mut store, "payments", "v2", "deploy-bot").unwrap(); // the fault
    store
}

fn restated(p: &Entry) -> Restated {
    Restated {
        service: p.service.clone(),
        to_version: p.version.clone().unwrap(),
        expected_current: p.expected_current.clone(),
        justification_eids: p.justification_eids.clone(),
    }
}

fn current(store: &Store) -> String {
    store.load_state().unwrap().get("payments").unwrap().version.clone()
}

#[test]
fn a_proposal_mints_the_key_and_snapshots_the_world() {
    let mut store = fresh();
    let p = propose(&mut store, "payments", "v1", vec!["E3".into(), "E1".into(), "E3".into()], "agent", 600).unwrap();
    assert_eq!(p.kind.as_str(), "proposal");
    assert!(p.request_id.is_some());
    assert_eq!(p.expected_current.as_deref(), Some("v2"));
    assert_eq!(p.justification_eids, vec!["E1", "E3"]);
    assert!(p.deploy_id.is_none(), "a proposal is not a routing change");
    assert_eq!(current(&store), "v2");
    // ids stay deterministic: the proposal did not consume a D-n
    let (_, next) = store.next_ids();
    assert_eq!(next, "D-2");
}

#[test]
fn proposals_that_change_nothing_or_cite_nothing_are_refused() {
    let mut store = fresh();
    assert!(propose(&mut store, "payments", "v2", vec!["E1".into()], "agent", 600)
        .unwrap_err()
        .to_string()
        .contains("already at v2"));
    assert!(propose(&mut store, "payments", "v1", vec![], "agent", 600)
        .unwrap_err()
        .to_string()
        .contains("at least one evidence id"));
    assert!(propose(&mut store, "payments", "v1", vec!["not-an-eid".into()], "agent", 600)
        .unwrap_err()
        .to_string()
        .contains("not an evidence id"));
}

#[test]
fn double_fire_is_one_rollback_and_one_recorded_noop() {
    let mut store = fresh();
    let p = propose(&mut store, "payments", "v1", vec!["E1".into(), "E7".into(), "E8".into()], "agent", 600).unwrap();
    let id = p.request_id.unwrap();
    let (e1, o1) = execute(&mut store, id, &restated(&p), "agent").unwrap();
    let (e2, o2) = execute(&mut store, id, &restated(&p), "agent").unwrap();
    assert_eq!(o1, RollbackOutcome::Executed);
    assert_eq!(e1.deploy_id.as_deref(), Some("D-2"));
    assert_eq!(e1.request_id, Some(id));
    assert_eq!(o2, RollbackOutcome::Noop);
    assert!(e2.note.unwrap().contains("duplicate proposal_id"));
    assert_eq!(current(&store), "v1");
    let kinds: Vec<String> = store.read_journal().iter().map(|e| e.kind.as_str().to_string()).collect();
    assert_eq!(kinds, vec!["init", "deploy", "proposal", "rollback", "noop"]);
}

#[test]
fn approve_after_manual_rollback_aborts_on_version_mismatch() {
    let mut store = fresh();
    let p = propose(&mut store, "payments", "v1", vec!["E1".into()], "agent", 600).unwrap();
    // An operator fixes it by hand while the approval is pending.
    deploy(&mut store, "payments", "v1", "operator").unwrap();
    let (e, o) = execute(&mut store, p.request_id.unwrap(), &restated(&p), "agent").unwrap();
    assert_eq!(o, RollbackOutcome::Aborted);
    assert!(e.note.unwrap().contains("version mismatch"));
    assert_eq!(current(&store), "v1");
}

#[test]
fn an_expired_proposal_is_never_executed() {
    let mut store = fresh();
    let p = propose(&mut store, "payments", "v1", vec!["E1".into()], "agent", 1).unwrap();
    // Execute on a clock past the expiry rather than sleeping: the check is
    // on the clock, not on a timer.
    let later = chrono::Utc::now().timestamp_micros() + 5_000_000;
    let (e, o) = execute_at(&mut store, p.request_id.unwrap(), &restated(&p), "agent", later).unwrap();
    assert_eq!(o, RollbackOutcome::Aborted);
    assert!(e.note.unwrap().contains("expired"));
    assert_eq!(current(&store), "v2", "the world did not move");
}

#[test]
fn a_restatement_that_differs_from_the_proposal_is_refused() {
    let mut store = fresh();
    let p = propose(&mut store, "payments", "v1", vec!["E1".into(), "E2".into()], "agent", 600).unwrap();
    let mut r = restated(&p);
    r.justification_eids = vec!["E9".into()];
    let (e, o) = execute(&mut store, p.request_id.unwrap(), &r, "agent").unwrap();
    assert_eq!(o, RollbackOutcome::Aborted);
    assert!(e.note.unwrap().contains("justification_eids"));
    let mut r2 = restated(&p);
    r2.to_version = "v2".into();
    assert_eq!(execute(&mut store, p.request_id.unwrap(), &r2, "agent").unwrap().1, RollbackOutcome::Aborted);
    assert_eq!(current(&store), "v2");
    // the right restatement still works afterwards
    assert_eq!(
        execute(&mut store, p.request_id.unwrap(), &restated(&p), "agent").unwrap().1,
        RollbackOutcome::Executed
    );
}

#[test]
fn an_unknown_proposal_id_is_refused_and_journaled() {
    let mut store = fresh();
    let r = Restated {
        service: "payments".into(),
        to_version: "v1".into(),
        expected_current: None,
        justification_eids: vec![],
    };
    let (e, o) = execute(&mut store, 0x1234_5678_9abc_def0_1234_5678_9abc_def0, &r, "agent").unwrap();
    assert_eq!(o, RollbackOutcome::Aborted);
    assert!(e.note.unwrap().contains("unknown proposal_id"));
    assert_eq!(current(&store), "v2");
}

// ------------------------------------------------------------------ more

#[test]
fn init_routes_every_service_to_v1_and_is_kept_without_reset() {
    let mut store = Store::new();
    let first = init(&mut store, false).unwrap();
    assert_eq!(first.kind.as_str(), "init");
    assert_eq!(current(&store), "v1");
    assert!(init(&mut store, false).is_none());
    assert_eq!(store.read_journal().len(), 1);
}

#[test]
fn unknown_services_and_versions_are_refused() {
    assert!(check_known("payments", "v2").is_ok());
    assert!(check_known("nope", "v1").unwrap_err().to_string().contains("unknown service 'nope'"));
    assert!(check_known("payments", "v9").unwrap_err().to_string().contains("unknown version 'v9'"));
    let mut store = fresh();
    assert!(deploy(&mut store, "payments", "v9", "op").is_err());
}

#[test]
fn deploy_ids_count_routing_changes() {
    let mut store = fresh();
    let e = deploy(&mut store, "payments", "v1", "op").unwrap();
    assert_eq!(e.deploy_id.as_deref(), Some("D-2"));
    assert_eq!(store.next_ids(), (4, "D-3".to_string()));
}

#[test]
fn a_deploy_to_the_current_version_is_still_a_routing_change() {
    let mut store = fresh();
    let e = deploy(&mut store, "payments", "v2", "op").unwrap();
    assert_eq!(e.deploy_id.as_deref(), Some("D-2"));
    assert_eq!(e.from_version.as_deref(), Some("v2"));
    assert!(matches!(DeployError::NotInitialized, DeployError::NotInitialized));
}

#[test]
fn evidence_ids_are_e_and_digits() {
    assert!(eid_ok("E1"));
    assert!(eid_ok("E12"));
    assert!(!eid_ok("E"));
    assert!(!eid_ok("e1"));
    assert!(!eid_ok("E1a"));
}

#[test]
fn uuid_text_is_hyphenated_lowercase_hex() {
    assert_eq!(uuid_text(0x0123_4567_89ab_cdef_0123_4567_89ab_cdef), "01234567-89ab-cdef-0123-456789abcdef");
}

#[test]
fn a_proposal_at_a_fixed_clock_expires_ttl_seconds_later() {
    let mut store = fresh();
    let p = propose_at(&mut store, "payments", "v1", vec!["E1".into()], "agent", 600, 7, 1_700_000_000_000_000).unwrap();
    assert_eq!(p.request_id, Some(7));
    assert_eq!(p.expires_at.as_deref(), Some("2023-11-14T22:23:20.000Z"));
    assert!(matches!(p.kind, EntryKind::Proposal));
}
