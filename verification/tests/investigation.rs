use spyglass::config::LimitsCfg;
use spyglass::investigation::Investigation;

#[test]
fn the_budget_refuses_once_spent() {
    let limits = LimitsCfg { max_calls_per_investigation: 2, max_calls_per_minute: 10 };
    let mut inv = Investigation::new("inv-1");
    assert!(inv.admit_call(&limits, 0).is_ok());
    assert!(inv.admit_call(&limits, 1).is_ok());
    let err = inv.admit_call(&limits, 2).unwrap_err();
    assert_eq!(
        err,
        "budget exhausted: 2 tool calls in this investigation (limit 2); synthesise from the evidence you have and label the report partial"
    );
    assert_eq!(inv.calls_total, 2);
}

#[test]
fn the_rate_limit_counts_the_last_minute_only() {
    let limits = LimitsCfg::default();
    assert_eq!((limits.max_calls_per_investigation, limits.max_calls_per_minute), (200, 60));
    let limits = LimitsCfg { max_calls_per_investigation: 100, max_calls_per_minute: 2 };
    let mut inv = Investigation::new("inv-2");
    assert!(inv.admit_call(&limits, 1_000).is_ok());
    assert!(inv.admit_call(&limits, 2_000).is_ok());
    assert_eq!(
        inv.admit_call(&limits, 3_000).unwrap_err(),
        "rate limit: 2 tool calls in the last minute (limit 2); stop and synthesise from the evidence you have"
    );
    // A minute after the first call it has aged out.
    assert!(inv.admit_call(&limits, 61_000).is_ok());
    assert_eq!(inv.calls_total, 3);
}

#[test]
fn evidence_ids_and_ledger_numbers_count_up() {
    let mut inv = Investigation::new("inv/../3");
    assert_eq!(inv.issue_eid(), "E1");
    assert_eq!(inv.issue_eid(), "E2");
    assert_eq!(inv.record(), 1);
    assert_eq!(inv.record(), 2);
    assert_eq!(inv.ledger_file(), "inv3.jsonl");
    assert_eq!(inv.evidence_file(), "inv3.evidence.jsonl");
}
