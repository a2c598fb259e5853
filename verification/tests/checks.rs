use spyglass::checks::{judge_at, CheckRules, CheckState, CheckStatus, Observation};

fn rules() -> CheckRules {
    CheckRules { interval_secs: 15, timeout_secs: 300, checks_required: 2, min_requests: 20 }
}

/// The comparisons the program makes with the default tolerances (2 points
/// absolute, 1.5x relative).
fn obs(baseline: f64, incident: f64, post: f64, n: u64, prev: Option<f64>) -> Observation {
    let tol = (baseline * 1.5).max(baseline + 0.02);
    Observation {
        post_requests: n,
        clean: post <= tol,
        no_better: post >= incident.max(tol),
        above_previous: prev.is_some_and(|p| post > p + 0.02),
    }
}

fn judge(o: &Observation, st: &CheckState, elapsed: i64) -> (CheckStatus, bool, bool) {
    judge_at(o, st, elapsed, i64::MAX, &rules())
}

/// A check as the program judges it: rates (baseline, incident, post) and
/// post requests, the previous post rate, the state before, the elapsed seconds.
fn judged(rates: (f64, f64, f64, u64), prev: Option<f64>, st: &CheckState, elapsed: i64, since_last: i64) -> (&'static str, bool, bool) {
    let (b, i, p, n) = rates;
    let (s, c, e) = judge_at(&obs(b, i, p, n, prev), st, elapsed, since_last, &rules());
    (s.as_str(), c, e)
}

fn state(checks: u32, consecutive_clean: u32) -> CheckState {
    let mut st = CheckState::new();
    st.checks = checks;
    st.consecutive_clean = consecutive_clean;
    st
}

#[test]
fn two_consecutive_clean_checks_close_the_incident() {
    let st = CheckState::new();
    assert_eq!(judged((0.0, 0.2, 0.0, 100), None, &st, 30, i64::MAX), ("clean", true, false));
    let st2 = state(1, 1);
    assert_eq!(judged((0.0, 0.2, 0.01, 100), Some(0.0), &st2, 45, i64::MAX), ("recovered", true, false));
}

#[test]
fn a_dirty_check_resets_the_streak_and_waits() {
    let st = state(1, 1);
    // 8% is above the 2-point tolerance but well under the 20% incident: not recovered, keep waiting
    assert_eq!(judged((0.0, 0.2, 0.08, 100), Some(0.0), &st, 45, i64::MAX), ("not_recovered", false, false));
}

#[test]
fn no_better_than_the_incident_escalates_immediately() {
    assert_eq!(judged((0.0, 0.2, 0.2, 100), None, &CheckState::new(), 20, i64::MAX), ("worsening", false, true));
    assert_eq!(judged((0.0, 0.2, 0.35, 100), None, &CheckState::new(), 20, i64::MAX), ("worsening", false, true));
}

#[test]
fn rising_between_checks_while_dirty_escalates() {
    let st = state(1, 0);
    assert_eq!(judged((0.0, 0.2, 0.09, 100), Some(0.05), &st, 40, i64::MAX), ("worsening", false, true));
}

#[test]
fn the_timeout_escalates_instead_of_retrying_forever() {
    assert_eq!(judged((0.0, 0.2, 0.08, 100), None, &CheckState::new(), 301, i64::MAX), ("timeout", false, true));
    assert_eq!(judged((0.0, 0.2, 0.0, 3), None, &CheckState::new(), 301, i64::MAX), ("timeout", false, true));
}

#[test]
fn too_few_requests_is_not_a_verdict() {
    assert_eq!(judged((0.0, 0.2, 0.0, 5), None, &CheckState::new(), 10, i64::MAX), ("insufficient_data", false, false));
}

#[test]
fn tolerance_scales_with_a_noisy_baseline() {
    // baseline 4%: tolerance is max(6%, 6%) = 6%; 5.5% is clean, 7% is not
    assert_eq!(judged((0.04, 0.3, 0.055, 100), None, &CheckState::new(), 10, i64::MAX).0, "clean");
    assert_eq!(judged((0.04, 0.3, 0.07, 100), None, &CheckState::new(), 10, i64::MAX).0, "not_recovered");
}

#[test]
fn a_check_inside_the_interval_is_not_counted() {
    let st = state(1, 1);
    assert_eq!(judged((0.0, 0.2, 0.0, 500), Some(0.0), &st, 30, 1), ("too_soon", false, false));
    assert_eq!(judged((0.0, 0.2, 0.0, 500), Some(0.0), &st, 45, 15), ("recovered", true, false));
    // the first check is never too soon
    assert_eq!(judged((0.0, 0.2, 0.0, 500), None, &CheckState::new(), 5, 0), ("clean", true, false));
}

#[test]
fn closed_and_escalated_are_terminal() {
    let mut closed = CheckState::new();
    closed.closed = true;
    assert_eq!(judged((0.0, 0.2, 0.5, 100), None, &closed, 10, i64::MAX), ("recovered", true, false));
    let mut esc = CheckState::new();
    esc.escalated = true;
    esc.escalation_reason = Some(CheckStatus::Worsening);
    assert_eq!(judged((0.0, 0.2, 0.0, 100), None, &esc, 10, i64::MAX), ("escalated", false, true));
}

#[test]
fn clean_checks_in_a_row_close_the_incident() {
    let mut st = CheckState::new();
    let v = judge(&obs(0.0, 0.2, 0.0, 100, None), &st, 30);
    assert_eq!(v, (CheckStatus::Clean, true, false));
    assert!(st.record(v.0, v.1, v.2, 30_000_000));
    assert_eq!((st.checks, st.consecutive_clean, st.closed), (1, 1, false));
    let v = judge(&obs(0.0, 0.2, 0.01, 100, Some(0.0)), &st, 45);
    assert_eq!(v, (CheckStatus::Recovered, true, false));
    st.record(v.0, v.1, v.2, 45_000_000);
    assert!(st.closed);
    assert_eq!(judge(&obs(0.0, 0.2, 0.5, 100, Some(0.01)), &st, 60), (CheckStatus::Recovered, true, false));
}

#[test]
fn a_dirty_check_resets_the_streak_without_escalating() {
    let mut st = CheckState::new();
    st.record(CheckStatus::Clean, true, false, 1);
    let v = judge(&obs(0.0, 0.2, 0.08, 100, Some(0.0)), &st, 45);
    assert_eq!(v, (CheckStatus::NotRecovered, false, false));
    st.record(v.0, v.1, v.2, 2);
    assert_eq!(st.consecutive_clean, 0);
    assert!(!st.escalated);
}

#[test]
fn no_better_than_the_incident_or_rising_while_dirty_escalates() {
    let st = CheckState::new();
    assert_eq!(judge(&obs(0.0, 0.2, 0.2, 100, None), &st, 20), (CheckStatus::Worsening, false, true));
    let mut dirty = CheckState::new();
    dirty.record(CheckStatus::NotRecovered, false, false, 1);
    assert_eq!(judge(&obs(0.0, 0.2, 0.09, 100, Some(0.05)), &dirty, 40), (CheckStatus::Worsening, false, true));
    let mut esc = CheckState::new();
    esc.record(CheckStatus::Worsening, false, true, 1);
    assert!(esc.escalated);
    assert_eq!(esc.escalation_reason, Some(CheckStatus::Worsening));
    assert_eq!(judge(&obs(0.0, 0.2, 0.0, 100, None), &esc, 50), (CheckStatus::Escalated, false, true));
}

#[test]
fn the_timeout_and_thin_data_are_handled_apart() {
    let st = CheckState::new();
    assert_eq!(judge(&obs(0.0, 0.2, 0.08, 100, None), &st, 301), (CheckStatus::Timeout, false, true));
    assert_eq!(judge(&obs(0.0, 0.2, 0.0, 3, None), &st, 301), (CheckStatus::Timeout, false, true));
    let v = judge(&obs(0.0, 0.2, 0.0, 5, None), &st, 10);
    assert_eq!(v, (CheckStatus::InsufficientData, false, false));
    let mut s2 = CheckState::new();
    s2.record(CheckStatus::Clean, true, false, 1);
    let keep = s2.record(v.0, v.1, v.2, 2);
    assert!(!keep, "a thin check's rate is not compared against");
    assert_eq!((s2.checks, s2.consecutive_clean), (2, 1), "counted, streak stands");
}

#[test]
fn a_check_inside_the_interval_is_not_counted_and_moves_nothing() {
    let mut st = CheckState::new();
    st.record(CheckStatus::Clean, true, false, 1);
    let o = obs(0.0, 0.2, 0.0, 500, Some(0.0));
    let v = judge_at(&o, &st, 30, 1, &rules());
    assert_eq!(v, (CheckStatus::TooSoon, false, false));
    assert!(!st.record(v.0, v.1, v.2, 2));
    assert_eq!((st.checks, st.consecutive_clean, st.last_check_at), (1, 1, Some(1)));
    assert_eq!(judge_at(&o, &st, 45, 15, &rules()), (CheckStatus::Recovered, true, false));
    assert_eq!(judge_at(&o, &CheckState::new(), 5, 0, &rules()), (CheckStatus::Clean, true, false));
}

#[test]
fn statuses_have_their_names() {
    assert_eq!(CheckStatus::InsufficientData.as_str(), "insufficient_data");
    assert_eq!(CheckStatus::TooSoon.as_str(), "too_soon");
    assert_eq!(CheckStatus::NotRecovered.as_str(), "not_recovered");
}

#[test]
fn a_check_a_second_short_of_the_interval_is_still_too_soon() {
    let st = CheckState { checks: 1, consecutive_clean: 1, ..CheckState::new() };
    let r = rules();
    let o = Observation { post_requests: 500, clean: true, no_better: false, above_previous: false };
    assert_eq!(judge_at(&o, &st, 30, r.interval_secs - 1, &r).0.as_str(), "too_soon");
    assert_eq!(judge_at(&o, &st, 30, r.interval_secs, &r).0.as_str(), "recovered");
}
