//! The per-investigation state machine of post-action verification: what
//! one check is, and what it does to the state. Whether the post-action
//! error rate is within tolerance, no better than the incident, or rising
//! are comparisons of fractions; the program around the library makes them
//! and hands in their outcomes.
//!
//!   clean       within tolerance; `checks_required` clean checks in a row
//!               close the incident
//!   worsening   no better than the incident, or rising across two dirty
//!               checks: escalate now
//!   timeout     still open `timeout_secs` after the action: escalate
//!   too_soon    within `interval_secs` of the last counted check: not counted
//!
//! Once closed or escalated, every further check returns the same verdict.

use vstd::prelude::*;

verus! {

/// What one check is.
#[derive(Clone, Copy, Debug, PartialEq, Eq, Structural)]
pub enum CheckStatus {
    Recovered,
    Escalated,
    TooSoon,
    Timeout,
    InsufficientData,
    Clean,
    Worsening,
    NotRecovered,
}

pub open spec fn status_text(s: CheckStatus) -> Seq<char> {
    match s {
        CheckStatus::Recovered => "recovered"@,
        CheckStatus::Escalated => "escalated"@,
        CheckStatus::TooSoon => "too_soon"@,
        CheckStatus::Timeout => "timeout"@,
        CheckStatus::InsufficientData => "insufficient_data"@,
        CheckStatus::Clean => "clean"@,
        CheckStatus::Worsening => "worsening"@,
        CheckStatus::NotRecovered => "not_recovered"@,
    }
}

impl CheckStatus {
    pub fn as_str(self) -> (s: &'static str)
        ensures
            s@ == status_text(self),
    {
        match self {
            CheckStatus::Recovered => "recovered",
            CheckStatus::Escalated => "escalated",
            CheckStatus::TooSoon => "too_soon",
            CheckStatus::Timeout => "timeout",
            CheckStatus::InsufficientData => "insufficient_data",
            CheckStatus::Clean => "clean",
            CheckStatus::Worsening => "worsening",
            CheckStatus::NotRecovered => "not_recovered",
        }
    }
}

/// What a check observed, its fractional comparisons already made.
#[derive(Clone, Copy, Debug)]
pub struct Observation {
    /// Request lines in the post-action window.
    pub post_requests: u64,
    /// The post-action error rate is within tolerance of the baseline.
    pub clean: bool,
    /// The post-action rate is at least the incident's rate and the tolerance.
    pub no_better: bool,
    /// The post-action rate exceeds the previous check's by more than the
    /// absolute tolerance (false when there was no previous rate).
    pub above_previous: bool,
}

/// The thresholds of verification that are whole numbers.
#[derive(Clone, Copy, Debug)]
pub struct CheckRules {
    pub interval_secs: i64,
    pub timeout_secs: i64,
    pub checks_required: u32,
    pub min_requests: u64,
}

/// Verification state of one action.
#[derive(Clone, Copy, Debug)]
pub struct CheckState {
    /// Counted checks.
    pub checks: u32,
    pub consecutive_clean: u32,
    pub closed: bool,
    pub escalated: bool,
    pub escalation_reason: Option<CheckStatus>,
    /// Instant (µs) of the last counted check.
    pub last_check_at: Option<i64>,
}

impl CheckState {
    pub fn new() -> (s: CheckState)
        ensures
            s.checks == 0 && s.consecutive_clean == 0 && !s.closed && !s.escalated,
            s.escalation_reason is None && s.last_check_at is None,
    {
        CheckState {
            checks: 0,
            consecutive_clean: 0,
            closed: false,
            escalated: false,
            escalation_reason: None,
            last_check_at: None,
        }
    }
}

/// The verdict of a check: (status, clean, escalate).
pub open spec fn judged(o: Observation, st: CheckState, elapsed: int, since_last: int, rules: CheckRules) -> (
    CheckStatus,
    bool,
    bool,
) {
    if st.closed {
        (CheckStatus::Recovered, true, false)
    } else if st.escalated {
        (CheckStatus::Escalated, false, true)
    } else if st.checks > 0 && since_last < rules.interval_secs {
        (CheckStatus::TooSoon, false, false)
    } else if o.post_requests < rules.min_requests {
        if elapsed > rules.timeout_secs {
            (CheckStatus::Timeout, false, true)
        } else {
            (CheckStatus::InsufficientData, false, false)
        }
    } else if o.clean {
        if st.consecutive_clean + 1 >= rules.checks_required {
            (CheckStatus::Recovered, true, false)
        } else {
            (CheckStatus::Clean, true, false)
        }
    } else if o.no_better || (st.checks > 0 && st.consecutive_clean == 0 && o.above_previous) {
        (CheckStatus::Worsening, false, true)
    } else if elapsed > rules.timeout_secs {
        (CheckStatus::Timeout, false, true)
    } else {
        (CheckStatus::NotRecovered, false, false)
    }
}

/// Judges one check. `since_last_secs` is the wall-clock gap to the last
/// counted check (`i64::MAX` when there was none).
pub fn judge_at(o: &Observation, st: &CheckState, elapsed_secs: i64, since_last_secs: i64, rules: &CheckRules) -> (r: (
    CheckStatus,
    bool,
    bool,
))
    ensures
        r == judged(*o, *st, elapsed_secs as int, since_last_secs as int, *rules),
{
    if st.closed {
        return (CheckStatus::Recovered, true, false);
    }
    if st.escalated {
        return (CheckStatus::Escalated, false, true);
    }
    if st.checks > 0 && (since_last_secs as i128) < (rules.interval_secs as i128) {
        return (CheckStatus::TooSoon, false, false);
    }
    if o.post_requests < rules.min_requests {
        return if elapsed_secs > rules.timeout_secs {
            (CheckStatus::Timeout, false, true)
        } else {
            (CheckStatus::InsufficientData, false, false)
        };
    }
    if o.clean {
        return if (st.consecutive_clean as u64) + 1 >= rules.checks_required as u64 {
            (CheckStatus::Recovered, true, false)
        } else {
            (CheckStatus::Clean, true, false)
        };
    }
    if o.no_better || (st.checks > 0 && st.consecutive_clean == 0 && o.above_previous) {
        return (CheckStatus::Worsening, false, true);
    }
    if elapsed_secs > rules.timeout_secs {
        return (CheckStatus::Timeout, false, true);
    }
    (CheckStatus::NotRecovered, false, false)
}

/// A check is counted unless the state is final or it came too soon.
pub open spec fn counted(st: CheckState, status: CheckStatus) -> bool {
    !st.closed && !st.escalated && status != CheckStatus::TooSoon
}

/// The state after recording a check made at `now`.
pub open spec fn recorded(st: CheckState, status: CheckStatus, clean: bool, escalate: bool, now: i64) -> CheckState {
    if !counted(st, status) {
        st
    } else {
        let streak = if status == CheckStatus::InsufficientData {
            st.consecutive_clean
        } else if clean {
            (st.consecutive_clean + 1) as u32
        } else {
            0u32
        };
        CheckState {
            checks: (st.checks + 1) as u32,
            consecutive_clean: streak,
            closed: st.closed || status == CheckStatus::Recovered,
            escalated: st.escalated || escalate,
            escalation_reason: if escalate {
                Some(status)
            } else {
                st.escalation_reason
            },
            last_check_at: Some(now),
        }
    }
}

impl CheckState {
    /// Records a check made at `now` (µs). Returns whether the check's
    /// post-action rate becomes the one the next check compares against:
    /// a counted check that had enough data.
    pub fn record(&mut self, status: CheckStatus, clean: bool, escalate: bool, now: i64) -> (keep_rate: bool)
        requires
            old(self).checks < u32::MAX,
            old(self).consecutive_clean < u32::MAX,
        ensures
            *final(self) == recorded(*old(self), status, clean, escalate, now),
            keep_rate == (counted(*old(self), status) && status != CheckStatus::InsufficientData),
    {
        if self.closed || self.escalated || status == CheckStatus::TooSoon {
            return false;
        }
        self.checks = self.checks + 1;
        self.last_check_at = Some(now);
        let keep = status != CheckStatus::InsufficientData;
        if keep {
            if clean {
                self.consecutive_clean = self.consecutive_clean + 1;
            } else {
                self.consecutive_clean = 0;
            }
        }
        if status == CheckStatus::Recovered {
            self.closed = true;
        }
        if escalate {
            self.escalated = true;
            self.escalation_reason = Some(status);
        }
        keep
    }
}

// ------------------------------------------------------------------ laws

/// Once closed, every check is `recovered` and changes nothing; once
/// escalated (and not closed), every check is `escalated` and changes
/// nothing.
pub proof fn law_final_states_are_terminal(
    o: Observation,
    st: CheckState,
    elapsed: int,
    since_last: int,
    rules: CheckRules,
    now: i64,
)
    requires
        st.closed || st.escalated,
    ensures
        st.closed ==> judged(o, st, elapsed, since_last, rules) == (CheckStatus::Recovered, true, false),
        !st.closed ==> judged(o, st, elapsed, since_last, rules) == (CheckStatus::Escalated, false, true),
        ({
            let (s, c, e) = judged(o, st, elapsed, since_last, rules);
            recorded(st, s, c, e, now) == st
        }),
{
}

/// A check within the interval of the last counted one is `too_soon` and
/// does not move the state: two checks on the same data are one check.
pub proof fn law_too_soon_changes_nothing(
    o: Observation,
    st: CheckState,
    elapsed: int,
    since_last: int,
    rules: CheckRules,
    now: i64,
)
    requires
        !st.closed,
        !st.escalated,
        st.checks > 0,
        since_last < rules.interval_secs,
    ensures
        judged(o, st, elapsed, since_last, rules) == (CheckStatus::TooSoon, false, false),
        recorded(st, CheckStatus::TooSoon, false, false, now) == st,
{
}

/// A counted clean check with enough data extends the clean streak by one,
/// and closes the incident exactly when the streak reaches
/// `checks_required`; a counted dirty check with enough data resets it.
pub proof fn law_clean_checks_extend_the_streak(
    o: Observation,
    st: CheckState,
    elapsed: int,
    since_last: int,
    rules: CheckRules,
    now: i64,
)
    requires
        !st.closed,
        !st.escalated,
        st.checks == 0 || since_last >= rules.interval_secs,
        o.post_requests >= rules.min_requests,
        st.checks < u32::MAX,
        st.consecutive_clean < u32::MAX,
    ensures
        ({
            let (s, c, e) = judged(o, st, elapsed, since_last, rules);
            let next = recorded(st, s, c, e, now);
            &&& next.checks == st.checks + 1
            &&& o.clean ==> next.consecutive_clean == st.consecutive_clean + 1
            &&& o.clean ==> (next.closed <==> st.consecutive_clean + 1 >= rules.checks_required)
            &&& o.clean ==> !next.escalated
            &&& !o.clean ==> next.consecutive_clean == 0 && !next.closed
        }),
{
}

/// Applies `n` counted, clean checks with enough data, each `interval_secs`
/// after the last.
pub open spec fn after_clean_checks(st: CheckState, n: nat, rules: CheckRules, t: i64) -> CheckState
    decreases n,
{
    if n == 0 {
        st
    } else {
        let prev = after_clean_checks(st, (n - 1) as nat, rules, t);
        let o = Observation { post_requests: rules.min_requests, clean: true, no_better: false, above_previous: false };
        let (s, c, e) = judged(o, prev, 0, rules.interval_secs as int, rules);
        recorded(prev, s, c, e, t)
    }
}

/// From a fresh state, `checks_required` clean checks in a row close the
/// incident, and no fewer do.
pub proof fn law_required_clean_checks_close(rules: CheckRules, t: i64, n: nat)
    requires
        rules.checks_required >= 1,
        n <= rules.checks_required,
    ensures
        ({
            let fresh = CheckState {
                checks: 0,
                consecutive_clean: 0,
                closed: false,
                escalated: false,
                escalation_reason: None,
                last_check_at: None,
            };
            let st = after_clean_checks(fresh, n, rules, t);
            &&& st.closed <==> n == rules.checks_required
            &&& !st.escalated
            &&& st.consecutive_clean == n
            &&& st.checks == n
        }),
    decreases n,
{
    if n > 0 {
        law_required_clean_checks_close(rules, t, (n - 1) as nat);
    }
}

} // verus!

verus! {

/// A state names an escalation reason only when it is escalated.
pub open spec fn reason_only_when_escalated(st: CheckState) -> bool {
    st.escalation_reason is Some ==> st.escalated
}

/// A fresh state names no reason, and recording a check keeps the reason
/// to escalated states: a state that is not escalated has no reason.
pub proof fn law_reason_only_when_escalated(st: CheckState, status: CheckStatus, clean: bool, escalate: bool, now: i64)
    requires
        reason_only_when_escalated(st),
    ensures
        reason_only_when_escalated(recorded(st, status, clean, escalate, now)),
        reason_only_when_escalated(
            CheckState {
                checks: 0,
                consecutive_clean: 0,
                closed: false,
                escalated: false,
                escalation_reason: None,
                last_check_at: None,
            },
        ),
{
}

} // verus!
