//! Post-action verification: which journal entry is the action, which
//! deploy it reverted, the three windows recovery is judged over, and the
//! request counts in each. The judgement itself compares fractional rates
//! and is made by the program around the library.

use vstd::prelude::*;
use crate::deployer::opt_view;
use crate::events::{Event, Window};
use crate::text::{cat, str_eq, views};
use crate::tools::{in_scope, in_scope_exec, request_line, server_error};

verus! {

/// One line of the deployer's journal.
#[derive(Clone, Debug)]
pub struct DeployEvent {
    pub n: u64,
    pub kind: String,
    pub deploy_id: Option<String>,
    pub service: String,
    pub version: Option<String>,
    pub from_version: Option<String>,
    pub ts: i64,
    pub actor: String,
    pub request_id: Option<String>,
    pub justification_eids: Vec<String>,
    pub note: Option<String>,
}

/// Arguments of `verify_recovery`.
#[derive(Clone, Debug)]
pub struct VerifyArgs {
    /// The service the action changed.
    pub service: String,
    /// The action's deploy id from the deployer's response.
    pub deploy_id: String,
    /// Where recovery is judged: request lines of these services/instances
    /// count (empty: every service).
    pub services: Vec<String>,
}

/// The windows of a verification check.
#[derive(Clone, Copy, Debug)]
pub struct RecoveryWindows {
    /// Index of the action's journal entry.
    pub action: usize,
    /// Index of the deploy the action reverted, if the journal names one.
    pub reverted: Option<usize>,
    pub baseline: Window,
    pub incident: Window,
    pub post: Window,
}

/// Entry `i` is the action: the deploy id and service asked about.
pub open spec fn is_action(d: Seq<DeployEvent>, id: Seq<char>, service: Seq<char>, i: int) -> bool {
    opt_view(d[i].deploy_id) == Some(id) && d[i].service@ == service
}

/// Entry `i` is a routing change of the service to the version the action
/// rolled back from, before the action.
pub open spec fn reverts(d: Seq<DeployEvent>, action: int, service: Seq<char>, i: int) -> bool {
    &&& d[i].deploy_id is Some
    &&& d[i].service@ == service
    &&& d[i].ts < d[action].ts
    &&& d[action].from_version is Some
    &&& opt_view(d[i].version) == opt_view(d[action].from_version)
}

/// Entry `j` is what the search looks for: the action (no action given
/// yet), or a deploy the given action reverted.
pub open spec fn wanted(d: Seq<DeployEvent>, id: Seq<char>, service: Seq<char>, action: Option<int>, j: int) -> bool {
    match action {
        None => is_action(d, id, service, j),
        Some(a) => reverts(d, a, service, j),
    }
}

/// `i` is the latest wanted entry (the last such in journal order among
/// equally late ones).
pub open spec fn latest(d: Seq<DeployEvent>, id: Seq<char>, service: Seq<char>, action: Option<int>, i: int) -> bool {
    &&& 0 <= i < d.len()
    &&& wanted(d, id, service, action, i)
    &&& forall|j: int| 0 <= j < d.len() && #[trigger] wanted(d, id, service, action, j) ==> d[j].ts <= d[i].ts
    &&& forall|j: int| i < j < d.len() && #[trigger] wanted(d, id, service, action, j) ==> d[j].ts < d[i].ts
}

pub open spec fn opt_int(a: Option<usize>) -> Option<int> {
    match a {
        Some(x) => Some(x as int),
        None => None,
    }
}

fn latest_where(d: &Vec<DeployEvent>, id: &str, service: &str, action: Option<usize>) -> (r: Option<usize>)
    requires
        action matches Some(a) ==> a < d.len(),
    ensures
        match r {
            Some(i) => latest(d@, id@, service@, opt_int(action), i as int),
            None => forall|j: int| 0 <= j < d.len() ==> !#[trigger] wanted(d@, id@, service@, opt_int(action), j),
        },
{
    let ghost act = opt_int(action);
    let mut best: Option<usize> = None;
    let mut i: usize = 0;
    while i < d.len()
        invariant
            i <= d.len(),
            action matches Some(a) ==> a < d.len(),
            act == opt_int(action),
            match best {
                Some(b) => b < i && wanted(d@, id@, service@, act, b as int) && (forall|j: int|
                    0 <= j < i && #[trigger] wanted(d@, id@, service@, act, j) ==> d@[j].ts <= d@[b as int].ts)
                    && (forall|j: int| b < j < i && #[trigger] wanted(d@, id@, service@, act, j) ==> d@[j].ts < d@[b as int].ts),
                None => forall|j: int| 0 <= j < i ==> !#[trigger] wanted(d@, id@, service@, act, j),
            },
        decreases d.len() - i,
    {
        let e = &d[i];
        let hit = match action {
            None => match &e.deploy_id {
                Some(x) => str_eq(x.as_str(), id) && str_eq(e.service.as_str(), service),
                None => false,
            },
            Some(a) => {
                let act_e = &d[a];
                let same_version = match &e.version {
                    Some(v) => match &act_e.from_version {
                        Some(f) => str_eq(v.as_str(), f.as_str()),
                        None => false,
                    },
                    None => false,
                };
                e.deploy_id.is_some() && str_eq(e.service.as_str(), service) && e.ts < act_e.ts
                    && act_e.from_version.is_some() && same_version
            },
        };
        proof {
            assert(hit == wanted(d@, id@, service@, act, i as int));
        }
        if hit {
            let better = match best {
                Some(b) => e.ts >= d[b].ts,
                None => true,
            };
            if better {
                best = Some(i);
            }
        }
        i = i + 1;
    }
    best
}

/// Locates the action and the deploy it reverted in the journal and
/// resolves the three windows: the incident from the reverted deploy (or
/// `incident_lookback_secs` before the action) to the action, the baseline
/// `baseline_secs` before that, and the post window, the last
/// `window_secs` up to the safe watermark but never before the action.
pub fn recovery_windows(
    deploys: &Vec<DeployEvent>,
    a: &VerifyArgs,
    safe: i64,
    incident_lookback_secs: i64,
    baseline_secs: i64,
    window_secs: i64,
) -> (r: Result<RecoveryWindows, String>)
    requires
        0 <= incident_lookback_secs <= 1_000_000_000,
        0 <= baseline_secs <= 1_000_000_000,
        0 <= window_secs <= 1_000_000_000,
        forall|i: int| 0 <= i < deploys.len() ==> -4_000_000_000_000_000_000 <= #[trigger] deploys@[i].ts <= 4_000_000_000_000_000_000,
        -4_000_000_000_000_000_000 <= safe <= 4_000_000_000_000_000_000,
    ensures
        match r {
            Err(m) => {
                &&& forall|j: int| 0 <= j < deploys.len() ==> !#[trigger] is_action(deploys@, a.deploy_id@, a.service@, j)
                &&& m@ == "no journal entry "@ + a.deploy_id@ + " for "@ + a.service@
                    + " has been ingested yet; check freshness_watermark and retry"@
            },
            Ok(w) => {
                let act = w.action as int;
                let incident_from = match w.reverted {
                    Some(v) => deploys@[v as int].ts as int,
                    None => deploys@[act].ts - incident_lookback_secs * 1_000_000,
                };
                let post_from = if safe - window_secs * 1_000_000 > deploys@[act].ts {
                    safe - window_secs * 1_000_000
                } else {
                    deploys@[act].ts as int
                };
                &&& latest(deploys@, a.deploy_id@, a.service@, None, act)
                &&& match w.reverted {
                    Some(v) => latest(deploys@, a.deploy_id@, a.service@, Some(act), v as int),
                    None => forall|j: int| 0 <= j < deploys.len() ==> !#[trigger] reverts(deploys@, act, a.service@, j),
                }
                &&& w.incident.from == incident_from && w.incident.to == deploys@[act].ts
                &&& w.baseline.from == incident_from - baseline_secs * 1_000_000 && w.baseline.to == incident_from
                &&& w.post.from == post_from
                &&& w.post.to == if safe > post_from { safe as int } else { post_from }
            },
        },
{
    let action = match latest_where(deploys, a.deploy_id.as_str(), a.service.as_str(), None) {
        Some(i) => i,
        None => {
            proof {
                assert forall|j: int| 0 <= j < deploys.len() implies !#[trigger] is_action(deploys@, a.deploy_id@, a.service@, j) by {
                    assert(!wanted(deploys@, a.deploy_id@, a.service@, opt_int(None), j));
                }
            }
            let m = cat("no journal entry ", a.deploy_id.as_str());
            let m = cat(m.as_str(), " for ");
            let m = cat(m.as_str(), a.service.as_str());
            return Err(cat(m.as_str(), " has been ingested yet; check freshness_watermark and retry"));
        },
    };
    let reverted = latest_where(deploys, a.deploy_id.as_str(), a.service.as_str(), Some(action));
    let at = deploys[action].ts;
    let incident_from = match reverted {
        Some(v) => deploys[v].ts,
        None => at - incident_lookback_secs * 1_000_000,
    };
    let incident = Window { from: incident_from, to: at };
    let baseline = Window { from: incident_from - baseline_secs * 1_000_000, to: incident_from };
    let back = safe - window_secs * 1_000_000;
    let post_from = if back > at { back } else { at };
    let post = Window { from: post_from, to: if safe > post_from { safe } else { post_from } };
    proof {
        assert(opt_int(None) == None::<int>);
        assert(latest(deploys@, a.deploy_id@, a.service@, None, action as int));
        assert(opt_int(Some(action)) == Some(action as int));
        if reverted is None {
            assert forall|j: int| 0 <= j < deploys.len() implies !#[trigger] reverts(deploys@, action as int, a.service@, j) by {
                assert(!wanted(deploys@, a.deploy_id@, a.service@, opt_int(Some(action)), j));
            }
        }
    }
    Ok(RecoveryWindows { action, reverted, baseline, incident, post })
}

/// Which ends of a window an event may sit on.
pub open spec fn inside(w: Window, ts: int, with_from: bool, with_to: bool) -> bool {
    (if with_from { w.from <= ts } else { w.from < ts }) && (if with_to { ts <= w.to } else { ts < w.to })
}

/// Request lines in scope inside a window. The baseline is `[from, to)`,
/// the incident `[from, to]` and the post window `(from, to]`: an event at
/// the action's instant belongs to the incident.
pub open spec fn counts_in(
    events: Seq<Event>,
    n: int,
    services: Seq<Seq<char>>,
    w: Window,
    with_from: bool,
    with_to: bool,
    errors: bool,
) -> nat
    decreases n,
{
    if n <= 0 {
        0
    } else {
        let e = events[n - 1];
        counts_in(events, n - 1, services, w, with_from, with_to, errors) + if request_line(e) && in_scope(services, e)
            && inside(w, e.ts as int, with_from, with_to) && (!errors || server_error(e)) {
            1nat
        } else {
            0nat
        }
    }
}

/// A recovery window counts as errors only request lines with a
/// server-error status (500 or more): its errors never exceed its requests;
/// with no such line its errors are zero; and when every request line has
/// one, every request is an error.
pub proof fn law_recovery_errors_are_server_errors(
    events: Seq<Event>,
    n: int,
    services: Seq<Seq<char>>,
    w: Window,
    with_from: bool,
    with_to: bool,
)
    requires
        n <= events.len(),
    ensures
        counts_in(events, n, services, w, with_from, with_to, true) <= counts_in(
            events,
            n,
            services,
            w,
            with_from,
            with_to,
            false,
        ),
        (forall|i: int| 0 <= i < n ==> !(#[trigger] events[i].status matches Some(s) && s >= 500)) ==> counts_in(
            events,
            n,
            services,
            w,
            with_from,
            with_to,
            true,
        ) == 0,
        (forall|i: int| 0 <= i < n ==> (#[trigger] events[i].status matches Some(s) ==> s >= 500)) ==> counts_in(
            events,
            n,
            services,
            w,
            with_from,
            with_to,
            true,
        ) == counts_in(events, n, services, w, with_from, with_to, false),
    decreases n,
{
    if n > 0 {
        law_recovery_errors_are_server_errors(events, n - 1, services, w, with_from, with_to);
        assert(events[n - 1].status == events[n - 1].status);
    }
}

/// A window end that is left open counts nothing that sits on it: with
/// every event on `w.to` (after `w.from`), a window without its end counts
/// none of them, and with every event on `w.from` (before `w.to`), one
/// without its start counts none; events strictly inside count whichever
/// ends are kept.
pub proof fn law_open_window_ends_count_nothing_on_them(
    events: Seq<Event>,
    n: int,
    services: Seq<Seq<char>>,
    w: Window,
    with_from: bool,
    with_to: bool,
    errors: bool,
)
    requires
        n <= events.len(),
        w.from < w.to,
    ensures
        (forall|i: int| 0 <= i < n ==> #[trigger] events[i].ts == w.to) ==> counts_in(
            events,
            n,
            services,
            w,
            with_from,
            false,
            errors,
        ) == 0,
        (forall|i: int| 0 <= i < n ==> #[trigger] events[i].ts == w.from) ==> counts_in(
            events,
            n,
            services,
            w,
            false,
            with_to,
            errors,
        ) == 0,
        (forall|i: int| 0 <= i < n ==> w.from < #[trigger] events[i].ts < w.to) ==> counts_in(
            events,
            n,
            services,
            w,
            with_from,
            with_to,
            errors,
        ) == counts_in(events, n, services, w, false, false, errors),
    decreases n,
{
    if n > 0 {
        law_open_window_ends_count_nothing_on_them(events, n - 1, services, w, with_from, with_to, errors);
        assert(events[n - 1].ts == events[n - 1].ts);
    }
}

/// (requests, server errors) in the baseline, incident and post windows.
pub fn recovery_counts(events: &Vec<Event>, services: &Vec<String>, w: &RecoveryWindows) -> (r: [(u64, u64); 3])
    ensures
        r[0].0 == counts_in(events@, events.len() as int, views(services@), w.baseline, true, false, false),
        r[0].1 == counts_in(events@, events.len() as int, views(services@), w.baseline, true, false, true),
        r[1].0 == counts_in(events@, events.len() as int, views(services@), w.incident, true, true, false),
        r[1].1 == counts_in(events@, events.len() as int, views(services@), w.incident, true, true, true),
        r[2].0 == counts_in(events@, events.len() as int, views(services@), w.post, false, true, false),
        r[2].1 == counts_in(events@, events.len() as int, views(services@), w.post, false, true, true),
{
    let ghost sv = views(services@);
    let (mut bt, mut be, mut it, mut ie, mut pt, mut pe): (u64, u64, u64, u64, u64, u64) = (0, 0, 0, 0, 0, 0);
    let mut i: usize = 0;
    while i < events.len()
        invariant
            i <= events.len(),
            sv == views(services@),
            bt == counts_in(events@, i as int, sv, w.baseline, true, false, false),
            be == counts_in(events@, i as int, sv, w.baseline, true, false, true),
            it == counts_in(events@, i as int, sv, w.incident, true, true, false),
            ie == counts_in(events@, i as int, sv, w.incident, true, true, true),
            pt == counts_in(events@, i as int, sv, w.post, false, true, false),
            pe == counts_in(events@, i as int, sv, w.post, false, true, true),
            bt <= i && be <= i && it <= i && ie <= i && pt <= i && pe <= i,
        decreases events.len() - i,
    {
        let e = &events[i];
        proof {
            assert(usize::MAX <= u64::MAX);
        }
        if e.status.is_some() && e.route.is_some() && in_scope_exec(services, e) {
            let err = match e.status {
                Some(s) => s >= 500,
                None => false,
            };
            if w.baseline.from <= e.ts && e.ts < w.baseline.to {
                bt = bt + 1;
                if err {
                    be = be + 1;
                }
            }
            if w.incident.from <= e.ts && e.ts <= w.incident.to {
                it = it + 1;
                if err {
                    ie = ie + 1;
                }
            }
            if w.post.from < e.ts && e.ts <= w.post.to {
                pt = pt + 1;
                if err {
                    pe = pe + 1;
                }
            }
        }
        i = i + 1;
    }
    [(bt, be), (it, ie), (pt, pe)]
}

} // verus!
