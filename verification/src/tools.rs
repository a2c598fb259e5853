//! The evidence tools' arguments and the pure parts of their logic:
//! resolving windows, tokenising queries, ranking severities.

use vstd::prelude::*;
use crate::events::Window;
use crate::text::{cat, chars_of, str_eq, str_le, string_of, views, lex_le, strictly_sorted_views, lemma_lex_le_total, lemma_lex_le_transitive, lemma_lex_le_antisymmetric};
use crate::deployer::{opt_view, or_empty};
use crate::events::Event;
use crate::events::{event_index, event_of};
use crate::config::ServiceCfg;
use crate::sanitize::{lemma_encode_push, utf8_width};
use vstd::utf8::{encode_utf8, encode_scalar};
use crate::time::{now_micros, parse_rfc3339_micros, rfc3339_parsed};
use crate::search::{window_given, given_window, back_from, has_log, back_from_exec, given_window_exec};
use crate::events::{max_log, lemma_max_log};
use crate::store::Store;

verus! {

/// A time window as the agent passes it: RFC 3339 strings, both optional.
/// An absent window is the default value with both fields None.
#[derive(Clone, Debug)]
pub struct WindowArg {
    /// RFC 3339 start. Default: `to` minus the configured lookback.
    pub from: Option<String>,
    /// RFC 3339 end. Default: the newest ingested log timestamp.
    pub to: Option<String>,
}

impl WindowArg {
    /// The window, when either end was given.
    pub fn given(&self) -> (r: Option<&WindowArg>)
        ensures
            r == (if self.from is None && self.to is None {
                None
            } else {
                Some(self)
            }),
    {
        if self.from.is_none() && self.to.is_none() {
            None
        } else {
            Some(self)
        }
    }
}

} // verus!

verus! {

// ------------------------------------------------------------------ arguments

/// Arguments of `search_logs`.
#[derive(Clone, Debug)]
pub struct SearchArgs {
    /// Words to look for in log messages (case-insensitive, any order).
    pub query: String,
    /// Restrict to these services or instances. Empty = all.
    pub services: Vec<String>,
    /// Only this level: INFO | WARNING | ERROR
    pub level: Option<String>,
    pub window: WindowArg,
    /// Max templates to return.
    pub limit: Option<usize>,
}

/// Arguments of `error_delta`.
#[derive(Clone, Debug)]
pub struct DeltaArgs {
    /// The "before" window. Default: the 5 minutes before window_b.
    pub window_a: WindowArg,
    /// The "after" window. Default: the 60 s ending at the watermark.
    pub window_b: WindowArg,
    /// service (default) | route | instance
    pub group_by: Option<String>,
    /// Restrict to these services/instances. Empty = all.
    pub services: Vec<String>,
}

/// Arguments of `get_evidence`.
#[derive(Clone, Debug)]
pub struct EvidenceArgs {
    /// An evidence id from an earlier response, e.g. "E3".
    pub eid: String,
}

// ------------------------------------------------------------------ windows

/// The window an argument resolves to at `watermark`: each given end
/// parsed, `to` defaulting to the watermark and `from` to `to` minus the
/// lookback; refused when an end does not parse, when `from` falls outside
/// the instants this library represents, or when it is after `to`.
pub open spec fn resolved(watermark: i64, lookback_secs: i64, w: Option<WindowArg>) -> Result<
    (int, int),
    Seq<char>,
> {
    let to_r: Result<int, Seq<char>> = match w {
        Some(a) => match a.to {
            Some(s) => match rfc3339_parsed(s@) {
                Ok(t) => Ok(t),
                Err(e) => Err("bad timestamp '"@ + s@ + "': "@ + e),
            },
            None => Ok(watermark as int),
        },
        None => Ok(watermark as int),
    };
    match to_r {
        Err(e) => Err(e),
        Ok(to) => {
            let from_r: Result<int, Seq<char>> = match w {
                Some(a) => match a.from {
                    Some(s) => match rfc3339_parsed(s@) {
                        Ok(t) => Ok(t),
                        Err(e) => Err("bad timestamp '"@ + s@ + "': "@ + e),
                    },
                    None => Ok(to - lookback_secs * 1_000_000),
                },
                None => Ok(to - lookback_secs * 1_000_000),
            };
            match from_r {
                Err(e) => Err(e),
                Ok(from) => if !(i64::MIN <= from <= i64::MAX) {
                    Err("window.from is out of range"@)
                } else if from > to {
                    Err("window.from is after window.to"@)
                } else {
                    Ok((from, to))
                },
            }
        },
    }
}

fn parse_ts(s: &str) -> (r: Result<i64, String>)
    ensures
        match r {
            Ok(t) => rfc3339_parsed(s@) == Ok::<int, Seq<char>>(t as int),
            Err(m) => exists|e: Seq<char>|
                rfc3339_parsed(s@) == Err::<int, Seq<char>>(e) && m@ == "bad timestamp '"@ + s@
                    + "': "@ + e,
        },
{
    match parse_rfc3339_micros(s) {
        Ok(t) => Ok(t),
        Err(e) => {
            let m = cat("bad timestamp '", s);
            let m = cat(m.as_str(), "': ");
            Err(cat(m.as_str(), e.as_str()))
        },
    }
}

/// Resolves a window argument against the evidence watermark.
pub fn resolve_at(watermark: i64, lookback_secs: i64, w: Option<&WindowArg>) -> (r: Result<Window, String>)
    ensures
        match r {
            Ok(x) => resolved(watermark, lookback_secs, opt_arg(w)) == Ok::<(int, int), Seq<char>>(
                (x.from as int, x.to as int),
            ),
            Err(m) => resolved(watermark, lookback_secs, opt_arg(w)) == Err::<(int, int), Seq<char>>(
                m@,
            ),
        },
{
    let to = match w {
        Some(a) => match &a.to {
            Some(s) => parse_ts(s.as_str())?,
            None => watermark,
        },
        None => watermark,
    };
    let from: i64 = match w {
        Some(a) => match &a.from {
            Some(s) => parse_ts(s.as_str())?,
            None => {
                let back = (lookback_secs as i128) * 1_000_000;
                let f = (to as i128) - back;
                if f < i64::MIN as i128 || f > i64::MAX as i128 {
                    return Err("window.from is out of range".to_owned());
                }
                f as i64
            },
        },
        None => {
            let back = (lookback_secs as i128) * 1_000_000;
            let f = (to as i128) - back;
            if f < i64::MIN as i128 || f > i64::MAX as i128 {
                return Err("window.from is out of range".to_owned());
            }
            f as i64
        },
    };
    if from > to {
        return Err("window.from is after window.to".to_owned());
    }
    Ok(Window { from, to })
}

/// `r` is what resolving at `watermark` gives.
pub open spec fn outcome_at(watermark: i64, lookback_secs: i64, w: Option<WindowArg>, r: Result<Window, String>) -> bool {
    match r {
        Ok(x) => resolved(watermark, lookback_secs, w) == Ok::<(int, int), Seq<char>>(
            (x.from as int, x.to as int),
        ),
        Err(m) => resolved(watermark, lookback_secs, w) == Err::<(int, int), Seq<char>>(m@),
    }
}

pub open spec fn opt_arg(w: Option<&WindowArg>) -> Option<WindowArg> {
    match w {
        Some(a) => Some(*a),
        None => None,
    }
}

/// Resolves a window argument against the newest ingested log timestamp,
/// or the clock when nothing has been ingested.
pub fn resolve(newest: Option<i64>, lookback_secs: i64, w: Option<&WindowArg>) -> (r: Result<Window, String>)
    ensures
        newest is Some ==> match r {
            Ok(x) => resolved(newest->0, lookback_secs, opt_arg(w)) == Ok::<(int, int), Seq<char>>(
                (x.from as int, x.to as int),
            ),
            Err(m) => resolved(newest->0, lookback_secs, opt_arg(w)) == Err::<(int, int), Seq<char>>(
                m@,
            ),
        },
        newest is None ==> exists|clock: i64| #[trigger] outcome_at(clock, lookback_secs, opt_arg(w), r),
{
    let watermark = match newest {
        Some(t) => t,
        None => now_micros(),
    };
    let r = resolve_at(watermark, lookback_secs, w);
    proof {
        assert(outcome_at(watermark, lookback_secs, opt_arg(w), r));
    }
    r
}

// ------------------------------------------------------------------ severity

pub open spec fn severity_of(level: Seq<char>) -> u8 {
    if level == "CRITICAL"@ || level == "FATAL"@ {
        4
    } else if level == "ERROR"@ {
        3
    } else if level == "WARNING"@ || level == "WARN"@ {
        2
    } else if level == "INFO"@ {
        1
    } else {
        0
    }
}

/// Rank of a log level: CRITICAL/FATAL 4, ERROR 3, WARNING/WARN 2, INFO 1,
/// anything else 0.
pub fn severity_rank(level: &str) -> (r: u8)
    ensures
        r == severity_of(level@),
{
    if str_eq(level, "CRITICAL") || str_eq(level, "FATAL") {
        4
    } else if str_eq(level, "ERROR") {
        3
    } else if str_eq(level, "WARNING") || str_eq(level, "WARN") {
        2
    } else if str_eq(level, "INFO") {
        1
    } else {
        0
    }
}

} // verus!

verus! {

// ------------------------------------------------------------------ tokens

/// `str::to_lowercase`: Unicode lowercase mapping.
pub uninterp spec fn lowercased(s: Seq<char>) -> Seq<char>;

/// Unicode lowercase of `s` (`str::to_lowercase`), named `lowercased`.
#[verifier::external_body]
pub(crate) fn to_lower(s: &str) -> (r: String)
    ensures
        r@ == lowercased(s@),
{
    s.to_lowercase()
}

/// `str::to_uppercase`: Unicode uppercase mapping.
pub uninterp spec fn uppercased(s: Seq<char>) -> Seq<char>;

/// Unicode uppercase of `s` (`str::to_uppercase`), named `uppercased`.
#[verifier::external_body]
pub(crate) fn to_upper(s: &str) -> (r: String)
    ensures
        r@ == uppercased(s@),
{
    s.to_uppercase()
}

/// `char::is_alphanumeric`: Unicode Alphabetic or Numeric.
pub uninterp spec fn alphanumeric(c: char) -> bool;

/// Is `c` alphanumeric (`char::is_alphanumeric`)? Named `alphanumeric`.
#[verifier::external_body]
fn is_alnum(c: char) -> (b: bool)
    ensures
        b == alphanumeric(c),
{
    c.is_alphanumeric()
}

/// The pieces of `s` between non-alphanumeric characters, empty pieces
/// included (`str::split`).
pub open spec fn words(s: Seq<char>) -> Seq<Seq<char>>
    decreases s.len(),
{
    if s.len() == 0 {
        seq![Seq::<char>::empty()]
    } else {
        let r = words(s.drop_last());
        if !alphanumeric(s.last()) {
            r.push(Seq::empty())
        } else {
            r.update(r.len() - 1, r.last().push(s.last()))
        }
    }
}

proof fn lemma_words_nonempty(s: Seq<char>)
    ensures
        words(s).len() >= 1,
    decreases s.len(),
{
    if s.len() > 0 {
        lemma_words_nonempty(s.drop_last());
    }
}

/// The pieces at least two bytes long (UTF-8).
pub open spec fn long_pieces(p: Seq<Seq<char>>) -> Seq<Seq<char>>
    decreases p.len(),
{
    if p.len() == 0 {
        p
    } else if encode_utf8(p.last()).len() >= 2 {
        long_pieces(p.drop_last()).push(p.last())
    } else {
        long_pieces(p.drop_last())
    }
}

/// The search terms of a query: its lowercase, split on non-alphanumeric
/// characters, pieces shorter than two bytes dropped.
pub open spec fn terms_of(s: Seq<char>) -> Seq<Seq<char>> {
    long_pieces(words(lowercased(s)))
}

proof fn lemma_encode_len(t: Seq<char>)
    ensures
        encode_utf8(t).len() >= t.len(),
        t.len() == 1 ==> encode_utf8(t).len() == encode_scalar(t[0] as u32).len(),
    decreases t.len(),
{
    if t.len() > 0 {
        lemma_encode_len(t.drop_last());
        lemma_encode_push(t.drop_last(), t.last());
        assert(t.drop_last().push(t.last()) =~= t);
        if t.len() == 1 {
            assert(t.drop_last() =~= Seq::<char>::empty());
            assert(encode_utf8(Seq::<char>::empty()).len() == 0);
        }
    }
}

fn long_enough(cur: &Vec<char>) -> (b: bool)
    ensures
        b == (encode_utf8(cur@).len() >= 2),
{
    proof {
        lemma_encode_len(cur@);
    }
    cur.len() >= 2 || (cur.len() == 1 && utf8_width(cur[0]) >= 2)
}

/// Splits a query into its search terms.
pub fn tokenize(s: &str) -> (r: Vec<String>)
    ensures
        views(r@) == terms_of(s@),
{
    let low = to_lower(s);
    let cs = chars_of(low.as_str());
    let ghost l = lowercased(s@);
    let mut out: Vec<String> = Vec::new();
    let mut cur: Vec<char> = Vec::new();
    let mut i: usize = 0;
    proof {
        assert(l.take(0) =~= Seq::<char>::empty());
        assert(words(Seq::<char>::empty()) =~= seq![Seq::<char>::empty()]);
        assert(seq![Seq::<char>::empty()].drop_last() =~= Seq::<Seq<char>>::empty());
    }
    while i < cs.len()
        invariant
            cs@ == l,
            i <= cs.len(),
            words(l.take(i as int)).len() >= 1,
            cur@ == words(l.take(i as int)).last(),
            views(out@) == long_pieces(words(l.take(i as int)).drop_last()),
        decreases cs.len() - i,
    {
        let c = cs[i];
        let ghost w0 = words(l.take(i as int));
        proof {
            assert(l.take(i + 1).drop_last() =~= l.take(i as int));
            assert(l.take(i + 1).last() == c);
        }
        if !is_alnum(c) {
            if long_enough(&cur) {
                out.push(string_of(cur.as_slice()));
            }
            proof {
                let w1 = words(l.take(i + 1));
                assert(w1 =~= w0.push(Seq::empty()));
                assert(w1.drop_last() =~= w0);
                assert(w0.drop_last().push(w0.last()) =~= w0);
                assert(views(out@) =~= long_pieces(w0));
            }
            cur = Vec::new();
            proof {
                assert(cur@ =~= Seq::<char>::empty());
            }
        } else {
            cur.push(c);
            proof {
                let w1 = words(l.take(i + 1));
                assert(w1 =~= w0.update(w0.len() - 1, w0.last().push(c)));
                assert(w1.drop_last() =~= w0.drop_last());
            }
        }
        i = i + 1;
    }
    if long_enough(&cur) {
        out.push(string_of(cur.as_slice()));
    }
    proof {
        let w = words(l.take(cs.len() as int));
        assert(l.take(cs.len() as int) =~= l);
        assert(w.drop_last().push(w.last()) =~= w);
        assert(views(out@) =~= long_pieces(w));
    }
    out
}

} // verus!

verus! {

// ------------------------------------------------------------------ error_delta counts

/// How request lines are grouped.
#[derive(Clone, Copy, Debug, PartialEq, Eq, Structural)]
pub enum GroupBy {
    Service,
    Route,
    Instance,
}

pub open spec fn group_by_spec(arg: Option<Seq<char>>) -> Result<GroupBy, Seq<char>> {
    let g = match arg {
        Some(s) => s,
        None => "service"@,
    };
    if g == "service"@ {
        Ok(GroupBy::Service)
    } else if g == "route"@ {
        Ok(GroupBy::Route)
    } else if g == "instance"@ {
        Ok(GroupBy::Instance)
    } else {
        Err("group_by must be service | route | instance"@)
    }
}

/// The grouping an `error_delta` call asks for (default: service).
pub fn parse_group_by(arg: &Option<String>) -> (r: Result<GroupBy, String>)
    ensures
        match r {
            Ok(g) => group_by_spec(opt_view(*arg)) == Ok::<GroupBy, Seq<char>>(g),
            Err(m) => group_by_spec(opt_view(*arg)) == Err::<GroupBy, Seq<char>>(m@),
        },
{
    let g: &str = match arg {
        Some(s) => s.as_str(),
        None => "service",
    };
    if str_eq(g, "service") {
        Ok(GroupBy::Service)
    } else if str_eq(g, "route") {
        Ok(GroupBy::Route)
    } else if str_eq(g, "instance") {
        Ok(GroupBy::Instance)
    } else {
        Err("group_by must be service | route | instance".to_owned())
    }
}

/// The group an event counts in.
pub open spec fn group_key(g: GroupBy, e: Event) -> Seq<char> {
    match g {
        GroupBy::Route => e.service@ + " "@ + or_empty(opt_view(e.route)),
        GroupBy::Instance => e.instance@,
        GroupBy::Service => e.service@,
    }
}

fn group_key_exec(g: GroupBy, e: &Event) -> (k: String)
    ensures
        k@ == group_key(g, *e),
{
    match g {
        GroupBy::Route => {
            let a = cat(e.service.as_str(), " ");
            match &e.route {
                Some(r) => cat(a.as_str(), r.as_str()),
                None => {
                    proof {
                        assert(a@ + Seq::<char>::empty() =~= a@);
                    }
                    a
                },
            }
        },
        GroupBy::Instance => e.instance.clone(),
        GroupBy::Service => e.service.clone(),
    }
}

/// The event is in scope of a service filter (empty = all): its service or
/// its instance is named.
pub open spec fn in_scope(services: Seq<Seq<char>>, e: Event) -> bool {
    services.len() == 0 || exists|k: int|
        0 <= k < services.len() && (#[trigger] services[k] == e.service@ || services[k]
            == e.instance@)
}

pub fn in_scope_exec(services: &Vec<String>, e: &Event) -> (b: bool)
    ensures
        b == in_scope(views(services@), *e),
{
    if services.len() == 0 {
        return true;
    }
    let mut k: usize = 0;
    while k < services.len()
        invariant
            k <= services.len(),
            forall|j: int|
                0 <= j < k ==> !(#[trigger] views(services@)[j] == e.service@ || views(
                    services@,
                )[j] == e.instance@),
        decreases services.len() - k,
    {
        if str_eq(services[k].as_str(), e.service.as_str()) || str_eq(
            services[k].as_str(),
            e.instance.as_str(),
        ) {
            proof {
                assert(views(services@)[k as int] == services@[k as int]@);
            }
            return true;
        }
        proof {
            assert(views(services@)[k as int] == services@[k as int]@);
        }
        k = k + 1;
    }
    false
}

/// A request line: it carries a status and a route.
pub open spec fn request_line(e: Event) -> bool {
    e.status is Some && e.route is Some
}

/// A server error: status 500 or above.
pub open spec fn server_error(e: Event) -> bool {
    e.status matches Some(s) && s >= 500
}

/// Request lines among the first `n` events that are in scope, in window
/// `w`, in group `k`; `errors` counts only server errors.
pub open spec fn tally(
    events: Seq<Event>,
    n: int,
    services: Seq<Seq<char>>,
    g: GroupBy,
    k: Seq<char>,
    w: Window,
    errors: bool,
) -> nat
    decreases n,
{
    if n <= 0 {
        0
    } else {
        let e = events[n - 1];
        tally(events, n - 1, services, g, k, w, errors) + if request_line(e) && in_scope(services, e)
            && group_key(g, e) == k && w.from <= e.ts <= w.to && (!errors || server_error(e)) {
            1nat
        } else {
            0nat
        }
    }
}

/// Requests and server errors of one group in the two windows.
#[derive(Clone, Debug)]
pub struct DeltaRow {
    pub group: String,
    pub a_requests: u64,
    pub a_errors: u64,
    pub b_requests: u64,
    pub b_errors: u64,
}

pub open spec fn row_groups(rows: Seq<DeltaRow>) -> Seq<Seq<char>> {
    Seq::new(rows.len(), |i: int| rows[i].group@)
}

/// The row holds the tallies of its group over the first `n` events.
pub open spec fn row_counts(
    events: Seq<Event>,
    n: int,
    services: Seq<Seq<char>>,
    g: GroupBy,
    wa: Window,
    wb: Window,
    r: DeltaRow,
) -> bool {
    &&& r.a_requests == tally(events, n, services, g, r.group@, wa, false)
    &&& r.a_errors == tally(events, n, services, g, r.group@, wa, true)
    &&& r.b_requests == tally(events, n, services, g, r.group@, wb, false)
    &&& r.b_errors == tally(events, n, services, g, r.group@, wb, true)
}

proof fn lemma_tally_errors(
    events: Seq<Event>,
    n: int,
    services: Seq<Seq<char>>,
    g: GroupBy,
    k: Seq<char>,
    w: Window,
)
    requires
        n <= events.len(),
    ensures
        tally(events, n, services, g, k, w, true) <= tally(events, n, services, g, k, w, false),
        (forall|i: int| 0 <= i < n ==> !(#[trigger] events[i].status matches Some(s) && s >= 500)) ==> tally(
            events,
            n,
            services,
            g,
            k,
            w,
            true,
        ) == 0,
        (forall|i: int| 0 <= i < n ==> (#[trigger] events[i].status matches Some(s) ==> s >= 500)) ==> tally(
            events,
            n,
            services,
            g,
            k,
            w,
            true,
        ) == tally(events, n, services, g, k, w, false),
    decreases n,
{
    if n > 0 {
        lemma_tally_errors(events, n - 1, services, g, k, w);
        let e = events[n - 1];
        assert(e.status == events[n - 1].status);
    }
}

/// A row counts as errors only request lines with a server-error status
/// (500 or more): its errors never exceed its requests; with no such line
/// among the events its errors are zero in both windows; and when every
/// request line has one, every request is an error.
pub proof fn law_error_counts_are_server_errors(
    events: Seq<Event>,
    services: Seq<Seq<char>>,
    g: GroupBy,
    wa: Window,
    wb: Window,
    r: DeltaRow,
)
    requires
        row_counts(events, events.len() as int, services, g, wa, wb, r),
    ensures
        r.a_errors <= r.a_requests,
        r.b_errors <= r.b_requests,
        (forall|i: int| 0 <= i < events.len() ==> !(#[trigger] events[i].status matches Some(s) && s >= 500))
            ==> r.a_errors == 0 && r.b_errors == 0,
        (forall|i: int| 0 <= i < events.len() ==> (#[trigger] events[i].status matches Some(s) ==> s >= 500))
            ==> r.a_errors == r.a_requests && r.b_errors == r.b_requests,
{
    lemma_tally_errors(events, events.len() as int, services, g, r.group@, wa);
    lemma_tally_errors(events, events.len() as int, services, g, r.group@, wb);
}

proof fn lemma_tally_none(
    events: Seq<Event>,
    n: int,
    services: Seq<Seq<char>>,
    g: GroupBy,
    k: Seq<char>,
    w: Window,
    errors: bool,
)
    requires
        n <= events.len(),
        forall|i: int|
            0 <= i < n ==> #[trigger] events[i].status is None || events[i].route is None || events[i].ts < w.from
                || events[i].ts > w.to,
    ensures
        tally(events, n, services, g, k, w, errors) == 0,
    decreases n,
{
    if n > 0 {
        lemma_tally_none(events, n - 1, services, g, k, w, errors);
        assert(events[n - 1].ts == events[n - 1].ts);
    }
}

/// A row counts only request lines (a status and a route) inside each
/// window, both ends included: when every event lacks a status or a route,
/// or lies outside window `a` (or `b`), that window's counts are zero.
pub proof fn law_rows_count_only_request_lines_in_the_window(
    events: Seq<Event>,
    services: Seq<Seq<char>>,
    g: GroupBy,
    wa: Window,
    wb: Window,
    r: DeltaRow,
)
    requires
        row_counts(events, events.len() as int, services, g, wa, wb, r),
    ensures
        (forall|i: int|
            0 <= i < events.len() ==> #[trigger] events[i].status is None || events[i].route is None
                || events[i].ts < wa.from || events[i].ts > wa.to) ==> r.a_requests == 0 && r.a_errors == 0,
        (forall|i: int|
            0 <= i < events.len() ==> #[trigger] events[i].status is None || events[i].route is None
                || events[i].ts < wb.from || events[i].ts > wb.to) ==> r.b_requests == 0 && r.b_errors == 0,
{
    if forall|i: int|
        0 <= i < events.len() ==> #[trigger] events[i].status is None || events[i].route is None
            || events[i].ts < wa.from || events[i].ts > wa.to {
        lemma_tally_none(events, events.len() as int, services, g, r.group@, wa, false);
        lemma_tally_none(events, events.len() as int, services, g, r.group@, wa, true);
    }
    if forall|i: int|
        0 <= i < events.len() ==> #[trigger] events[i].status is None || events[i].route is None
            || events[i].ts < wb.from || events[i].ts > wb.to {
        lemma_tally_none(events, events.len() as int, services, g, r.group@, wb, false);
        lemma_tally_none(events, events.len() as int, services, g, r.group@, wb, true);
    }
}

/// The event counts in some row: a request line in scope, in either window.
pub open spec fn counted(services: Seq<Seq<char>>, wa: Window, wb: Window, e: Event) -> bool {
    request_line(e) && in_scope(services, e) && (wa.from <= e.ts <= wa.to || wb.from <= e.ts
        <= wb.to)
}

proof fn lemma_tally_zero(
    events: Seq<Event>,
    n: int,
    services: Seq<Seq<char>>,
    g: GroupBy,
    k: Seq<char>,
    wa: Window,
    wb: Window,
    w: Window,
    errors: bool,
)
    requires
        w == wa || w == wb,
        forall|i: int|
            0 <= i < n && counted(services, wa, wb, events[i]) ==> #[trigger] group_key(g, events[i]) != k,
    ensures
        tally(events, n, services, g, k, w, errors) == 0,
    decreases n,
{
    if n > 0 {
        lemma_tally_zero(events, n - 1, services, g, k, wa, wb, w, errors);
    }
}

/// The rows tally the first `n` events: strictly sorted by group, each
/// row's counts exact, every counted event's group present, no empty row.
pub open spec fn rows_ok(
    events: Seq<Event>,
    n: int,
    sv: Seq<Seq<char>>,
    g: GroupBy,
    wa: Window,
    wb: Window,
    rows: Seq<DeltaRow>,
) -> bool {
    &&& strictly_sorted_views(row_groups(rows))
    &&& forall|r: int| 0 <= r < rows.len() ==> row_counts(events, n, sv, g, wa, wb, #[trigger] rows[r])
    &&& forall|r: int|
        0 <= r < rows.len() ==> #[trigger] rows[r].a_requests <= n && rows[r].a_errors <= n
            && rows[r].b_requests <= n && rows[r].b_errors <= n
    &&& forall|j: int|
        0 <= j < n && counted(sv, wa, wb, #[trigger] events[j]) ==> row_groups(rows).contains(
            group_key(g, events[j]),
        )
    &&& forall|r: int| 0 <= r < rows.len() ==> #[trigger] rows[r].a_requests + rows[r].b_requests > 0
}

/// The first row whose group is at or above `k`, and whether it is `k`.
fn slot_for(rows: &Vec<DeltaRow>, k: &String) -> (r: (usize, bool))
    requires
        strictly_sorted_views(row_groups(rows@)),
    ensures
        r.0 <= rows.len(),
        forall|a: int| 0 <= a < r.0 ==> lex_le(#[trigger] rows@[a].group@, k@) && rows@[a].group@ != k@,
        forall|a: int| r.0 <= a < rows.len() ==> lex_le(k@, #[trigger] rows@[a].group@),
        r.1 == (r.0 < rows.len() && rows@[r.0 as int].group@ == k@),
        !r.1 ==> !row_groups(rows@).contains(k@),
{
    let mut p: usize = 0;
    while p < rows.len() && !str_le(k.as_str(), rows[p].group.as_str())
        invariant
            p <= rows.len(),
            forall|a: int| 0 <= a < p ==> lex_le(#[trigger] rows@[a].group@, k@) && rows@[a].group@ != k@,
        decreases rows.len() - p,
    {
        proof {
            lemma_lex_le_total(k@, rows@[p as int].group@);
        }
        p = p + 1;
    }
    proof {
        assert forall|a: int| p <= a < rows.len() implies lex_le(k@, #[trigger] rows@[a].group@) by {
            assert(lex_le(k@, rows@[p as int].group@));
            if a > p {
                assert(lex_le(row_groups(rows@)[p as int], row_groups(rows@)[a]));
                lemma_lex_le_transitive(k@, rows@[p as int].group@, rows@[a].group@);
            }
        }
    }
    let found = p < rows.len() && str_eq(k.as_str(), rows[p].group.as_str());
    proof {
        if !found && row_groups(rows@).contains(k@) {
            let g0 = row_groups(rows@);
            let a = choose|a: int| 0 <= a < g0.len() && g0[a] == k@;
            assert(rows@[a].group@ == k@);
            if a > p {
                assert(lex_le(g0[p as int], g0[a]) && g0[p as int] != g0[a]);
                assert(lex_le(k@, rows@[p as int].group@));
                lemma_lex_le_antisymmetric(g0[p as int], k@);
            }
        }
    }
    (p, found)
}

/// One more counted event, of group `k`, whose row is at `p`.
#[verifier::rlimit(50)]
fn bump_row(
    rows: &mut Vec<DeltaRow>,
    p: usize,
    k: String,
    d: (u64, u64, u64, u64),
    Ghost(events): Ghost<Seq<Event>>,
    Ghost(i): Ghost<int>,
    Ghost(sv): Ghost<Seq<Seq<char>>>,
    g: GroupBy,
    wa: Window,
    wb: Window,
)
    requires
        0 <= i < events.len(),
        events.len() <= usize::MAX,
        rows_ok(events, i, sv, g, wa, wb, old(rows)@),
        counted(sv, wa, wb, events[i]),
        group_key(g, events[i]) == k@,
        p < old(rows).len(),
        old(rows)@[p as int].group@ == k@,
        d.0 == (if wa.from <= events[i].ts <= wa.to { 1int } else { 0 }),
        d.1 == (if wa.from <= events[i].ts <= wa.to && server_error(events[i]) { 1int } else { 0 }),
        d.2 == (if wb.from <= events[i].ts <= wb.to { 1int } else { 0 }),
        d.3 == (if wb.from <= events[i].ts <= wb.to && server_error(events[i]) { 1int } else { 0 }),
    ensures
        rows_ok(events, i + 1, sv, g, wa, wb, final(rows)@),
{
    let ghost rows0 = rows@;
    let (ar, aerr, br, berr) = (rows[p].a_requests, rows[p].a_errors, rows[p].b_requests, rows[p].b_errors);
    proof {
        assert(usize::MAX <= u64::MAX);
    }
    let nr = DeltaRow {
        group: k,
        a_requests: ar + d.0,
        a_errors: aerr + d.1,
        b_requests: br + d.2,
        b_errors: berr + d.3,
    };
    rows.set(p, nr);
    proof {
        assert(row_groups(rows@) =~= row_groups(rows0));
        assert forall|r: int| 0 <= r < rows.len() implies row_counts(events, i + 1, sv, g, wa, wb, #[trigger] rows@[r]) by {
            if r != p {
                assert(rows@[r] == rows0[r]);
                assert(row_groups(rows0)[r] != row_groups(rows0)[p as int]);
            }
        }
        assert forall|r: int| 0 <= r < rows.len() implies #[trigger] rows@[r].a_requests <= i + 1 && rows@[r].a_errors <= i + 1
            && rows@[r].b_requests <= i + 1 && rows@[r].b_errors <= i + 1 by {
            if r != p {
                assert(rows@[r] == rows0[r]);
            }
        }
        assert forall|r: int| 0 <= r < rows.len() implies #[trigger] rows@[r].a_requests + rows@[r].b_requests > 0 by {
            if r != p {
                assert(rows@[r] == rows0[r]);
            }
        }
        assert forall|j: int| 0 <= j < i + 1 && counted(sv, wa, wb, #[trigger] events[j]) implies row_groups(rows@).contains(
            group_key(g, events[j])) by {
            if j == i {
                assert(row_groups(rows@)[p as int] == k@);
            }
        }
    }
}

/// The first counted event of group `k`, whose row goes in at `p`.
#[verifier::rlimit(50)]
fn add_row(
    rows: &mut Vec<DeltaRow>,
    p: usize,
    k: String,
    d: (u64, u64, u64, u64),
    Ghost(events): Ghost<Seq<Event>>,
    Ghost(i): Ghost<int>,
    Ghost(sv): Ghost<Seq<Seq<char>>>,
    g: GroupBy,
    wa: Window,
    wb: Window,
)
    requires
        0 <= i < events.len(),
        rows_ok(events, i, sv, g, wa, wb, old(rows)@),
        counted(sv, wa, wb, events[i]),
        group_key(g, events[i]) == k@,
        p <= old(rows).len(),
        forall|a: int| 0 <= a < p ==> lex_le(#[trigger] old(rows)@[a].group@, k@) && old(rows)@[a].group@ != k@,
        forall|a: int| p <= a < old(rows).len() ==> lex_le(k@, #[trigger] old(rows)@[a].group@),
        !row_groups(old(rows)@).contains(k@),
        d.0 == (if wa.from <= events[i].ts <= wa.to { 1int } else { 0 }),
        d.1 == (if wa.from <= events[i].ts <= wa.to && server_error(events[i]) { 1int } else { 0 }),
        d.2 == (if wb.from <= events[i].ts <= wb.to { 1int } else { 0 }),
        d.3 == (if wb.from <= events[i].ts <= wb.to && server_error(events[i]) { 1int } else { 0 }),
    ensures
        rows_ok(events, i + 1, sv, g, wa, wb, final(rows)@),
{
    let ghost rows0 = rows@;
    let ghost g0 = row_groups(rows0);
    proof {
        assert forall|j: int| 0 <= j < i && counted(sv, wa, wb, events[j]) implies #[trigger] group_key(g, events[j]) != k@ by {
            if group_key(g, events[j]) == k@ {
                assert(g0.contains(group_key(g, events[j])));
            }
        }
        lemma_tally_zero(events, i, sv, g, k@, wa, wb, wa, false);
        lemma_tally_zero(events, i, sv, g, k@, wa, wb, wa, true);
        lemma_tally_zero(events, i, sv, g, k@, wa, wb, wb, false);
        lemma_tally_zero(events, i, sv, g, k@, wa, wb, wb, true);
        assert forall|a: int| p <= a < rows0.len() implies g0[a] != k@ by {
            if g0[a] == k@ {
                assert(g0.contains(k@));
            }
        }
    }
    let nr = DeltaRow { group: k, a_requests: d.0, a_errors: d.1, b_requests: d.2, b_errors: d.3 };
    rows.insert(p, nr);
    proof {
        let g1 = row_groups(rows@);
        assert(g1 =~= g0.insert(p as int, k@));
        assert forall|a: int, b: int| 0 <= a < b < g1.len() implies lex_le(#[trigger] g1[a], #[trigger] g1[b]) && g1[a] != g1[b] by {
            if b < p {
                assert(g1[a] == g0[a] && g1[b] == g0[b]);
            } else if b == p {
                assert(g1[a] == g0[a]);
            } else if a == p {
                assert(g1[b] == g0[b - 1]);
                assert(lex_le(k@, rows0[b - 1].group@));
            } else if a < p {
                assert(g1[a] == g0[a] && g1[b] == g0[b - 1]);
                assert(lex_le(k@, rows0[b - 1].group@));
                lemma_lex_le_transitive(g0[a], k@, g0[b - 1]);
                if g0[a] == g0[b - 1] {
                    lemma_lex_le_antisymmetric(g0[a], k@);
                }
            } else {
                assert(g1[a] == g0[a - 1] && g1[b] == g0[b - 1]);
            }
        }
        assert forall|r: int| 0 <= r < rows.len() implies row_counts(events, i + 1, sv, g, wa, wb, #[trigger] rows@[r]) by {
            if r < p {
                assert(rows@[r] == rows0[r]);
                assert(g0[r] != k@);
            } else if r > p {
                assert(rows@[r] == rows0[r - 1]);
                assert(g0[r - 1] != k@);
            }
        }
        assert forall|r: int| 0 <= r < rows.len() implies #[trigger] rows@[r].a_requests <= i + 1 && rows@[r].a_errors <= i + 1
            && rows@[r].b_requests <= i + 1 && rows@[r].b_errors <= i + 1 by {
            if r < p {
                assert(rows@[r] == rows0[r]);
            } else if r > p {
                assert(rows@[r] == rows0[r - 1]);
            }
        }
        assert forall|r: int| 0 <= r < rows.len() implies #[trigger] rows@[r].a_requests + rows@[r].b_requests > 0 by {
            if r < p {
                assert(rows@[r] == rows0[r]);
            } else if r > p {
                assert(rows@[r] == rows0[r - 1]);
            }
        }
        assert forall|j: int| 0 <= j < i + 1 && counted(sv, wa, wb, #[trigger] events[j]) implies g1.contains(
            group_key(g, events[j])) by {
            if j == i {
                assert(g1[p as int] == k@);
            } else {
                assert(g0.contains(group_key(g, events[j])));
                let a = choose|a: int| 0 <= a < g0.len() && g0[a] == group_key(g, events[j]);
                if a < p {
                    assert(g1[a] == g0[a]);
                } else {
                    assert(g1[a + 1] == g0[a]);
                }
            }
        }
    }
}

/// Counts event `i` into the rows.
fn count_event(
    rows: &mut Vec<DeltaRow>,
    events: &Vec<Event>,
    services: &Vec<String>,
    g: GroupBy,
    wa: &Window,
    wb: &Window,
    i: usize,
)
    requires
        i < events.len(),
        rows_ok(events@, i as int, views(services@), g, *wa, *wb, old(rows)@),
    ensures
        rows_ok(events@, i + 1, views(services@), g, *wa, *wb, final(rows)@),
{
    let ghost sv = views(services@);
    let e = &events[i];
    let in_a = wa.contains(e.ts);
    let in_b = wb.contains(e.ts);
    let req = e.status.is_some() && e.route.is_some();
    if req && in_scope_exec(services, e) && (in_a || in_b) {
        let k = group_key_exec(g, e);
        let err = match e.status {
            Some(s) => s >= 500,
            None => false,
        };
        let (p, found) = slot_for(rows, &k);
        let d: (u64, u64, u64, u64) = (
            if in_a { 1 } else { 0 },
            if in_a && err { 1 } else { 0 },
            if in_b { 1 } else { 0 },
            if in_b && err { 1 } else { 0 },
        );
        if found {
            bump_row(rows, p, k, d, Ghost(events@), Ghost(i as int), Ghost(sv), g, *wa, *wb);
        } else {
            add_row(rows, p, k, d, Ghost(events@), Ghost(i as int), Ghost(sv), g, *wa, *wb);
        }
    } else {
        proof {
            assert forall|r: int| 0 <= r < rows.len() implies row_counts(events@, i + 1, sv, g, *wa, *wb, #[trigger] rows@[r]) by {}
        }
    }
}

/// Per group, the requests and server errors of the in-scope request lines
/// in window `wa` and in window `wb`; one row per group with any such line,
/// sorted by group.
pub fn error_counts(
    events: &Vec<Event>,
    services: &Vec<String>,
    g: GroupBy,
    wa: &Window,
    wb: &Window,
) -> (rows: Vec<DeltaRow>)
    ensures
        strictly_sorted_views(row_groups(rows@)),
        forall|i: int|
            0 <= i < rows.len() ==> row_counts(
                events@,
                events.len() as int,
                views(services@),
                g,
                *wa,
                *wb,
                #[trigger] rows@[i],
            ),
        forall|i: int|
            0 <= i < events.len() && counted(views(services@), *wa, *wb, #[trigger] events@[i])
                ==> row_groups(rows@).contains(group_key(g, events@[i])),
        forall|i: int| 0 <= i < rows.len() ==> #[trigger] rows@[i].a_requests + rows@[i].b_requests > 0,
        forall|i: int|
            0 <= i < rows.len() ==> #[trigger] rows@[i].a_errors <= rows@[i].a_requests && rows@[i].b_errors
                <= rows@[i].b_requests,
        (forall|j: int| 0 <= j < events.len() ==> !(#[trigger] events@[j].status matches Some(s) && s >= 500))
            ==> forall|i: int| 0 <= i < rows.len() ==> #[trigger] rows@[i].a_errors == 0 && rows@[i].b_errors == 0,
{
    let mut rows: Vec<DeltaRow> = Vec::new();
    let mut i: usize = 0;
    while i < events.len()
        invariant
            i <= events.len(),
            rows_ok(events@, i as int, views(services@), g, *wa, *wb, rows@),
        decreases events.len() - i,
    {
        count_event(&mut rows, events, services, g, wa, wb, i);
        i = i + 1;
    }
    proof {
        assert forall|i: int| 0 <= i < rows.len() implies #[trigger] rows@[i].a_errors <= rows@[i].a_requests
            && rows@[i].b_errors <= rows@[i].b_requests && ((forall|j: int|
            0 <= j < events.len() ==> !(#[trigger] events@[j].status matches Some(s) && s >= 500)) ==> rows@[i].a_errors
            == 0 && rows@[i].b_errors == 0) by {
            law_error_counts_are_server_errors(events@, views(services@), g, *wa, *wb, rows@[i]);
        }
    }
    rows
}

} // verus!

verus! {

// ------------------------------------------------------------------ error_delta

/// `rows` are the error counts of the request lines in scope, per group,
/// before (`wa`) and after (`wb`): one row per group that has a request in
/// either window, in group order.
pub open spec fn delta_rows(events: Seq<Event>, services: Seq<Seq<char>>, g: GroupBy, wa: Window, wb: Window, rows: Seq<DeltaRow>) -> bool {
    &&& strictly_sorted_views(row_groups(rows))
    &&& forall|i: int| 0 <= i < rows.len() ==> row_counts(events, events.len() as int, services, g, wa, wb, #[trigger] rows[i])
    &&& forall|i: int|
        0 <= i < events.len() && counted(services, wa, wb, #[trigger] events[i]) ==> row_groups(rows).contains(
            group_key(g, events[i]),
        )
    &&& forall|i: int| 0 <= i < rows.len() ==> #[trigger] rows[i].a_requests + rows[i].b_requests > 0
}

/// What `error_delta` found, before the rows are ordered by their change in
/// error rate (a fraction, compared by the program around the library).
#[derive(Debug)]
pub struct DeltaResult {
    pub window_a: Window,
    pub window_b: Window,
    pub group_by: GroupBy,
    pub rows: Vec<DeltaRow>,
}

/// The windows `error_delta` compares at watermark `wm`: `window_b`
/// defaults to the 60 s ending at the watermark, `window_a` to the 300 s
/// before `window_b`.
pub open spec fn delta_windows(wm: i64, lookback_secs: i64, a: DeltaArgs) -> Result<(Window, Window), Seq<char>> {
    let wb = match window_given(a.window_b) {
        Some(x) => given_window(wm, lookback_secs, x),
        None => back_from(wm, 60),
    };
    match wb {
        Err(m) => Err(m),
        Ok(wb) => {
            let wa = match window_given(a.window_a) {
                Some(x) => given_window(wm, lookback_secs, x),
                None => back_from(wb.from, 300),
            };
            match wa {
                Err(m) => Err(m),
                Ok(wa) => Ok((wa, wb)),
            }
        },
    }
}

/// `r` is `error_delta` at watermark `wm`.
pub open spec fn delta_outcome(events: Seq<Event>, wm: i64, lookback_secs: i64, a: DeltaArgs, r: Result<DeltaResult, String>) -> bool {
    match delta_windows(wm, lookback_secs, a) {
        Err(m) => r matches Err(e) && e@ == m,
        Ok((wa, wb)) => match group_by_spec(opt_view(a.group_by)) {
            Err(m) => r matches Err(e) && e@ == m,
            Ok(g) => r matches Ok(x) && x.window_a == wa && x.window_b == wb && x.group_by == g && delta_rows(
                events,
                views(a.services@),
                g,
                wa,
                wb,
                x.rows@,
            ),
        },
    }
}

/// Error counts per group in two windows, resolved against the newest log
/// watermark (or the clock, read once, when no log has been read).
pub fn error_delta(store: &Store, lookback_secs: i64, a: &DeltaArgs) -> (r: Result<DeltaResult, String>)
    ensures
        has_log(store.watermarks.entries@) ==> delta_outcome(
            store.events@,
            max_log(store.watermarks.entries@) as i64,
            lookback_secs,
            *a,
            r,
        ),
        !has_log(store.watermarks.entries@) ==> exists|clock: i64| delta_outcome(store.events@, clock, lookback_secs, *a, r),
{
    let newest = store.watermarks.newest_log_ts();
    proof {
        if let Some(t) = newest {
            lemma_max_log(store.watermarks.entries@, t);
        }
    }
    let wm = match newest {
        Some(t) => t,
        None => now_micros(),
    };
    let rb = match a.window_b.given() {
        Some(x) => given_window_exec(wm, lookback_secs, x),
        None => back_from_exec(wm, 60),
    };
    let wb = match rb {
        Ok(w) => w,
        Err(m) => {
            let r: Result<DeltaResult, String> = Err(m);
            proof {
                assert(delta_outcome(store.events@, wm, lookback_secs, *a, r));
            }
            return r;
        },
    };
    let ra = match a.window_a.given() {
        Some(x) => given_window_exec(wm, lookback_secs, x),
        None => back_from_exec(wb.from, 300),
    };
    let wa = match ra {
        Ok(w) => w,
        Err(m) => {
            let r: Result<DeltaResult, String> = Err(m);
            proof {
                assert(delta_outcome(store.events@, wm, lookback_secs, *a, r));
            }
            return r;
        },
    };
    let g = match parse_group_by(&a.group_by) {
        Ok(g) => g,
        Err(m) => {
            let r: Result<DeltaResult, String> = Err(m);
            proof {
                assert(delta_outcome(store.events@, wm, lookback_secs, *a, r));
            }
            return r;
        },
    };
    let rows = error_counts(&store.events, &a.services, g, &wa, &wb);
    let r: Result<DeltaResult, String> = Ok(DeltaResult { window_a: wa, window_b: wb, group_by: g, rows });
    proof {
        assert(delta_outcome(store.events@, wm, lookback_secs, *a, r));
    }
    r
}

} // verus!

verus! {

// ------------------------------------------------------------------ freshness

/// `x / d` rounded toward zero, as integer division in Rust rounds.
pub open spec fn div_toward_zero(x: int, d: int) -> int {
    if x >= 0 {
        x / d
    } else {
        -((-x) / d)
    }
}

/// The newest timestamp among the log sources' watermarks, if there is a
/// log source.
pub open spec fn newest_log(e: Seq<(String, i64)>) -> Option<i64> {
    if exists|a: int| 0 <= a < e.len() && crate::events::is_log_key(e[a].0@) {
        Some(max_log(e) as i64)
    } else {
        None
    }
}

/// What `freshness_watermark` reports of the store at wall-clock `now`.
#[derive(Clone, Debug)]
pub struct Freshness {
    /// The newest log timestamp across every instance.
    pub newest_log_ts: Option<i64>,
    /// Whole milliseconds from the newest log line to now.
    pub lag_ms: Option<i64>,
    pub ingested_events: u64,
    pub malformed_lines: u64,
    /// Distinct templates among the stored events.
    pub templates_total: usize,
    pub deploy_entries: usize,
    pub epoch: u64,
}

proof fn lemma_indices_same(n: nat, p: spec_fn(int) -> bool, q: spec_fn(int) -> bool)
    requires
        forall|i: int| 0 <= i < n ==> #[trigger] p(i) == q(i),
    ensures
        crate::search::indices_where(n, p) == crate::search::indices_where(n, q),
    decreases n,
{
    if n > 0 {
        lemma_indices_same((n - 1) as nat, p, q);
    }
}

/// How fresh the evidence is: the newest log line, how far behind `now` it
/// is, and the store's counts.
pub fn freshness(store: &Store, now: i64) -> (f: Freshness)
    ensures
        f.newest_log_ts == newest_log(store.watermarks.entries@),
        f.lag_ms == (match newest_log(store.watermarks.entries@) {
            Some(t) => Some(div_toward_zero(now - t, 1000) as i64),
            None => None,
        }),
        f.ingested_events == store.ingested,
        f.malformed_lines == store.malformed,
        f.templates_total == crate::search::group_keys(
            store.events@,
            crate::search::indices_where(store.events.len() as nat, |i: int| true),
        ).len(),
        f.deploy_entries == store.deploys.len(),
        f.epoch == store.epoch,
{
    let newest = store.watermarks.newest_log_ts();
    proof {
        match newest {
            Some(t) => {
                lemma_max_log(store.watermarks.entries@, t);
            },
            None => {},
        }
    }
    let lag_ms = match newest {
        Some(t) => {
            let d: i128 = now as i128 - t as i128;
            let q: i128 = d / 1000;
            proof {
                assert(-18_446_744_073_709_551_616 <= d <= 18_446_744_073_709_551_616);
                assert(q == div_toward_zero(d as int, 1000));
            }
            Some(q as i64)
        },
        None => None,
    };
    let full = Window { from: i64::MIN, to: i64::MAX };
    let c = crate::bundle::coverage(&store.events, full);
    proof {
        lemma_indices_same(store.events.len() as nat, crate::bundle::in_window_at(store.events@, full), |i: int| true);
    }
    Freshness {
        newest_log_ts: newest,
        lag_ms,
        ingested_events: store.ingested,
        malformed_lines: store.malformed,
        templates_total: c.templates_in_window,
        deploy_entries: store.deploys.len(),
        epoch: store.epoch,
    }
}

} // verus!

verus! {

// ------------------------------------------------------------------ service_topology

/// The service graph, as configured: each instance with its upstreams, and
/// one edge (instance, upstream) per upstream.
pub struct Topology {
    /// (name, service, role, upstreams) of each configured instance.
    pub nodes: Vec<(String, String, String, Vec<String>)>,
    pub edges: Vec<(String, String)>,
}

/// The edges of the configured graph: for each instance in order, one
/// edge to each of its upstreams in order.
pub open spec fn topology_edges(services: Seq<ServiceCfg>) -> Seq<(Seq<char>, Seq<char>)>
    decreases services.len(),
{
    if services.len() == 0 {
        Seq::empty()
    } else {
        let s = services.last();
        topology_edges(services.drop_last()) + Seq::new(s.upstreams@.len(), |k: int| (s.name@, s.upstreams@[k]@))
    }
}

pub open spec fn edge_views(e: Seq<(String, String)>) -> Seq<(Seq<char>, Seq<char>)> {
    Seq::new(e.len(), |k: int| (e[k].0@, e[k].1@))
}

/// The static service graph from the configuration.
pub fn service_topology(services: &Vec<ServiceCfg>) -> (t: Topology)
    ensures
        t.nodes.len() == services.len(),
        forall|i: int|
            0 <= i < services.len() ==> {
                let n = #[trigger] t.nodes@[i];
                &&& n.0@ == services@[i].name@
                &&& n.1@ == services@[i].service@
                &&& n.2@ == services@[i].role@
                &&& views(n.3@) == views(services@[i].upstreams@)
            },
        edge_views(t.edges@) == topology_edges(services@),
{
    let mut nodes: Vec<(String, String, String, Vec<String>)> = Vec::new();
    let mut edges: Vec<(String, String)> = Vec::new();
    let mut i: usize = 0;
    while i < services.len()
        invariant
            i <= services.len(),
            nodes.len() == i,
            forall|j: int|
                0 <= j < i ==> {
                    let n = #[trigger] nodes@[j];
                    &&& n.0@ == services@[j].name@
                    &&& n.1@ == services@[j].service@
                    &&& n.2@ == services@[j].role@
                    &&& views(n.3@) == views(services@[j].upstreams@)
                },
            edge_views(edges@) == topology_edges(services@.take(i as int)),
        decreases services.len() - i,
    {
        let s = &services[i];
        let ghost e0 = edges@;
        let mut ups: Vec<String> = Vec::new();
        let mut k: usize = 0;
        while k < s.upstreams.len()
            invariant
                k <= s.upstreams.len(),
                s == services@[i as int],
                ups.len() == k,
                forall|x: int| 0 <= x < k ==> (#[trigger] ups@[x])@ == s.upstreams@[x]@,
                edges@.len() == e0.len() + k,
                forall|x: int| 0 <= x < e0.len() ==> #[trigger] edges@[x] == e0[x],
                forall|x: int|
                    0 <= x < k ==> (#[trigger] edges@[e0.len() + x]).0@ == s.name@ && edges@[e0.len() + x].1@
                        == s.upstreams@[x]@,
            decreases s.upstreams.len() - k,
        {
            let u = s.upstreams[k].clone();
            ups.push(u.clone());
            edges.push((s.name.clone(), u));
            k = k + 1;
        }
        proof {
            assert(views(ups@) =~= views(s.upstreams@));
            let t = services@.take(i + 1);
            assert(t.drop_last() =~= services@.take(i as int));
            assert(t.last() == services@[i as int]);
            assert(edge_views(edges@) =~= edge_views(e0) + Seq::new(
                s.upstreams@.len(),
                |x: int| (s.name@, s.upstreams@[x]@),
            )) by {
                assert forall|x: int| 0 <= x < edges@.len() implies #[trigger] edge_views(edges@)[x] == (
                    edge_views(e0) + Seq::new(s.upstreams@.len(), |y: int| (s.name@, s.upstreams@[y]@))
                )[x] by {
                    if x >= e0.len() {
                        assert(edges@[e0.len() + (x - e0.len())] == edges@[x]);
                    }
                }
            }
        }
        nodes.push((s.name.clone(), s.service.clone(), s.role.clone(), ups));
        i = i + 1;
    }
    proof {
        assert(services@.take(services.len() as int) =~= services@);
    }
    Topology { nodes, edges }
}

// ------------------------------------------------------------------ get_evidence

/// The refusal for an evidence id the investigation never issued.
pub open spec fn unknown_eid_text(eid: Seq<char>) -> Seq<char> {
    "unknown evidence id '"@ + eid + "' in this investigation"@
}

/// The stored events (as indices) behind the first three exemplar ids of
/// an evidence record; ids that are not stored are passed over.
pub open spec fn exemplar_events(events: Seq<Event>, ids: Seq<String>) -> Seq<usize>
    decreases ids.len(),
{
    if ids.len() == 0 {
        Seq::empty()
    } else {
        let r = exemplar_events(events, ids.drop_last());
        if ids.len() > 3 {
            r
        } else {
            match event_of(events, ids.last()@) {
                Some(i) => r.push(i as usize),
                None => r,
            }
        }
    }
}

/// An evidence record of this investigation (its exemplar event ids, or
/// None when the investigation never issued `eid`) with its exemplar
/// events, at most three, as indices into `events`.
pub fn get_evidence(events: &Vec<Event>, eid: &str, record: Option<&Vec<String>>) -> (r: Result<Vec<usize>, String>)
    ensures
        match record {
            None => r matches Err(m) && m@ == unknown_eid_text(eid@),
            Some(ids) => r matches Ok(v) && v@ == exemplar_events(events@, ids@),
        },
        r matches Ok(v) ==> v.len() <= 3 && forall|k: int| 0 <= k < v.len() ==> #[trigger] v@[k] < events.len(),
{
    match record {
        None => {
            let m = cat("unknown evidence id '", eid);
            Err(cat(m.as_str(), "' in this investigation"))
        },
        Some(ids) => {
            let mut out: Vec<usize> = Vec::new();
            let mut k: usize = 0;
            while k < ids.len() && k < 3
                invariant
                    k <= ids.len(),
                    k <= 3,
                    out@ == exemplar_events(events@, ids@.take(k as int)),
                    out.len() <= k,
                    forall|j: int| 0 <= j < out.len() ==> #[trigger] out@[j] < events.len(),
                decreases ids.len() - k,
            {
                let ghost t = ids@.take(k + 1);
                assert(t.drop_last() =~= ids@.take(k as int));
                assert(t.last() == ids@[k as int]);
                match event_index(events, ids[k].as_str()) {
                    Some(i) => out.push(i),
                    None => {},
                }
                k = k + 1;
            }
            proof {
                lemma_exemplars_stop(events@, ids@, k as nat);
            }
            Ok(out)
        },
    }
}

/// Ids past the third never add an exemplar.
proof fn lemma_exemplars_stop(events: Seq<Event>, ids: Seq<String>, k: nat)
    requires
        k <= ids.len(),
        k == ids.len() || k >= 3,
    ensures
        exemplar_events(events, ids) == exemplar_events(events, ids.take(k as int)),
    decreases ids.len() - k,
{
    if k < ids.len() {
        lemma_exemplars_stop(events, ids.drop_last(), k);
        assert(ids.drop_last().take(k as int) =~= ids.take(k as int));
    } else {
        assert(ids.take(k as int) =~= ids);
    }
}

} // verus!
