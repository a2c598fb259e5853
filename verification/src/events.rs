//! The evidence model: events (one parsed log line each), windows of time,
//! and the lookups the tools make over the stored events. Instants are
//! microseconds since the Unix epoch.

use vstd::prelude::*;
use crate::deployer::opt_view;
use crate::text::{cat, decimal, u64_decimal, str_eq};
use crate::time::{in_chrono_range, rfc3339_of_micros, rfc3339_millis};

verus! {

/// One parsed log line. Fractional fields (latency) are kept by the
/// program around the library.
#[derive(Clone, Debug)]
pub struct Event {
    /// `<instance>:<line number>`, stable for the life of the log file.
    pub event_id: String,
    pub ts: i64,
    pub service: String,
    pub instance: String,
    pub version: String,
    pub level: String,
    pub req_id: Option<String>,
    pub msg: String,
    pub route: Option<String>,
    pub status: Option<u16>,
    pub deploy_id: Option<String>,
    pub upstream: Option<String>,
    pub kind: Option<String>,
    pub has_stack: bool,
    pub template_id: String,
    pub pattern: String,
    /// The original line, capped. Data, never instructions.
    pub raw: String,
}

/// A closed interval of time.
#[derive(Clone, Copy, Debug, PartialEq, Eq, Structural)]
pub struct Window {
    pub from: i64,
    pub to: i64,
}

impl Window {
    pub fn contains(&self, ts: i64) -> (b: bool)
        ensures
            b == (self.from <= ts <= self.to),
    {
        ts >= self.from && ts <= self.to
    }

    /// The window of `lookback_secs` seconds ending at `to`.
    pub fn ending_at(to: i64, lookback_secs: i64) -> (w: Window)
        requires
            i64::MIN <= to - lookback_secs * 1_000_000 <= i64::MAX,
            -9_223_372_036_854 <= lookback_secs <= 9_223_372_036_854,
        ensures
            w.to == to,
            w.from == to - lookback_secs * 1_000_000,
    {
        Window { from: to - lookback_secs * 1_000_000, to }
    }
}

/// How many items a response holds against its bound.
#[derive(Clone, Debug)]
pub struct BoundsApplied {
    pub max_items: usize,
    pub items_returned: usize,
    pub items_available: usize,
    pub truncated: bool,
}

impl Default for BoundsApplied {
    fn default() -> (b: Self)
        ensures
            b.max_items == 0,
            b.items_returned == 0,
            b.items_available == 0,
            !b.truncated,
    {
        BoundsApplied { max_items: 0, items_returned: 0, items_available: 0, truncated: false }
    }
}

/// An instant as text: RFC 3339 with milliseconds and `Z`; an instant
/// outside chrono's range (which no parsed or clock instant is) as its
/// microsecond count.
pub open spec fn ts_text(us: i64) -> Seq<char> {
    if in_chrono_range(us as int) {
        rfc3339_of_micros(us as int)
    } else if us >= 0 {
        decimal(us as nat)
    } else {
        "-"@ + decimal((-us) as nat)
    }
}

pub fn fmt_ts(us: i64) -> (s: String)
    ensures
        s@ == ts_text(us),
{
    match rfc3339_millis(us) {
        Some(t) => t,
        None => {
            if us >= 0 {
                u64_decimal(us as u64)
            } else {
                let m = if us == i64::MIN {
                    9_223_372_036_854_775_808u64
                } else {
                    (-us) as u64
                };
                cat("-", u64_decimal(m).as_str())
            }
        },
    }
}

// ------------------------------------------------------------------ lookups

/// A gateway line that records the request as the client sent it.
pub open spec fn is_capture(e: Event) -> bool {
    opt_view(e.kind) == Some("request_capture"@)
}

pub fn event_is_capture(e: &Event) -> (b: bool)
    ensures
        b == is_capture(*e),
{
    match &e.kind {
        Some(k) => str_eq(k.as_str(), "request_capture"),
        None => false,
    }
}

/// The first capture of request `r` at or after position `i`.
pub open spec fn capture_from(events: Seq<Event>, r: Seq<char>, i: int) -> Option<int>
    decreases events.len() - i,
{
    if i < 0 || i >= events.len() {
        None
    } else if is_capture(events[i]) && opt_view(events[i].req_id) == Some(r) {
        Some(i)
    } else {
        capture_from(events, r, i + 1)
    }
}

/// The stored capture of request `r`: the first one.
pub open spec fn capture_of(events: Seq<Event>, r: Seq<char>) -> Option<int> {
    capture_from(events, r, 0)
}

/// Position of the capture of request `r`, if one was stored.
pub fn capture_index(events: &Vec<Event>, r: &str) -> (c: Option<usize>)
    ensures
        match c {
            Some(i) => i < events.len() && capture_of(events@, r@) == Some(i as int),
            None => capture_of(events@, r@) is None,
        },
{
    let mut i: usize = 0;
    while i < events.len()
        invariant
            i <= events.len(),
            capture_from(events@, r@, i as int) == capture_of(events@, r@),
        decreases events.len() - i,
    {
        let e = &events[i];
        if event_is_capture(e) {
            match &e.req_id {
                Some(x) => {
                    if str_eq(x.as_str(), r) {
                        return Some(i);
                    }
                },
                None => {},
            }
        }
        i = i + 1;
    }
    None
}

/// The last stored event with this id below position `n`.
pub open spec fn event_below(events: Seq<Event>, id: Seq<char>, n: int) -> Option<int>
    decreases n,
{
    if n <= 0 || n > events.len() {
        None
    } else if events[n - 1].event_id@ == id {
        Some(n - 1)
    } else {
        event_below(events, id, n - 1)
    }
}

/// The stored event with this id (the latest stored, should a log file
/// have been read twice).
pub open spec fn event_of(events: Seq<Event>, id: Seq<char>) -> Option<int> {
    event_below(events, id, events.len() as int)
}

pub fn event_index(events: &Vec<Event>, id: &str) -> (r: Option<usize>)
    ensures
        match r {
            Some(i) => i < events.len() && event_of(events@, id@) == Some(i as int),
            None => event_of(events@, id@) is None,
        },
{
    let mut n: usize = events.len();
    while n > 0
        invariant
            n <= events.len(),
            event_below(events@, id@, n as int) == event_of(events@, id@),
        decreases n,
    {
        if str_eq(events[n - 1].event_id.as_str(), id) {
            return Some(n - 1);
        }
        n = n - 1;
    }
    None
}

/// Some stored event carries this template id.
pub open spec fn template_known(events: Seq<Event>, t: Seq<char>) -> bool {
    exists|i: int| 0 <= i < events.len() && #[trigger] events[i].template_id@ == t
}

pub fn has_template(events: &Vec<Event>, t: &str) -> (b: bool)
    ensures
        b == template_known(events@, t@),
{
    let mut i: usize = 0;
    while i < events.len()
        invariant
            i <= events.len(),
            forall|j: int| 0 <= j < i ==> #[trigger] events@[j].template_id@ != t@,
        decreases events.len() - i,
    {
        if str_eq(events[i].template_id.as_str(), t) {
            return true;
        }
        i = i + 1;
    }
    false
}

} // verus!

verus! {

// ------------------------------------------------------------------ watermarks

/// Newest timestamp seen per source: `log:<instance>`, `journal`,
/// `metrics`.
#[derive(Clone, Debug)]
pub struct Watermarks {
    pub entries: Vec<(String, i64)>,
}

/// A log source's key starts with `log:`.
pub open spec fn is_log_key(k: Seq<char>) -> bool {
    k.len() >= 4 && k.take(4) == "log:"@
}

pub open spec fn keys_unique(e: Seq<(String, i64)>) -> bool {
    forall|a: int, b: int| 0 <= a < b < e.len() ==> #[trigger] e[a].0@ != #[trigger] e[b].0@
}

/// The seconds a log source may lag the newest before it counts as idle.
pub const ACTIVE_SECS: i64 = 5;

fn is_log_key_exec(k: &str) -> (b: bool)
    ensures
        b == is_log_key(k@),
{
    let cs = crate::text::chars_of(k);
    proof {
        reveal_strlit("log:");
    }
    if cs.len() < 4 {
        return false;
    }
    let r = cs[0] == 'l' && cs[1] == 'o' && cs[2] == 'g' && cs[3] == ':';
    proof {
        if r {
            assert(k@.take(4) =~= "log:"@);
        } else {
            if k@.take(4) == "log:"@ {
                assert(k@.take(4)[0] == 'l' && k@.take(4)[1] == 'o' && k@.take(4)[2] == 'g' && k@.take(4)[3] == ':');
            }
        }
    }
    r
}

impl Watermarks {
    pub fn new() -> (w: Watermarks)
        ensures
            w.entries@.len() == 0,
    {
        Watermarks { entries: Vec::new() }
    }

    pub open spec fn wf(&self) -> bool {
        keys_unique(self.entries@)
    }

    /// Raises the watermark of `key` to `ts` (never lowers it); a new key
    /// starts at `ts`.
    pub fn advance(&mut self, key: String, ts: i64)
        requires
            old(self).wf(),
        ensures
            final(self).wf(),
            mark_of(final(self).entries@, key@) == Some(
                match mark_of(old(self).entries@, key@) {
                    Some(t) => if ts > t {
                        ts
                    } else {
                        t
                    },
                    None => ts,
                },
            ),
            forall|k: Seq<char>| k != key@ ==> #[trigger] mark_of(final(self).entries@, k) == mark_of(old(self).entries@, k),
    {
        let ghost before = self.entries@;
        let mut i: usize = 0;
        while i < self.entries.len() && !str_eq(self.entries[i].0.as_str(), key.as_str())
            invariant
                i <= self.entries.len(),
                self.entries@ == before,
                keys_unique(before),
                forall|a: int| 0 <= a < i ==> before[a].0@ != key@,
            decreases self.entries.len() - i,
        {
            i = i + 1;
        }
        if i < self.entries.len() {
            let old_ts = self.entries[i].1;
            let name = self.entries[i].0.clone();
            let nt = if ts > old_ts { ts } else { old_ts };
            self.entries.set(i, (name, nt));
            proof {
                let after = self.entries@;
                assert forall|a: int, b: int| 0 <= a < b < after.len() implies #[trigger] after[a].0@
                    != #[trigger] after[b].0@ by {
                    assert(after[a].0@ == before[a].0@ && after[b].0@ == before[b].0@);
                }
                lemma_mark_at(before, key@, i as int);
                lemma_mark_at(after, key@, i as int);
                assert forall|k: Seq<char>| k != key@ implies #[trigger] mark_of(after, k) == mark_of(before, k) by {
                    lemma_mark_same(before, after, k, i as int);
                }
            }
        } else {
            self.entries.push((key, ts));
            proof {
                let after = self.entries@;
                assert(after.drop_last() =~= before);
                lemma_mark_none(before, key@);
                assert forall|a: int, b: int| 0 <= a < b < after.len() implies #[trigger] after[a].0@
                    != #[trigger] after[b].0@ by {
                    if b == before.len() {
                        assert(after[a] == before[a]);
                    } else {
                        assert(after[a] == before[a] && after[b] == before[b]);
                    }
                }
            }
        }
    }

    /// Newest log timestamp across every instance: the "now" of the
    /// evidence.
    pub fn newest_log_ts(&self) -> (r: Option<i64>)
        ensures
            r is None <==> forall|a: int| 0 <= a < self.entries@.len() ==> !is_log_key(#[trigger] self.entries@[a].0@),
            r matches Some(t) ==> (exists|a: int| 0 <= a < self.entries@.len() && is_log_key(self.entries@[a].0@)
                && #[trigger] self.entries@[a].1 == t) && forall|a: int|
                0 <= a < self.entries@.len() && is_log_key(self.entries@[a].0@) ==> #[trigger] self.entries@[a].1 <= t,
    {
        let mut best: Option<i64> = None;
        let mut i: usize = 0;
        while i < self.entries.len()
            invariant
                i <= self.entries.len(),
                best is None <==> forall|a: int| 0 <= a < i ==> !is_log_key(#[trigger] self.entries@[a].0@),
                best matches Some(t) ==> (exists|a: int| 0 <= a < i && is_log_key(self.entries@[a].0@)
                    && #[trigger] self.entries@[a].1 == t) && forall|a: int|
                    0 <= a < i && is_log_key(self.entries@[a].0@) ==> #[trigger] self.entries@[a].1 <= t,
            decreases self.entries.len() - i,
        {
            if is_log_key_exec(self.entries[i].0.as_str()) {
                let v = self.entries[i].1;
                best = match best {
                    Some(t) => if v > t { Some(v) } else { Some(t) },
                    None => Some(v),
                };
            }
            i = i + 1;
        }
        best
    }

    /// The newest timestamp every active log source has been read past: the
    /// least watermark among the log sources within `ACTIVE_SECS` of the
    /// newest. A line at or before it has been ingested from every file
    /// that is still writing.
    pub fn safe_log_ts(&self) -> (r: Option<i64>)
        ensures
            r is None <==> forall|a: int| 0 <= a < self.entries@.len() ==> !is_log_key(#[trigger] self.entries@[a].0@),
            r matches Some(s) ==> {
                let newest = max_log(self.entries@);
                &&& (exists|a: int| 0 <= a < self.entries@.len() && is_log_key(self.entries@[a].0@)
                    && #[trigger] self.entries@[a].1 == s)
                &&& newest - ACTIVE_SECS * 1_000_000 <= s <= newest
                &&& forall|a: int|
                    0 <= a < self.entries@.len() && is_log_key(self.entries@[a].0@) && #[trigger] self.entries@[a].1
                        >= newest - ACTIVE_SECS * 1_000_000 ==> s <= self.entries@[a].1
            },
    {
        let newest = match self.newest_log_ts() {
            Some(t) => t,
            None => {
                return None;
            },
        };
        proof {
            lemma_max_log(self.entries@, newest);
        }
        let cutoff: i128 = newest as i128 - (ACTIVE_SECS as i128) * 1_000_000;
        let mut best: i64 = newest;
        let mut i: usize = 0;
        while i < self.entries.len()
            invariant
                i <= self.entries.len(),
                newest == max_log(self.entries@),
                cutoff == newest - ACTIVE_SECS * 1_000_000,
                cutoff <= best <= newest,
                exists|a: int| 0 <= a < self.entries@.len() && is_log_key(self.entries@[a].0@)
                    && #[trigger] self.entries@[a].1 == best,
                forall|a: int|
                    0 <= a < i && is_log_key(self.entries@[a].0@) && #[trigger] self.entries@[a].1 >= cutoff
                        ==> best <= self.entries@[a].1,
            decreases self.entries.len() - i,
        {
            if is_log_key_exec(self.entries[i].0.as_str()) {
                let v = self.entries[i].1;
                if v as i128 >= cutoff && v < best {
                    best = v;
                }
            }
            i = i + 1;
        }
        Some(best)
    }
}

/// The watermark held for `k`: that of the last entry with the key.
pub open spec fn mark_of(e: Seq<(String, i64)>, k: Seq<char>) -> Option<i64>
    decreases e.len(),
{
    if e.len() == 0 {
        None
    } else if e.last().0@ == k {
        Some(e.last().1)
    } else {
        mark_of(e.drop_last(), k)
    }
}

proof fn lemma_mark_at(e: Seq<(String, i64)>, k: Seq<char>, at: int)
    requires
        keys_unique(e),
        0 <= at < e.len(),
        e[at].0@ == k,
    ensures
        mark_of(e, k) == Some(e[at].1),
    decreases e.len(),
{
    if at < e.len() - 1 {
        let l = e.drop_last();
        assert(e[at].0@ != e[e.len() - 1].0@);
        assert forall|a: int, b: int| 0 <= a < b < l.len() implies #[trigger] l[a].0@ != #[trigger] l[b].0@ by {
            assert(l[a] == e[a] && l[b] == e[b]);
        }
        assert(l[at] == e[at]);
        lemma_mark_at(l, k, at);
    }
}

proof fn lemma_mark_none(e: Seq<(String, i64)>, k: Seq<char>)
    requires
        forall|a: int| 0 <= a < e.len() ==> e[a].0@ != k,
    ensures
        mark_of(e, k) is None,
    decreases e.len(),
{
    if e.len() > 0 {
        let l = e.drop_last();
        assert forall|a: int| 0 <= a < l.len() implies l[a].0@ != k by {
            assert(l[a] == e[a]);
        }
        lemma_mark_none(l, k);
    }
}

/// Two lists that differ only in the value at `at` agree on every other key.
proof fn lemma_mark_same(e: Seq<(String, i64)>, f: Seq<(String, i64)>, k: Seq<char>, at: int)
    requires
        e.len() == f.len(),
        0 <= at < e.len(),
        forall|a: int| 0 <= a < e.len() ==> e[a].0@ == f[a].0@,
        forall|a: int| 0 <= a < e.len() && a != at ==> e[a] == f[a],
        e[at].0@ != k,
    ensures
        mark_of(e, k) == mark_of(f, k),
    decreases e.len(),
{
    if e.len() > 0 {
        let (l, m) = (e.drop_last(), f.drop_last());
        if at < e.len() - 1 {
            assert forall|a: int| 0 <= a < l.len() implies l[a].0@ == m[a].0@ by {
                assert(l[a] == e[a] && m[a] == f[a]);
            }
            assert forall|a: int| 0 <= a < l.len() && a != at implies l[a] == m[a] by {
                assert(l[a] == e[a] && m[a] == f[a]);
            }
            assert(l[at] == e[at]);
            lemma_mark_same(l, m, k, at);
        } else {
            assert(l =~= m) by {
                assert forall|a: int| 0 <= a < l.len() implies l[a] == m[a] by {
                    assert(l[a] == e[a] && m[a] == f[a]);
                }
            }
        }
    }
}

/// The greatest log watermark (meaningful when there is a log source).
pub open spec fn max_log(e: Seq<(String, i64)>) -> int
    decreases e.len(),
{
    if e.len() == 0 {
        i64::MIN as int
    } else {
        let m = max_log(e.drop_last());
        if is_log_key(e.last().0@) && (e.last().1 as int) > m {
            e.last().1 as int
        } else {
            m
        }
    }
}

pub(crate) proof fn lemma_max_log(e: Seq<(String, i64)>, t: i64)
    requires
        exists|a: int| 0 <= a < e.len() && is_log_key(e[a].0@) && #[trigger] e[a].1 == t,
        forall|a: int| 0 <= a < e.len() && is_log_key(e[a].0@) ==> #[trigger] e[a].1 <= t,
    ensures
        max_log(e) == t,
    decreases e.len(),
{
    let l = e.drop_last();
    if exists|a: int| 0 <= a < l.len() && is_log_key(l[a].0@) && #[trigger] l[a].1 == t {
        assert forall|a: int| 0 <= a < l.len() && is_log_key(l[a].0@) implies #[trigger] l[a].1 <= t by {
            assert(l[a] == e[a]);
        }
        lemma_max_log(l, t);
    } else {
        // t is only at the last position
        lemma_max_log_bound(l);
        let a = choose|a: int| 0 <= a < e.len() && is_log_key(e[a].0@) && #[trigger] e[a].1 == t;
        if a < e.len() - 1 {
            assert(l[a] == e[a]);
        }
        assert(a == e.len() - 1);
        lemma_max_log_le(l, t);
    }
}

proof fn lemma_max_log_bound(e: Seq<(String, i64)>)
    ensures
        max_log(e) >= i64::MIN,
    decreases e.len(),
{
    if e.len() > 0 {
        lemma_max_log_bound(e.drop_last());
    }
}

proof fn lemma_max_log_le(e: Seq<(String, i64)>, t: i64)
    requires
        forall|a: int| 0 <= a < e.len() && is_log_key(e[a].0@) ==> #[trigger] e[a].1 <= t,
    ensures
        max_log(e) <= t,
    decreases e.len(),
{
    if e.len() > 0 {
        let l = e.drop_last();
        assert forall|a: int| 0 <= a < l.len() && is_log_key(l[a].0@) implies #[trigger] l[a].1 <= t by {
            assert(l[a] == e[a]);
        }
        lemma_max_log_le(l, t);
    }
}

} // verus!
