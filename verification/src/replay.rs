//! The causal check's selection: which captured request is the exemplar of
//! a failure, and the request's path through the system.
//!
//! The exemplar is the earliest event in the window that matches the
//! selector and whose request id has a captured request. Candidates are
//! ordered by (ts, event_id), never by ingest order, which interleaves
//! files; the selection is therefore deterministic on frozen data.

use vstd::prelude::*;
use crate::deployer::opt_view;
use crate::events::{
    event_below, Event, Window, capture_index, capture_of, event_index, event_of, has_template, template_known,
    is_capture, event_is_capture, fmt_ts, ts_text,
};
use crate::sanitize::{SanitizedBody, sanitize_headers, header_views, names, lookup, kept_headers, dropped_headers, capped};
use crate::body::{JsonDoc, doc_wf, body_out, sanitize_body};
use vstd::utf8::encode_utf8;
use crate::recovery::opt_int;
use crate::search::{indices_where, ints};
use crate::text::{views, sorted_views, strictly_sorted_views};
use crate::config::{ReplayRoute, ServiceCfg};
use crate::text::{
    cat, debug_opt, debug_option, decimal, join_seq, lemma_join_push, lex_le, str_eq, str_le, u64_decimal,
    lemma_lex_le_antisymmetric, lemma_lex_le_total, lemma_lex_le_transitive, lemma_lex_le_reflexive,
};

verus! {

/// Request-id prefix on every replayed request; the tailer drops lines that
/// carry it.
pub const REQ_ID_PREFIX: &'static str = "replay-";

/// What the agent names to pick an exemplar.
#[derive(Clone, Debug)]
pub enum Selector {
    Template(String),
    RouteStatus(String, u16),
    /// A specific event (the exemplar an earlier evidence item cites); the
    /// window does not apply.
    Event(String),
}

pub open spec fn label_of(sel: Selector) -> Seq<char> {
    match sel {
        Selector::Template(t) => t@,
        Selector::RouteStatus(r, s) => r@ + " "@ + decimal(s as nat),
        Selector::Event(e) => e@,
    }
}

impl Selector {
    /// How the selector reads in messages.
    pub fn label(&self) -> (s: String)
        ensures
            s@ == label_of(*self),
    {
        match self {
            Selector::Template(t) => t.clone(),
            Selector::RouteStatus(r, s) => {
                let a = cat(r.as_str(), " ");
                cat(a.as_str(), u64_decimal(*s as u64).as_str())
            },
            Selector::Event(e) => e.clone(),
        }
    }
}

/// The chosen exemplar.
#[derive(Clone, Debug)]
pub struct Exemplar {
    pub req_id: String,
    pub capture_idx: usize,
    pub matched_idx: usize,
    /// Events matching the selector in the window, and how many of those
    /// had a capture.
    pub matching: usize,
    pub with_capture: usize,
}

/// The captured request, sanitised: method, path, kept headers (sorted by
/// name), dropped header names, body.
#[derive(Clone, Debug)]
pub struct CapturedRequest {
    pub method: String,
    pub path: String,
    pub headers: Vec<(String, String)>,
    pub headers_dropped: Vec<String>,
    pub body: SanitizedBody,
}

/// Arguments of `get_exemplar_request`.
#[derive(Clone, Debug)]
pub struct ExemplarArgs {
    pub template_id: Option<String>,
    pub eid: Option<String>,
    pub route: Option<String>,
    pub status: Option<usize>,
    pub event_id: Option<String>,
    pub window: crate::tools::WindowArg,
}

/// Arguments of `replay_exemplar`.
#[derive(Clone, Debug)]
pub struct ReplayArgs {
    pub exemplar: String,
    pub service: String,
    pub versions: Vec<String>,
    pub n: Option<usize>,
}

// ------------------------------------------------------------------ selection

/// The event matches the selector (an event selector is handled apart).
pub open spec fn sel_hit(sel: Selector, e: Event) -> bool {
    match sel {
        Selector::Template(t) => e.template_id@ == t@,
        Selector::RouteStatus(r, s) => opt_view(e.route) == Some(r@) && e.status == Some(s),
        Selector::Event(_) => false,
    }
}

/// Event `i` is in the window, is not itself a capture, and matches.
pub open spec fn eligible(events: Seq<Event>, sel: Selector, w: Window, i: int) -> bool {
    &&& w.from <= events[i].ts <= w.to
    &&& !is_capture(events[i])
    &&& sel_hit(sel, events[i])
}

/// Event `i`'s request has a stored capture.
pub open spec fn has_capture(events: Seq<Event>, i: int) -> bool {
    events[i].req_id is Some && capture_of(events, events[i].req_id->0@) is Some
}

pub open spec fn count_matching(events: Seq<Event>, sel: Selector, w: Window, n: int) -> nat
    decreases n,
{
    if n <= 0 {
        0
    } else {
        count_matching(events, sel, w, n - 1) + if eligible(events, sel, w, n - 1) {
            1nat
        } else {
            0nat
        }
    }
}

pub open spec fn count_captured(events: Seq<Event>, sel: Selector, w: Window, n: int) -> nat
    decreases n,
{
    if n <= 0 {
        0
    } else {
        count_captured(events, sel, w, n - 1) + if eligible(events, sel, w, n - 1) && has_capture(
            events,
            n - 1,
        ) {
            1nat
        } else {
            0nat
        }
    }
}

/// Event `i` sorts strictly before event `j` by (ts, event_id).
pub open spec fn sorts_before(events: Seq<Event>, i: int, j: int) -> bool {
    ||| events[i].ts < events[j].ts
    ||| (events[i].ts == events[j].ts && lex_le(events[i].event_id@, events[j].event_id@)
        && events[i].event_id@ != events[j].event_id@)
}

/// Event `i` is the exemplar among the first `n` events: a candidate that
/// no candidate sorts before, and the first such in store order.
pub open spec fn chosen_upto(events: Seq<Event>, sel: Selector, w: Window, i: int, n: int) -> bool {
    &&& 0 <= i < n <= events.len()
    &&& eligible(events, sel, w, i) && has_capture(events, i)
    &&& forall|j: int|
        0 <= j < n && eligible(events, sel, w, j) && has_capture(events, j) ==> !sorts_before(
            events,
            j,
            i,
        )
    &&& forall|j: int|
        0 <= j < i && eligible(events, sel, w, j) && has_capture(events, j) ==> sorts_before(
            events,
            i,
            j,
        )
}

pub open spec fn chosen(events: Seq<Event>, sel: Selector, w: Window, i: int) -> bool {
    chosen_upto(events, sel, w, i, events.len() as int)
}

/// The refusal when nothing in the window can serve as the exemplar.
pub open spec fn no_match_text(sel: Selector, w: Window, matching: nat) -> Seq<char> {
    "no captured request matches "@ + label_of(sel) + " in the window "@ + ts_text(w.from) + ".."@
        + ts_text(w.to) + " ("@ + decimal(matching)
        + " matching event(s), none with a request capture)"@ + if matching == 0 {
        "; check the template_id, or pass the eid of the template item"@
    } else {
        ""@
    }
}

proof fn lemma_sorts_before_transitive(events: Seq<Event>, a: int, b: int, c: int)
    requires
        sorts_before(events, a, b),
        !sorts_before(events, c, b),
    ensures
        sorts_before(events, a, c),
{
    let (ia, ib, ic) = (events[a].event_id@, events[b].event_id@, events[c].event_id@);
    if events[a].ts == events[b].ts && events[b].ts == events[c].ts {
        lemma_lex_le_total(ib, ic);
        if lex_le(ic, ib) && ic != ib {
        } else {
            // ib <= ic
            if ic == ib {
            } else {
                assert(lex_le(ib, ic));
            }
            lemma_lex_le_transitive(ia, ib, ic);
            if ia == ic {
                lemma_lex_le_antisymmetric(ia, ib);
            }
        }
    }
}

proof fn lemma_none_captured(events: Seq<Event>, sel: Selector, w: Window, n: int)
    requires
        count_captured(events, sel, w, n) == 0,
    ensures
        forall|j: int| 0 <= j < n ==> !(eligible(events, sel, w, j) && has_capture(events, j)),
    decreases n,
{
    if n > 0 {
        lemma_none_captured(events, sel, w, n - 1);
    }
}

proof fn lemma_sorts_before_strict(events: Seq<Event>, a: int, b: int, c: int)
    requires
        sorts_before(events, a, b),
        sorts_before(events, b, c),
    ensures
        sorts_before(events, a, c),
{
    let (ia, ib, ic) = (events[a].event_id@, events[b].event_id@, events[c].event_id@);
    if events[a].ts == events[b].ts && events[b].ts == events[c].ts {
        lemma_lex_le_transitive(ia, ib, ic);
        if ia == ic {
            lemma_lex_le_antisymmetric(ia, ib);
        }
    }
}

fn sorts_before_exec(events: &Vec<Event>, i: usize, j: usize) -> (b: bool)
    requires
        i < events.len(),
        j < events.len(),
    ensures
        b == sorts_before(events@, i as int, j as int),
{
    let a = &events[i];
    let c = &events[j];
    a.ts < c.ts || (a.ts == c.ts && str_le(a.event_id.as_str(), c.event_id.as_str()) && !str_eq(
        a.event_id.as_str(),
        c.event_id.as_str(),
    ))
}

fn sel_hit_exec(sel: &Selector, e: &Event) -> (b: bool)
    ensures
        b == sel_hit(*sel, *e),
{
    match sel {
        Selector::Template(t) => str_eq(e.template_id.as_str(), t.as_str()),
        Selector::RouteStatus(r, s) => {
            let route_ok = match &e.route {
                Some(x) => str_eq(x.as_str(), r.as_str()),
                None => false,
            };
            let status_ok = match e.status {
                Some(x) => x == *s,
                None => false,
            };
            route_ok && status_ok
        },
        Selector::Event(_) => false,
    }
}

/// `r` is the selection of `sel` in window `w` over `events`: an unknown
/// template or event id is refused; an event selector picks that event
/// when its request was captured; otherwise the chosen event is the
/// earliest eligible one with a capture, or the refusal says how many
/// matched.
pub open spec fn selected(events: Seq<Event>, sel: Selector, w: Window, r: Result<Exemplar, String>) -> bool {
    &&& match sel {
        Selector::Template(t) => !template_known(events, t@) ==> (r matches Err(m) && m@
            == "unknown template_id '"@ + t@ + "'"@),
        _ => true,
    }
    &&& match sel {
        Selector::Event(id) => match event_of(events, id@) {
            None => (r matches Err(m) && m@ == "unknown event_id '"@ + id@ + "'"@),
            Some(i) => {
                let e = events[i];
                if has_capture(events, i) {
                    &&& r matches Ok(x)
                    &&& x.req_id@ == e.req_id->0@
                    &&& x.capture_idx == capture_of(events, e.req_id->0@)->0
                    &&& x.matched_idx == i
                    &&& x.matching == 1 && x.with_capture == 1
                } else {
                    (r matches Err(m) && m@ == "event "@ + id@ + " (req_id "@ + debug_option(
                        opt_view(e.req_id),
                    ) + ") has no captured request"@)
                }
            },
        },
        _ => true,
    }
    &&& !(sel is Event) && !(sel matches Selector::Template(t) && !template_known(events, t@)) ==> ({
        let matching = count_matching(events, sel, w, events.len() as int);
        let captured = count_captured(events, sel, w, events.len() as int);
        match r {
            Ok(x) => {
                &&& chosen(events, sel, w, x.matched_idx as int)
                &&& x.req_id@ == events[x.matched_idx as int].req_id->0@
                &&& x.capture_idx == capture_of(events, x.req_id@)->0
                &&& x.matching == matching
                &&& x.with_capture == captured
            },
            Err(m) => {
                &&& captured == 0
                &&& m@ == no_match_text(sel, w, matching)
            },
        }
    })
}

/// The exemplar is the least candidate by (time, event id): it sorts before
/// every other eligible event with a captured request, except one with the
/// same time and event id; and no other event is the exemplar.
pub proof fn law_exemplar_is_the_least_candidate(events: Seq<Event>, sel: Selector, w: Window, i: int)
    requires
        chosen(events, sel, w, i),
    ensures
        forall|j: int|
            0 <= j < events.len() && j != i && eligible(events, sel, w, j) && has_capture(events, j) ==> sorts_before(
                events,
                i,
                j,
            ) || (events[j].ts == events[i].ts && events[j].event_id@ == events[i].event_id@),
        forall|j: int| chosen(events, sel, w, j) ==> j == i,
{
    assert forall|j: int|
        0 <= j < events.len() && j != i && eligible(events, sel, w, j) && has_capture(events, j) implies sorts_before(
            events,
            i,
            j,
        ) || (events[j].ts == events[i].ts && events[j].event_id@ == events[i].event_id@) by {
        assert(!sorts_before(events, j, i));
        lemma_lex_le_total(events[i].event_id@, events[j].event_id@);
    }
    assert forall|j: int| chosen(events, sel, w, j) implies j == i by {
        if j < i {
            assert(sorts_before(events, i, j));
            assert(!sorts_before(events, i, j));
        } else if i < j {
            assert(sorts_before(events, j, i));
            assert(!sorts_before(events, j, i));
        }
    }
}

/// Picks the exemplar for `sel` in `w` from the stored events.
#[verifier::rlimit(40)]
pub fn select(events: &Vec<Event>, sel: &Selector, w: &Window) -> (r: Result<Exemplar, String>)
    ensures
        selected(events@, *sel, *w, r),
{
    match sel {
        Selector::Template(t) => {
            if !has_template(events, t.as_str()) {
                let m = cat("unknown template_id '", t.as_str());
                return Err(cat(m.as_str(), "'"));
            }
        },
        Selector::Event(id) => {
            let i = match event_index(events, id.as_str()) {
                Some(i) => i,
                None => {
                    let m = cat("unknown event_id '", id.as_str());
                    return Err(cat(m.as_str(), "'"));
                },
            };
            let e = &events[i];
            let c = match &e.req_id {
                Some(r) => capture_index(events, r.as_str()),
                None => None,
            };
            match c {
                Some(c) => {
                    let req = match &e.req_id {
                        Some(r) => r.clone(),
                        None => String::new(),
                    };
                    return Ok(
                        Exemplar { req_id: req, capture_idx: c, matched_idx: i, matching: 1, with_capture: 1 },
                    );
                },
                None => {
                    let m = cat("event ", id.as_str());
                    let m = cat(m.as_str(), " (req_id ");
                    let m = cat(m.as_str(), debug_opt(&e.req_id).as_str());
                    return Err(cat(m.as_str(), ") has no captured request"));
                },
            }
        },
        _ => {},
    }
    let mut matching: usize = 0;
    let mut captured: usize = 0;
    let mut best: usize = 0;
    let mut best_capture: usize = 0;
    let mut i: usize = 0;
    while i < events.len()
        invariant
            i <= events.len(),
            !(sel is Event),
            matching == count_matching(events@, *sel, *w, i as int),
            captured == count_captured(events@, *sel, *w, i as int),
            matching <= i,
            captured <= i,
            captured > 0 ==> chosen_upto(events@, *sel, *w, best as int, i as int),
            captured > 0 ==> best_capture == capture_of(events@, events@[best as int].req_id->0@)->0,
            captured > 0 ==> events@[best as int].req_id is Some,
        decreases events.len() - i,
    {
        let e = &events[i];
        let elig = w.contains(e.ts) && !event_is_capture(e) && sel_hit_exec(sel, e);
        proof {
            assert(elig == eligible(events@, *sel, *w, i as int));
        }
        if elig {
            matching = matching + 1;
            let c = match &e.req_id {
                Some(r) => capture_index(events, r.as_str()),
                None => None,
            };
            proof {
                assert(c is Some == has_capture(events@, i as int));
            }
            match c {
                Some(c) => {
                    if captured == 0 || sorts_before_exec(events, i, best) {
                        proof {
                            if captured == 0 {
                                lemma_none_captured(events@, *sel, *w, i as int);
                            }
                            if captured > 0 {
                                assert forall|j: int|
                                    0 <= j < i + 1 && eligible(events@, *sel, *w, j) && has_capture(
                                        events@,
                                        j,
                                    ) implies !sorts_before(events@, j, i as int) by {
                                    if j < i && sorts_before(events@, j, i as int) {
                                        assert(!sorts_before(events@, j, best as int));
                                        lemma_sorts_before_strict(events@, j, i as int, best as int);
                                    }
                                }
                                assert forall|j: int|
                                    0 <= j < i && eligible(events@, *sel, *w, j) && has_capture(
                                        events@,
                                        j,
                                    ) implies sorts_before(events@, i as int, j) by {
                                    assert(!sorts_before(events@, j, best as int));
                                    lemma_sorts_before_transitive(events@, i as int, best as int, j);
                                }
                            }
                        }
                        best = i;
                        best_capture = c;
                    } else {
                        proof {
                            assert(!sorts_before(events@, i as int, best as int));
                            assert(chosen_upto(events@, *sel, *w, best as int, i + 1));
                        }
                    }
                    captured = captured + 1;
                },
                None => {},
            }
        }
        i = i + 1;
    }
    if captured == 0 {
        let label = sel.label();
        let m = cat("no captured request matches ", label.as_str());
        let m = cat(m.as_str(), " in the window ");
        let m = cat(m.as_str(), fmt_ts(w.from).as_str());
        let m = cat(m.as_str(), "..");
        let m = cat(m.as_str(), fmt_ts(w.to).as_str());
        let m = cat(m.as_str(), " (");
        let m = cat(m.as_str(), u64_decimal(matching as u64).as_str());
        let m = cat(m.as_str(), " matching event(s), none with a request capture)");
        let m = if matching == 0 {
            cat(m.as_str(), "; check the template_id, or pass the eid of the template item")
        } else {
            proof {
                reveal_strlit("");
                assert(m@ + ""@ =~= m@);
            }
            m
        };
        return Err(m);
    }
    let req_id = match &events[best].req_id {
        Some(r) => r.clone(),
        None => String::new(),
    };
    Ok(Exemplar { req_id, capture_idx: best_capture, matched_idx: best, matching, with_capture: captured })
}

} // verus!

verus! {

// ------------------------------------------------------------------ the chain

/// Event `i` is a line of request `r` other than its capture.
pub open spec fn in_chain(events: Seq<Event>, r: Seq<char>, i: int) -> bool {
    0 <= i < events.len() && opt_view(events[i].req_id) == Some(r) && !is_capture(events[i])
}

/// The request's path through the system: every non-capture event that
/// carries request id `r`, as positions in the store, oldest first by
/// (ts, event_id), ties in store order.
#[verifier::rlimit(40)]
pub fn chain(events: &Vec<Event>, r: &str) -> (out: Vec<usize>)
    ensures
        forall|a: int| 0 <= a < out.len() ==> in_chain(events@, r@, #[trigger] out@[a] as int),
        forall|i: int| in_chain(events@, r@, i) ==> out@.contains(i as usize),
        forall|a: int, b: int| 0 <= a < b < out.len() ==> out@[a] != out@[b],
        forall|a: int, b: int|
            0 <= a < b < out.len() ==> !sorts_before(events@, #[trigger] out@[b] as int, #[trigger] out@[a] as int),
        forall|a: int, b: int|
            0 <= a < b < out.len() && !sorts_before(events@, #[trigger] out@[a] as int, #[trigger] out@[b] as int)
                ==> out@[a] < out@[b],
{
    let mut out: Vec<usize> = Vec::new();
    let mut i: usize = 0;
    while i < events.len()
        invariant
            i <= events.len(),
            forall|a: int| 0 <= a < out.len() ==> in_chain(events@, r@, #[trigger] out@[a] as int),
            forall|a: int| 0 <= a < out.len() ==> #[trigger] out@[a] < i,
            forall|k: int| 0 <= k < i && in_chain(events@, r@, k) ==> out@.contains(k as usize),
            forall|a: int, b: int| 0 <= a < b < out.len() ==> out@[a] != out@[b],
            forall|a: int, b: int|
                0 <= a < b < out.len() ==> !sorts_before(events@, #[trigger] out@[b] as int, #[trigger] out@[a] as int),
            forall|a: int, b: int|
                0 <= a < b < out.len() && !sorts_before(events@, #[trigger] out@[a] as int, #[trigger] out@[b] as int)
                    ==> out@[a] < out@[b],
        decreases events.len() - i,
    {
        let e = &events[i];
        let hit = match &e.req_id {
            Some(x) => str_eq(x.as_str(), r) && !event_is_capture(e),
            None => false,
        };
        if hit {
            // Insert after every element that does not sort after event i.
            let mut p: usize = 0;
            while p < out.len() && !sorts_before_exec(events, i, out[p])
                invariant
                    p <= out.len(),
                    i < events.len(),
                    forall|a: int| 0 <= a < out.len() ==> #[trigger] out@[a] < i,
                    forall|a: int| 0 <= a < p ==> !sorts_before(events@, i as int, #[trigger] out@[a] as int),
                decreases out.len() - p,
            {
                p = p + 1;
            }
            let ghost old_out = out@;
            proof {
                // Everything from p on sorts after event i.
                assert forall|a: int| p <= a < old_out.len() implies sorts_before(events@, i as int, #[trigger] old_out[a] as int) by {
                    if a > p {
                        assert(!sorts_before(events@, old_out[a] as int, old_out[p as int] as int));
                        lemma_sorts_before_transitive(events@, i as int, old_out[p as int] as int, old_out[a] as int);
                    }
                }
            }
            out.insert(p, i);
            proof {
                assert(out@ =~= old_out.insert(p as int, i));
                assert forall|a: int, b: int|
                    0 <= a < b < out.len() implies !sorts_before(events@, #[trigger] out@[b] as int, #[trigger] out@[a] as int) by {
                    if a < p && b == p {
                        // old_out[a] does not sort after i ... i is not before old_out[a]
                        if sorts_before(events@, i as int, old_out[a] as int) {
                            assert(false);
                        }
                    } else if a == p && b > p {
                        let x = old_out[b - 1] as int;
                        assert(sorts_before(events@, i as int, x));
                        if sorts_before(events@, x, i as int) {
                            lemma_sorts_before_strict(events@, x, i as int, x);
                        }
                    } else if a < p && b > p {
                        assert(out@[a] == old_out[a] && out@[b] == old_out[b - 1]);
                    } else if b < p {
                        assert(out@[a] == old_out[a] && out@[b] == old_out[b]);
                    } else {
                        assert(out@[a] == old_out[a - 1] && out@[b] == old_out[b - 1]);
                    }
                }
                assert forall|a: int, b: int|
                    0 <= a < b < out.len() && !sorts_before(events@, #[trigger] out@[a] as int, #[trigger] out@[b] as int)
                        implies out@[a] < out@[b] by {
                    if a < p && b == p {
                        assert(old_out[a] < i);
                    } else if a == p && b > p {
                        assert(sorts_before(events@, i as int, old_out[b - 1] as int));
                    } else if a < p && b > p {
                        assert(out@[a] == old_out[a] && out@[b] == old_out[b - 1]);
                    } else if b < p {
                        assert(out@[a] == old_out[a] && out@[b] == old_out[b]);
                    } else {
                        assert(out@[a] == old_out[a - 1] && out@[b] == old_out[b - 1]);
                    }
                }
                assert forall|k: int| 0 <= k < i + 1 && in_chain(events@, r@, k) implies out@.contains(k as usize) by {
                    if k == i {
                        assert(out@[p as int] == i);
                    } else {
                        let a = choose|a: int| 0 <= a < old_out.len() && old_out[a] == k as usize;
                        if a < p {
                            assert(out@[a] == old_out[a]);
                        } else {
                            assert(out@[a + 1] == old_out[a]);
                        }
                    }
                }
                assert forall|a: int, b: int| 0 <= a < b < out.len() implies out@[a] != out@[b] by {
                    if a == p {
                        assert(out@[b] == old_out[b - 1]);
                    } else if b == p {
                        assert(out@[a] == old_out[a]);
                    }
                }
            }
        }
        i = i + 1;
    }
    out
}

} // verus!

verus! {

// ------------------------------------------------------------------ planning

/// Replays per version: the call's `n` (or the default), clamped to
/// `1..=max_n`.
pub fn replay_n(n: Option<usize>, default_n: usize, max_n: usize) -> (r: usize)
    requires
        max_n >= 1,
    ensures
        ({
            let x = match n {
                Some(v) => v,
                None => default_n,
            };
            r == if x < 1 {
                1
            } else if x > max_n {
                max_n
            } else {
                x
            }
        }),
{
    let x = match n {
        Some(v) => v,
        None => default_n,
    };
    if x < 1 {
        1
    } else if x > max_n {
        max_n
    } else {
        x
    }
}

/// An evidence id: `E` followed by one or more ASCII digits.
pub open spec fn eid_shaped(s: Seq<char>) -> bool {
    &&& s.len() > 1
    &&& s[0] == 'E'
    &&& forall|i: int| 1 <= i < s.len() ==> 48 <= (#[trigger] s[i] as u32) <= 57
}

pub fn is_eid(s: &str) -> (b: bool)
    ensures
        b == eid_shaped(s@),
{
    let cs = crate::text::chars_of(s);
    if cs.len() < 2 || cs[0] != 'E' {
        return false;
    }
    let mut i: usize = 1;
    while i < cs.len()
        invariant
            cs@ == s@,
            1 <= i <= cs.len(),
            forall|k: int| 1 <= k < i ==> 48 <= (#[trigger] cs@[k] as u32) <= 57,
        decreases cs.len() - i,
    {
        let u = cs[i] as u32;
        if u < 48 || u > 57 {
            return false;
        }
        i = i + 1;
    }
    true
}

/// The route a captured request is replayed along: the first configured
/// one from its path to the service.
pub open spec fn route_index(routes: Seq<ReplayRoute>, path: Seq<char>, service: Seq<char>, i: int) -> Option<int>
    decreases routes.len() - i,
{
    if i < 0 || i >= routes.len() {
        None
    } else if routes[i].captured_path@ == path && routes[i].service@ == service {
        Some(i)
    } else {
        route_index(routes, path, service, i + 1)
    }
}

/// Positions of the service's always-on version instances among the first
/// `n` configured services, in configuration order.
pub open spec fn always_on(services: Seq<ServiceCfg>, service: Seq<char>, n: int) -> Seq<int>
    decreases n,
{
    if n <= 0 || n > services.len() {
        Seq::empty()
    } else {
        let r = always_on(services, service, n - 1);
        if services[n - 1].service@ == service && services[n - 1].version is Some {
            r.push(n - 1)
        } else {
            r
        }
    }
}

/// The first of the instances (positions into `services`) at or after `i`
/// that runs version `v`.
pub open spec fn instance_for(services: Seq<ServiceCfg>, inst: Seq<int>, v: Seq<char>, i: int) -> Option<int>
    decreases inst.len() - i,
{
    if i < 0 || i >= inst.len() {
        None
    } else if opt_view(services[inst[i]].version) == Some(v) {
        Some(inst[i])
    } else {
        instance_for(services, inst, v, i + 1)
    }
}

proof fn lemma_instance_found(services: Seq<ServiceCfg>, inst: Seq<int>, v: Seq<char>, i: int, j: int)
    requires
        0 <= i <= j < inst.len(),
        opt_view(services[inst[j]].version) == Some(v),
    ensures
        instance_for(services, inst, v, i) is Some,
    decreases j - i,
{
    if i < j && opt_view(services[inst[i]].version) != Some(v) {
        lemma_instance_found(services, inst, v, i + 1, j);
    }
}

proof fn lemma_always_on_range(services: Seq<ServiceCfg>, service: Seq<char>, n: int)
    requires
        0 <= n <= services.len(),
    ensures
        forall|t: int| 0 <= t < always_on(services, service, n).len() ==> 0 <= #[trigger] always_on(services, service, n)[t] < n
            && services[always_on(services, service, n)[t]].version is Some,
    decreases n,
{
    if n > 0 {
        lemma_always_on_range(services, service, n - 1);
    }
}

fn runs_version(s: &ServiceCfg, v: &str) -> (b: bool)
    ensures
        b == (opt_view(s.version) == Some(v@)),
{
    match &s.version {
        Some(x) => str_eq(x.as_str(), v),
        None => false,
    }
}

/// How a configured route is listed: `captured → service path`.
pub open spec fn route_line(r: ReplayRoute) -> Seq<char> {
    r.captured_path@ + " → "@ + r.service@ + " "@ + r.path@
}

/// The configured routes, listed and separated by commas.
pub open spec fn route_listing(routes: Seq<ReplayRoute>) -> Seq<char> {
    join_seq(routes.map_values(|r: ReplayRoute| route_line(r)), ", "@)
}

/// The versions the always-on instances `on` run, in order.
pub open spec fn versions_on(services: Seq<ServiceCfg>, on: Seq<int>) -> Seq<Seq<char>> {
    on.map_values(|i: int| opt_view(services[i].version)->0)
}

/// Position of the first requested version, from `t` on, that no
/// always-on instance runs, or the number of versions.
pub open spec fn first_missing(services: Seq<ServiceCfg>, on: Seq<int>, versions: Seq<String>, t: int) -> int
    decreases versions.len() - t,
{
    if t < 0 || t >= versions.len() {
        versions.len() as int
    } else if instance_for(services, on, versions[t]@, 0) is None {
        t
    } else {
        first_missing(services, on, versions, t + 1)
    }
}

/// A plan: the route path of the first matching route, and for each
/// requested version (every always-on one when none is requested) the
/// version with the first always-on instance that runs it.
pub open spec fn planned(
    routes: Seq<ReplayRoute>,
    services: Seq<ServiceCfg>,
    path: Seq<char>,
    service: Seq<char>,
    versions: Seq<String>,
    p: (String, Vec<(String, String)>),
) -> bool {
    let inst = always_on(services, service, services.len() as int);
    &&& route_index(routes, path, service, 0) matches Some(rx) && p.0@ == routes[rx].path@
    &&& p.1.len() == (if versions.len() == 0 {
        inst.len()
    } else {
        versions.len() as nat
    })
    &&& forall|t: int|
        0 <= t < p.1.len() ==> {
            let v = if versions.len() == 0 {
                opt_view(services[inst[t]].version)->0
            } else {
                versions[t]@
            };
            &&& (#[trigger] p.1@[t]).0@ == v
            &&& instance_for(services, inst, v, 0) matches Some(kx) && p.1@[t].1@ == services[kx].name@
        }
}

/// The replay's route path and targets `(version, instance name)`, or why
/// there are none.
pub fn plan_targets(
    routes: &Vec<ReplayRoute>,
    services: &Vec<ServiceCfg>,
    path: &str,
    service: &str,
    versions: &Vec<String>,
) -> (r: Result<(String, Vec<(String, String)>), String>)
    ensures
        r is Ok <==> {
            let inst = always_on(services@, service@, services.len() as int);
            &&& route_index(routes@, path@, service@, 0) is Some
            &&& inst.len() > 0
            &&& forall|t: int| 0 <= t < versions.len() ==> #[trigger] instance_for(services@, inst, versions@[t]@, 0) is Some
        },
        route_index(routes@, path@, service@, 0) is None ==> (r matches Err(m) && m@ == "no replay route from captured path "@
            + path@ + " to service "@ + service@ + "; configured: "@ + route_listing(routes@)),
        route_index(routes@, path@, service@, 0) is Some && always_on(services@, service@, services.len() as int).len() == 0
            ==> (r matches Err(m) && m@ == service@ + " has no always-on version instances to replay against"@),
        ({
            let on = always_on(services@, service@, services.len() as int);
            let t = first_missing(services@, on, versions@, 0);
            route_index(routes@, path@, service@, 0) is Some && on.len() > 0 && t < versions.len() ==> (r matches Err(m) && m@
                == service@ + " has no always-on instance for version "@ + versions@[t]@ + "; have: "@ + join_seq(
                versions_on(services@, on),
                ", "@,
            ))
        }),
        match r {
            Ok(p) => planned(routes@, services@, path@, service@, versions@, p),
            Err(_) => true,
        },
{
    let mut ri: usize = 0;
    while ri < routes.len() && !(str_eq(routes[ri].captured_path.as_str(), path) && str_eq(routes[ri].service.as_str(), service))
        invariant
            ri <= routes.len(),
            route_index(routes@, path@, service@, ri as int) == route_index(routes@, path@, service@, 0),
        decreases routes.len() - ri,
    {
        ri = ri + 1;
    }
    if ri == routes.len() {
        let mut listing = String::new();
        let mut j: usize = 0;
        let ghost lines = routes@.map_values(|r: ReplayRoute| route_line(r));
        proof {
            assert(lines.take(0) =~= Seq::<Seq<char>>::empty());
        }
        while j < routes.len()
            invariant
                j <= routes.len(),
                lines == routes@.map_values(|r: ReplayRoute| route_line(r)),
                listing@ == join_seq(lines.take(j as int), ", "@),
            decreases routes.len() - j,
        {
            proof {
                lemma_join_push(lines.take(j as int), lines[j as int], ", "@);
                assert(lines.take(j + 1) =~= lines.take(j as int).push(lines[j as int]));
            }
            if j > 0 {
                listing = cat(listing.as_str(), ", ");
            }
            let r = &routes[j];
            listing = cat(listing.as_str(), r.captured_path.as_str());
            listing = cat(listing.as_str(), " → ");
            listing = cat(listing.as_str(), r.service.as_str());
            listing = cat(listing.as_str(), " ");
            listing = cat(listing.as_str(), r.path.as_str());
            proof {
                assert(listing@ =~= join_seq(lines.take(j + 1), ", "@));
            }
            j = j + 1;
        }
        proof {
            assert(lines.take(routes.len() as int) =~= lines);
        }
        let m = cat("no replay route from captured path ", path);
        let m = cat(m.as_str(), " to service ");
        let m = cat(m.as_str(), service);
        let m = cat(m.as_str(), "; configured: ");
        return Err(cat(m.as_str(), listing.as_str()));
    }
    let route_path = routes[ri].path.clone();
    proof {
        assert(route_index(routes@, path@, service@, ri as int) == Some(ri as int));
    }
    // The always-on instances, as positions.
    let mut inst: Vec<usize> = Vec::new();
    let mut si: usize = 0;
    while si < services.len()
        invariant
            si <= services.len(),
            inst@.len() == always_on(services@, service@, si as int).len(),
            forall|t: int| 0 <= t < inst.len() ==> #[trigger] inst@[t] as int == always_on(services@, service@, si as int)[t],
        decreases services.len() - si,
    {
        if str_eq(services[si].service.as_str(), service) && services[si].version.is_some() {
            inst.push(si);
        }
        si = si + 1;
    }
    let ghost on = always_on(services@, service@, services.len() as int);
    proof {
        lemma_always_on_range(services@, service@, services.len() as int);
    }
    if inst.len() == 0 {
        let m = cat(service, " has no always-on version instances to replay against");
        return Err(m);
    }
    let mut have = String::new();
    let mut hi: usize = 0;
    let ghost vo = versions_on(services@, on);
    proof {
        assert(vo.take(0) =~= Seq::<Seq<char>>::empty());
        assert forall|t: int| 0 <= t < on.len() implies 0 <= #[trigger] on[t] < services.len() && services@[on[t]].version is Some by {}
    }
    while hi < inst.len()
        invariant
            hi <= inst.len(),
            on == always_on(services@, service@, services.len() as int),
            vo == versions_on(services@, on),
            inst@.len() == on.len(),
            forall|t: int| 0 <= t < inst.len() ==> #[trigger] inst@[t] as int == on[t],
            forall|t: int| 0 <= t < on.len() ==> 0 <= #[trigger] on[t] < services.len() && services@[on[t]].version is Some,
            have@ == join_seq(vo.take(hi as int), ", "@),
        decreases inst.len() - hi,
    {
        proof {
            lemma_join_push(vo.take(hi as int), vo[hi as int], ", "@);
            assert(vo.take(hi + 1) =~= vo.take(hi as int).push(vo[hi as int]));
            assert(inst@[hi as int] as int == on[hi as int]);
        }
        match &services[inst[hi]].version {
            Some(v) => {
                if hi > 0 {
                    have = cat(have.as_str(), ", ");
                }
                have = cat(have.as_str(), v.as_str());
                proof {
                    assert(have@ =~= join_seq(vo.take(hi + 1), ", "@));
                }
            },
            None => {},
        }
        hi = hi + 1;
    }
    proof {
        assert(vo.take(inst.len() as int) =~= vo);
    }
    let mut wanted: Vec<String> = Vec::new();
    proof {
        assert forall|t: int| 0 <= t < on.len() implies 0 <= #[trigger] on[t] < services.len() && services@[on[t]].version is Some by {}
    }
    if versions.len() == 0 {
        let mut k: usize = 0;
        while k < inst.len()
            invariant
                k <= inst.len(),
                on == always_on(services@, service@, services.len() as int),
                inst@.len() == on.len(),
                forall|t: int| 0 <= t < inst.len() ==> #[trigger] inst@[t] as int == on[t],
                forall|t: int| 0 <= t < on.len() ==> 0 <= #[trigger] on[t] < services.len() && services@[on[t]].version is Some,
                wanted.len() == k,
                forall|t: int| 0 <= t < k ==> #[trigger] wanted@[t]@ == opt_view(services@[on[t]].version)->0,
            decreases inst.len() - k,
        {
            match &services[inst[k]].version {
                Some(v) => wanted.push(v.clone()),
                None => wanted.push(String::new()),
            }
            k = k + 1;
        }
    } else {
        let mut k: usize = 0;
        while k < versions.len()
            invariant
                k <= versions.len(),
                wanted.len() == k,
                forall|t: int| 0 <= t < k ==> #[trigger] wanted@[t]@ == versions@[t]@,
            decreases versions.len() - k,
        {
            wanted.push(versions[k].clone());
            k = k + 1;
        }
    }
    let mut targets: Vec<(String, String)> = Vec::new();
    let mut t: usize = 0;
    while t < wanted.len()
        invariant
            t <= wanted.len(),
            on == always_on(services@, service@, services.len() as int),
            inst.len() > 0,
            inst@.len() == on.len(),
            forall|x: int| 0 <= x < inst.len() ==> #[trigger] inst@[x] as int == on[x],
            forall|x: int| 0 <= x < on.len() ==> 0 <= #[trigger] on[x] < services.len(),
            targets.len() == t,
            versions.len() == 0 ==> wanted.len() == on.len() && forall|x: int| 0 <= x < wanted.len() ==> #[trigger] wanted@[x]@ == opt_view(services@[on[x]].version)->0
                && services@[on[x]].version is Some,
            versions.len() > 0 ==> wanted.len() == versions.len() && forall|x: int| 0 <= x < wanted.len() ==> #[trigger] wanted@[x]@ == versions@[x]@,
            forall|x: int| 0 <= x < t ==> #[trigger] instance_for(services@, on, wanted@[x]@, 0) is Some,
            versions.len() > 0 ==> first_missing(services@, on, versions@, 0) == first_missing(services@, on, versions@, t as int),
            route_index(routes@, path@, service@, 0) is Some,
            have@ == join_seq(versions_on(services@, on), ", "@),
            forall|x: int|
                0 <= x < t ==> {
                    &&& (#[trigger] targets@[x]).0@ == wanted@[x]@
                    &&& instance_for(services@, on, wanted@[x]@, 0) matches Some(k) && targets@[x].1@ == services@[k].name@
                },
        decreases wanted.len() - t,
    {
        let v = &wanted[t];
        let mut k: usize = 0;
        while k < inst.len() && !runs_version(&services[inst[k]], v.as_str())
            invariant
                k <= inst.len(),
                on == always_on(services@, service@, services.len() as int),
                inst@.len() == on.len(),
                forall|x: int| 0 <= x < inst.len() ==> #[trigger] inst@[x] as int == on[x],
                forall|x: int| 0 <= x < on.len() ==> 0 <= #[trigger] on[x] < services.len(),
                instance_for(services@, on, v@, k as int) == instance_for(services@, on, v@, 0),
            decreases inst.len() - k,
        {
            k = k + 1;
        }
        if k == inst.len() {
            proof {
                if versions.len() == 0 {
                    lemma_instance_found(services@, on, v@, 0, t as int);
                }
                assert(on.len() > 0);
                assert(instance_for(services@, on, v@, 0) is None);
                assert(v@ == versions@[t as int]@);
                assert(!(instance_for(services@, on, versions@[t as int]@, 0) is Some));
                assert(on == always_on(services@, service@, services.len() as int));
                assert(always_on(services@, service@, services.len() as int).len() > 0);
                assert(!(forall|x: int| 0 <= x < versions.len() ==> #[trigger] instance_for(services@, always_on(services@, service@, services.len() as int), versions@[x]@, 0) is Some));
            }
            proof {
                assert(first_missing(services@, on, versions@, t as int) == t);
            }
            let m = cat(service, " has no always-on instance for version ");
            let m = cat(m.as_str(), v.as_str());
            let m = cat(m.as_str(), "; have: ");
            return Err(cat(m.as_str(), have.as_str()));
        }
        proof {
            if versions.len() > 0 {
                assert(instance_for(services@, on, versions@[t as int]@, 0) is Some);
                assert(first_missing(services@, on, versions@, t as int) == first_missing(services@, on, versions@, t + 1));
            }
        }
        targets.push((v.clone(), services[inst[k]].name.clone()));
        t = t + 1;
    }
    proof {
        assert forall|x: int| 0 <= x < versions.len() implies #[trigger] instance_for(services@, on, versions@[x]@, 0) is Some by {
            assert(wanted@[x]@ == versions@[x]@);
        }
        assert(route_index(routes@, path@, service@, 0) == Some(ri as int));
        assert(route_path@ == routes@[ri as int].path@);
        assert(targets.len() == (if versions.len() == 0 { on.len() } else { versions.len() as nat }));
        assert forall|x: int| 0 <= x < targets.len() implies {
            let v = if versions.len() == 0 {
                opt_view(services@[on[x]].version)->0
            } else {
                versions@[x]@
            };
            &&& (#[trigger] targets@[x]).0@ == v
            &&& instance_for(services@, on, v, 0) matches Some(k) && targets@[x].1@ == services@[k].name@
        } by {
            assert(targets@[x].0@ == wanted@[x]@);
        }
    }
    let res = (route_path, targets);
    proof {
        assert(planned(routes@, services@, path@, service@, versions@, res));
    }
    Ok(res)
}

} // verus!

verus! {

// ------------------------------------------------------------------ where the request went

/// Position of the first element of `chain` from `from` on whose event
/// answered 5xx.
pub open spec fn first_5xx_from(events: Seq<Event>, chain: Seq<usize>, from: int) -> Option<int>
    decreases chain.len() - from,
{
    if from < 0 || from >= chain.len() {
        None
    } else if events[chain[from] as int].status matches Some(s) && s >= 500 {
        Some(from)
    } else {
        first_5xx_from(events, chain, from + 1)
    }
}

/// Position of the first element of `chain` from `from` on logged by
/// `instance` on `route`.
pub open spec fn edge_from(events: Seq<Event>, chain: Seq<usize>, instance: Seq<char>, route: Seq<char>, from: int) -> Option<int>
    decreases chain.len() - from,
{
    if from < 0 || from >= chain.len() {
        None
    } else if events[chain[from] as int].instance@ == instance && opt_view(events[chain[from] as int].route)
        == Some(route) {
        Some(from)
    } else {
        edge_from(events, chain, instance, route, from + 1)
    }
}

/// Where a failing request first answered 5xx along its chain (the chain
/// is oldest first): the origin of the failure.
pub fn chain_origin(events: &Vec<Event>, chain: &Vec<usize>) -> (r: Option<usize>)
    requires
        forall|k: int| 0 <= k < chain.len() ==> #[trigger] chain@[k] < events.len(),
    ensures
        opt_int(r) == first_5xx_from(events@, chain@, 0),
{
    let mut k: usize = chain.len();
    let mut found: Option<usize> = None;
    while k > 0
        invariant
            k <= chain.len(),
            forall|j: int| 0 <= j < chain.len() ==> #[trigger] chain@[j] < events.len(),
            opt_int(found) == first_5xx_from(events@, chain@, k as int),
        decreases k,
    {
        k = k - 1;
        let st = events[chain[k]].status;
        match st {
            Some(s) => {
                if s >= 500 {
                    found = Some(k);
                }
            },
            None => {},
        }
    }
    found
}

/// Where the captured request entered: the first chain event logged by the
/// capturing instance on the captured path.
pub fn chain_edge(events: &Vec<Event>, chain: &Vec<usize>, instance: &str, path: &str) -> (r: Option<usize>)
    requires
        forall|k: int| 0 <= k < chain.len() ==> #[trigger] chain@[k] < events.len(),
    ensures
        opt_int(r) == edge_from(events@, chain@, instance@, path@, 0),
{
    let mut k: usize = chain.len();
    let mut found: Option<usize> = None;
    while k > 0
        invariant
            k <= chain.len(),
            forall|j: int| 0 <= j < chain.len() ==> #[trigger] chain@[j] < events.len(),
            opt_int(found) == edge_from(events@, chain@, instance@, path@, k as int),
        decreases k,
    {
        k = k - 1;
        let e = &events[chain[k]];
        let hit = str_eq(e.instance.as_str(), instance) && match &e.route {
            Some(rt) => str_eq(rt.as_str(), path),
            None => false,
        };
        if hit {
            found = Some(k);
        }
    }
    found
}

} // verus!

verus! {

// ------------------------------------------------------------------ evidence records

/// What the selection logic reads of an evidence record an agent cites.
#[derive(Clone, Debug)]
pub struct EvidenceRef {
    /// The record's `kind`.
    pub kind: Option<String>,
    /// An exemplar record's `req_id`.
    pub req_id: Option<String>,
    /// An exemplar record's `matched.event_id`.
    pub matched_event_id: Option<String>,
    /// An exemplar record's `matched.template_id`.
    pub matched_template_id: Option<String>,
    /// The record's `template_id`.
    pub template_id: Option<String>,
    /// The record's `bundle_ref`.
    pub bundle_ref: Option<String>,
    /// The record's `exemplar_event_ids` (its string entries, in order).
    pub exemplar_event_ids: Vec<String>,
}

/// The template an evidence record is about: its `template_id`, else a
/// `bundle_ref` that names a template (starts with `T`).
pub open spec fn template_of(rec: EvidenceRef) -> Option<Seq<char>> {
    match rec.template_id {
        Some(t) => Some(t@),
        None => match rec.bundle_ref {
            Some(b) => if b@.len() > 0 && b@[0] == 'T' {
                Some(b@)
            } else {
                None
            },
            None => None,
        },
    }
}

pub fn template_of_record(rec: &EvidenceRef) -> (r: Option<String>)
    ensures
        opt_view(r) == template_of(*rec),
{
    match &rec.template_id {
        Some(t) => Some(t.clone()),
        None => match &rec.bundle_ref {
            Some(b) => {
                let cs = crate::text::chars_of(b.as_str());
                if cs.len() > 0 && cs[0] == 'T' {
                    Some(b.clone())
                } else {
                    None
                }
            },
            None => None,
        },
    }
}

/// Event id `id` names a stored event whose request was captured.
pub open spec fn id_captured(events: Seq<Event>, id: Seq<char>) -> bool {
    event_of(events, id) matches Some(i) && events[i].req_id matches Some(r) && capture_of(events, r@) is Some
}

/// Position of the first of `ids` from `k` on that `id_captured`.
pub open spec fn cited_from(events: Seq<Event>, ids: Seq<Seq<char>>, k: int) -> Option<int>
    decreases ids.len() - k,
{
    if k < 0 || k >= ids.len() {
        None
    } else if id_captured(events, ids[k]) {
        Some(k)
    } else {
        cited_from(events, ids, k + 1)
    }
}

/// The exemplar a template record already cites: the first of its
/// exemplar event ids whose request was captured.
pub fn cited_exemplar(events: &Vec<Event>, rec: &EvidenceRef) -> (r: Option<String>)
    ensures
        match cited_from(events@, views(rec.exemplar_event_ids@), 0) {
            Some(k) => r matches Some(s) && s@ == views(rec.exemplar_event_ids@)[k],
            None => r is None,
        },
{
    let ids = &rec.exemplar_event_ids;
    let ghost v = views(ids@);
    let mut k: usize = ids.len();
    let mut found: Option<usize> = None;
    while k > 0
        invariant
            k <= ids.len(),
            v == views(ids@),
            match found {
                Some(j) => j < ids.len() && cited_from(events@, v, k as int) == Some(j as int),
                None => cited_from(events@, v, k as int) is None,
            },
        decreases k,
    {
        k = k - 1;
        proof {
            assert(v[k as int] == ids@[k as int]@);
        }
        let hit = match event_index(events, ids[k].as_str()) {
            Some(i) => match &events[i].req_id {
                Some(r) => capture_index(events, r.as_str()).is_some(),
                None => false,
            },
            None => false,
        };
        if hit {
            found = Some(k);
        }
    }
    match found {
        Some(j) => {
            proof {
                assert(v[j as int] == ids@[j as int]@);
            }
            Some(ids[j].clone())
        },
        None => None,
    }
}

/// `s` selects the event `id`.
pub open spec fn is_event_sel(s: Selector, id: Seq<char>) -> bool {
    s matches Selector::Event(e) && e@ == id
}

/// `s` selects template `t`.
pub open spec fn is_template_sel(s: Selector, t: Seq<char>) -> bool {
    s matches Selector::Template(x) && x@ == t
}

/// `r` is the refusal `m`.
pub open spec fn refused<T>(r: Result<T, String>, m: Seq<char>) -> bool {
    r matches Err(e) && e@ == m
}

/// The record is an exemplar record naming its matched event.
pub open spec fn exemplar_record(rec: EvidenceRef) -> bool {
    rec.kind matches Some(k) && k@ == "exemplar_request"@ && rec.matched_event_id is Some
}

/// `r` is the selector `get_exemplar_request` resolves its arguments to:
/// an event id first, then a template id, then an evidence id (`rec` is
/// the record it names, when there is one: an exemplar record selects its
/// matched event; a template record the exemplar it cites, else its
/// template), then route and status.
pub open spec fn selector_ok(events: Seq<Event>, a: ExemplarArgs, rec: Option<EvidenceRef>, r: Result<Selector, String>) -> bool {
    if a.event_id is Some {
        r matches Ok(s) && is_event_sel(s, a.event_id->0@)
    } else if a.template_id is Some {
        r matches Ok(s) && is_template_sel(s, a.template_id->0@)
    } else if a.eid is Some {
        let eid = a.eid->0@;
        match rec {
            None => refused(r, "unknown evidence id '"@ + eid + "' in this investigation"@),
            Some(x) => if exemplar_record(x) {
                r matches Ok(s) && is_event_sel(s, x.matched_event_id->0@)
            } else {
                match template_of(x) {
                    None => refused(
                        r,
                        "evidence "@ + eid + " is not a template item (kind "@ + (match x.kind {
                            Some(k) => k@,
                            None => "?"@,
                        }) + ")"@,
                    ),
                    Some(t) => match cited_from(events, views(x.exemplar_event_ids@), 0) {
                        Some(k) => r matches Ok(s) && is_event_sel(s, views(x.exemplar_event_ids@)[k]),
                        None => r matches Ok(s) && is_template_sel(s, t),
                    },
                }
            }
        }
    } else if a.route is Some && a.status is Some {
        if a.status->0 <= u16::MAX {
            r matches Ok(s) && s matches Selector::RouteStatus(rt, st) && rt@ == a.route->0@ && st as int
                == a.status->0 as int
        } else {
            refused(r, "status out of range"@)
        }
    } else {
        refused(r, "pass template_id, or eid, or route + status, or event_id"@)
    }
}

/// Resolves `get_exemplar_request`'s arguments to a selector. `rec` is the
/// evidence record `a.eid` names in this investigation, if any.
pub fn resolve_selector(events: &Vec<Event>, a: &ExemplarArgs, rec: Option<&EvidenceRef>) -> (r: Result<Selector, String>)
    ensures
        selector_ok(
            events@,
            *a,
            match rec {
                Some(x) => Some(*x),
                None => None,
            },
            r,
        ),
{
    if let Some(id) = &a.event_id {
        return Ok(Selector::Event(id.clone()));
    }
    if let Some(t) = &a.template_id {
        return Ok(Selector::Template(t.clone()));
    }
    if let Some(eid) = &a.eid {
        let x = match rec {
            Some(x) => x,
            None => {
                let m0 = cat("unknown evidence id '", eid.as_str());
                return Err(cat(m0.as_str(), "' in this investigation"));
            },
        };
        let is_ex = match &x.kind {
            Some(k) => str_eq(k.as_str(), "exemplar_request") && x.matched_event_id.is_some(),
            None => false,
        };
        if is_ex {
            match &x.matched_event_id {
                Some(id) => {
                    return Ok(Selector::Event(id.clone()));
                },
                None => {},
            }
        }
        let t = match template_of_record(x) {
            Some(t) => t,
            None => {
                let kind: &str = match &x.kind {
                    Some(k) => k.as_str(),
                    None => "?",
                };
                let m0 = cat("evidence ", eid.as_str());
                let m1 = cat(m0.as_str(), " is not a template item (kind ");
                let m2 = cat(m1.as_str(), kind);
                return Err(cat(m2.as_str(), ")"));
            },
        };
        return match cited_exemplar(events, x) {
            Some(id) => Ok(Selector::Event(id)),
            None => Ok(Selector::Template(t)),
        };
    }
    match (&a.route, a.status) {
        (Some(rt), Some(st)) => {
            if st <= 65535 {
                Ok(Selector::RouteStatus(rt.clone(), st as u16))
            } else {
                Err("status out of range".to_owned())
            }
        },
        _ => Err("pass template_id, or eid, or route + status, or event_id".to_owned()),
    }
}

} // verus!

verus! {

// ------------------------------------------------------------------ a replay's exemplar

/// Where a replay's exemplar came from, and its captured request.
#[derive(Clone, Debug)]
pub struct ResolvedExemplar {
    pub req_id: String,
    pub template_id: Option<String>,
    pub matched_event_id: Option<String>,
    pub exemplar_eid: Option<String>,
    /// Position of the request's capture.
    pub capture_idx: usize,
}

/// `r` holds request `req` and its capture, or says it has none.
pub open spec fn captured_as(events: Seq<Event>, req: Seq<char>, r: Result<ResolvedExemplar, String>) -> bool {
    match capture_of(events, req) {
        None => refused(r, "no captured request for req_id "@ + req),
        Some(c) => r matches Ok(x) && x.req_id@ == req && x.capture_idx == c,
    }
}

/// `r` follows a selection's outcome `sr`: its refusal, or its request
/// with the matched event named.
pub open spec fn via_select(events: Seq<Event>, sr: Result<Exemplar, String>, r: Result<ResolvedExemplar, String>) -> bool {
    match sr {
        Err(m) => refused(r, m@),
        Ok(x) => captured_as(events, x.req_id@, r) && (r matches Ok(y) ==> opt_view(y.matched_event_id) == Some(
            events[x.matched_idx as int].event_id@,
        )),
    }
}

/// `r` is `r` refused, or one whose template and evidence id are these.
pub open spec fn labelled(r: Result<ResolvedExemplar, String>, template: Option<Seq<char>>, eid: Option<Seq<char>>) -> bool {
    r matches Ok(y) ==> opt_view(y.template_id) == template && opt_view(y.exemplar_eid) == eid
}

/// How `replay_exemplar` resolves its exemplar, four ways: an evidence id
/// (`rec` is the record it names, when there is one) of an exemplar record
/// or of a template item; a known template id; a captured request id.
/// Template selections look in window `w`.
pub open spec fn exemplar_ok(events: Seq<Event>, ex: Seq<char>, rec: Option<EvidenceRef>, w: Window, r: Result<ResolvedExemplar, String>) -> bool {
    if eid_shaped(ex) {
        match rec {
            None => refused(r, "unknown evidence id '"@ + ex + "' in this investigation"@),
            Some(x) => if x.kind matches Some(k) && k@ == "exemplar_request"@ {
                let req = match x.req_id {
                    Some(q) => q@,
                    None => Seq::empty(),
                };
                &&& captured_as(events, req, r)
                &&& labelled(r, opt_view(x.matched_template_id), Some(ex))
                &&& r matches Ok(y) ==> opt_view(y.matched_event_id) == opt_view(x.matched_event_id)
            } else {
                match template_of(x) {
                    None => refused(r, "evidence "@ + ex + " is neither an exemplar request nor a template item"@),
                    Some(t) => exists|sel: Selector, sr: Result<Exemplar, String>|
                        {
                            &&& #[trigger] selected(events, sel, w, sr)
                            &&& match cited_from(events, views(x.exemplar_event_ids@), 0) {
                                Some(k) => is_event_sel(sel, views(x.exemplar_event_ids@)[k]),
                                None => is_template_sel(sel, t),
                            }
                            &&& via_select(events, sr, r)
                            &&& labelled(r, Some(t), Some(ex))
                        },
                }
            },
        }
    } else if template_known(events, ex) {
        exists|sel: Selector, sr: Result<Exemplar, String>|
            {
                &&& #[trigger] selected(events, sel, w, sr)
                &&& is_template_sel(sel, ex)
                &&& via_select(events, sr, r)
                &&& labelled(r, Some(ex), None)
            }
    } else if capture_of(events, ex) is Some {
        captured_as(events, ex, r) && labelled(r, None, None) && (r matches Ok(y) ==> y.matched_event_id is None)
    } else {
        refused(r, "'"@ + ex + "' is not an evidence id, a known template_id, or a captured req_id"@)
    }
}

fn capture_for(events: &Vec<Event>, req: String, template_id: Option<String>, matched_event_id: Option<String>, exemplar_eid: Option<String>) -> (r: Result<ResolvedExemplar, String>)
    ensures
        captured_as(events@, req@, r),
        r matches Ok(y) ==> opt_view(y.template_id) == opt_view(template_id) && opt_view(y.exemplar_eid)
            == opt_view(exemplar_eid) && opt_view(y.matched_event_id) == opt_view(matched_event_id),
{
    match capture_index(events, req.as_str()) {
        Some(c) => Ok(ResolvedExemplar { req_id: req, template_id, matched_event_id, exemplar_eid, capture_idx: c }),
        None => Err(cat("no captured request for req_id ", req.as_str())),
    }
}

fn after_select(events: &Vec<Event>, sr: Result<Exemplar, String>, template_id: Option<String>, exemplar_eid: Option<String>) -> (r: Result<ResolvedExemplar, String>)
    requires
        sr matches Ok(x) ==> x.matched_idx < events.len(),
    ensures
        via_select(events@, sr, r),
        labelled(r, opt_view(template_id), opt_view(exemplar_eid)),
{
    match sr {
        Err(m) => Err(m),
        Ok(x) => {
            let ev = events[x.matched_idx].event_id.clone();
            capture_for(events, x.req_id, template_id, Some(ev), exemplar_eid)
        },
    }
}

/// Resolves a replay's exemplar. `rec` is the evidence record `exemplar`
/// names in this investigation, if any; template selections look in `w`.
pub fn resolve_exemplar(events: &Vec<Event>, exemplar: &str, rec: Option<&EvidenceRef>, w: &Window) -> (r: Result<ResolvedExemplar, String>)
    ensures
        exemplar_ok(
            events@,
            exemplar@,
            match rec {
                Some(x) => Some(*x),
                None => None,
            },
            *w,
            r,
        ),
{
    if is_eid(exemplar) {
        let x = match rec {
            Some(x) => x,
            None => {
                let m0 = cat("unknown evidence id '", exemplar);
                return Err(cat(m0.as_str(), "' in this investigation"));
            },
        };
        let is_ex = match &x.kind {
            Some(k) => str_eq(k.as_str(), "exemplar_request"),
            None => false,
        };
        if is_ex {
            let req = match &x.req_id {
                Some(q) => q.clone(),
                None => String::new(),
            };
            return capture_for(
                events,
                req,
                crate::deployer::clone_opt(&x.matched_template_id),
                crate::deployer::clone_opt(&x.matched_event_id),
                Some(exemplar.to_owned()),
            );
        }
        let t = match template_of_record(x) {
            Some(t) => t,
            None => {
                let m0 = cat("evidence ", exemplar);
                return Err(cat(m0.as_str(), " is neither an exemplar request nor a template item"));
            },
        };
        let sel = match cited_exemplar(events, x) {
            Some(id) => Selector::Event(id),
            None => Selector::Template(t.clone()),
        };
        let sr = select(events, &sel, w);
        proof {
            lemma_selected_index(events@, sel, *w, sr);
        }
        let r = after_select(events, sr, Some(t), Some(exemplar.to_owned()));
        return r;
    }
    if has_template(events, exemplar) {
        let sel = Selector::Template(exemplar.to_owned());
        let sr = select(events, &sel, w);
        proof {
            lemma_selected_index(events@, sel, *w, sr);
        }
        return after_select(events, sr, Some(exemplar.to_owned()), None);
    }
    if capture_index(events, exemplar).is_some() {
        return capture_for(events, exemplar.to_owned(), None, None, None);
    }
    let m0 = cat("'", exemplar);
    Err(cat(m0.as_str(), "' is not an evidence id, a known template_id, or a captured req_id"))
}

proof fn lemma_event_below_bound(events: Seq<Event>, id: Seq<char>, n: int)
    ensures
        event_below(events, id, n) matches Some(i) ==> 0 <= i < n,
    decreases n,
{
    if n > 0 && n <= events.len() && events[n - 1].event_id@ != id {
        lemma_event_below_bound(events, id, n - 1);
    }
}

/// A selection's matched event is a stored one.
proof fn lemma_selected_index(events: Seq<Event>, sel: Selector, w: Window, sr: Result<Exemplar, String>)
    requires
        selected(events, sel, w, sr),
    ensures
        sr matches Ok(x) ==> x.matched_idx < events.len(),
{
    if let Ok(x) = sr {
        if let Selector::Event(id) = sel {
            lemma_event_below_bound(events, id@, events.len() as int);
        } else {
            if sel matches Selector::Template(t) && !template_known(events, t@) {
            } else {
                assert(chosen(events, sel, w, x.matched_idx as int));
            }
        }
    }
}

} // verus!

verus! {

/// The captured request, sanitized: method (default `POST`), path
/// (default `/`), the headers as `sanitize_headers` keeps and drops them,
/// and the body as `sanitize_body` leaves it. `headers` are the capture's
/// header names and values (non-string values written as JSON); `body_doc`
/// is the body parsed as JSON, when it parses.
pub fn captured_request(
    method: Option<String>,
    path: Option<String>,
    headers: &Vec<(String, String)>,
    body: &str,
    body_doc: Option<&JsonDoc>,
    body_cap: usize,
) -> (c: CapturedRequest)
    requires
        body_doc matches Some(d) ==> doc_wf(d.nodes@),
    ensures
        c.method@ == (match method {
            Some(m) => m@,
            None => "POST"@,
        }),
        c.path@ == (match path {
            Some(p) => p@,
            None => "/"@,
        }),
        ({
            let (kept, dropped) = sanitize_headers_result(headers@, c.headers@, c.headers_dropped@);
            kept && dropped
        }),
        ({
            let (text, reds) = body_out(
                body@,
                match body_doc {
                    Some(d) => Some(d.nodes@),
                    None => None,
                },
            );
            &&& c.body.text@ == capped(text, body_cap as nat)
            &&& c.body.bytes == encode_utf8(text).len() as usize
            &&& c.body.truncated == (encode_utf8(text).len() as usize > body_cap)
            &&& views(c.body.redactions@) == reds
        }),
{
    let (kept, dropped) = sanitize_headers(headers);
    CapturedRequest {
        method: match method {
            Some(m) => m,
            None => "POST".to_owned(),
        },
        path: match path {
            Some(p) => p,
            None => "/".to_owned(),
        },
        headers: kept,
        headers_dropped: dropped,
        body: sanitize_body(body, body_doc, body_cap),
    }
}

/// The relation `sanitize_headers` states between its input and output.
pub open spec fn sanitize_headers_result(
    headers: Seq<(String, String)>,
    kept: Seq<(String, String)>,
    dropped: Seq<String>,
) -> (bool, bool) {
    (
        strictly_sorted_views(names(header_views(kept))) && forall|n: Seq<char>|
            #[trigger] lookup(header_views(kept), n) == if kept_headers(header_views(headers)).contains_key(n) {
                Some(kept_headers(header_views(headers))[n])
            } else {
                None
            },
        sorted_views(views(dropped)) && views(dropped).to_multiset() == dropped_headers(
            header_views(headers),
        ).to_multiset(),
    )
}

} // verus!

verus! {

/// The versions of `service`'s instances among the first `n` configured,
/// in configuration order.
pub open spec fn versions_of(services: Seq<ServiceCfg>, service: Seq<char>, n: int) -> Seq<Seq<char>>
    decreases n,
{
    if n <= 0 || n > services.len() {
        Seq::empty()
    } else {
        let r = versions_of(services, service, n - 1);
        if services[n - 1].service@ == service && services[n - 1].version is Some {
            r.push(services[n - 1].version->0@)
        } else {
            r
        }
    }
}

/// Where a captured request can be replayed.
#[derive(Clone, Debug)]
pub struct ReplayHint {
    /// Position of the replay route.
    pub route: usize,
    /// The versions always on for the route's service.
    pub versions: Vec<String>,
}

/// The routes whose captured path is `path`, in configuration order,
/// each with the versions always on for its service. Empty: the request
/// cannot be replayed.
pub fn replay_hint(routes: &Vec<ReplayRoute>, services: &Vec<ServiceCfg>, path: &str) -> (r: Vec<ReplayHint>)
    ensures
        r.len() == indices_where(routes.len() as nat, |i: int| routes@[i].captured_path@ == path@).len(),
        forall|k: int|
            0 <= k < r.len() ==> {
                &&& (#[trigger] r@[k]).route as int == indices_where(
                    routes.len() as nat,
                    |i: int| routes@[i].captured_path@ == path@,
                )[k]
                &&& views(r@[k].versions@) == versions_of(
                    services@,
                    routes@[r@[k].route as int].service@,
                    services.len() as int,
                )
            },
{
    let ghost p = |i: int| routes@[i].captured_path@ == path@;
    let mut out: Vec<ReplayHint> = Vec::new();
    let mut i: usize = 0;
    while i < routes.len()
        invariant
            i <= routes.len(),
            p == (|i: int| routes@[i].captured_path@ == path@),
            out.len() == indices_where(i as nat, p).len(),
            forall|k: int|
                0 <= k < out.len() ==> {
                    &&& (#[trigger] out@[k]).route as int == indices_where(i as nat, p)[k]
                    &&& views(out@[k].versions@) == versions_of(
                        services@,
                        routes@[out@[k].route as int].service@,
                        services.len() as int,
                    )
                },
        decreases routes.len() - i,
    {
        if str_eq(routes[i].captured_path.as_str(), path) {
            let vs = versions_for(services, routes[i].service.as_str());
            let ghost before = out@;
            out.push(ReplayHint { route: i, versions: vs });
            proof {
                assert forall|k: int|
                    0 <= k < out.len() implies {
                        &&& (#[trigger] out@[k]).route as int == indices_where((i + 1) as nat, p)[k]
                        &&& views(out@[k].versions@) == versions_of(
                            services@,
                            routes@[out@[k].route as int].service@,
                            services.len() as int,
                        )
                    } by {
                    if k < before.len() {
                        assert(out@[k] == before[k]);
                    }
                }
            }
        }
        i = i + 1;
    }
    out
}

fn versions_for(services: &Vec<ServiceCfg>, service: &str) -> (r: Vec<String>)
    ensures
        views(r@) == versions_of(services@, service@, services.len() as int),
{
    let mut out: Vec<String> = Vec::new();
    let mut n: usize = 0;
    while n < services.len()
        invariant
            n <= services.len(),
            views(out@) == versions_of(services@, service@, n as int),
        decreases services.len() - n,
    {
        let s = &services[n];
        if str_eq(s.service.as_str(), service) {
            match &s.version {
                Some(v) => {
                    let ghost before = out@;
                    out.push(v.clone());
                    proof {
                        assert(views(out@) =~= views(before).push(v@));
                    }
                },
                None => {},
            }
        }
        n = n + 1;
    }
    out
}

} // verus!

verus! {

/// The stored events of the first (up to) three of `ids`, in order,
/// skipping ids no stored event has.
pub open spec fn exemplar_events(events: Seq<Event>, ids: Seq<Seq<char>>, k: int) -> Seq<int>
    decreases k,
{
    if k <= 0 || k > ids.len() {
        Seq::empty()
    } else {
        let r = exemplar_events(events, ids, k - 1);
        match event_of(events, ids[k - 1]) {
            Some(i) => r.push(i),
            None => r,
        }
    }
}

/// The exemplars `get_evidence` shows with a record: the events of its
/// first three exemplar event ids that are stored.
pub fn evidence_exemplars(events: &Vec<Event>, ids: &Vec<String>) -> (r: Vec<usize>)
    ensures
        ints(r@) == exemplar_events(events@, views(ids@), if ids.len() < 3 {
            ids.len() as int
        } else {
            3
        }),
{
    let n = if ids.len() < 3 {
        ids.len()
    } else {
        3
    };
    let mut out: Vec<usize> = Vec::new();
    let mut k: usize = 0;
    proof {
        assert(ints(out@) =~= Seq::<int>::empty());
    }
    while k < n
        invariant
            k <= n,
            n <= ids.len(),
            ints(out@) == exemplar_events(events@, views(ids@), k as int),
        decreases n - k,
    {
        proof {
            assert(views(ids@)[k as int] == ids@[k as int]@);
        }
        match event_index(events, ids[k].as_str()) {
            Some(i) => {
                proof {
                    assert(ints(out@.push(i)) =~= ints(out@).push(i as int));
                }
                out.push(i);
            },
            None => {},
        }
        k = k + 1;
    }
    out
}

} // verus!
