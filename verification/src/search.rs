//! What a query hits among the stored events, and how hits gather by
//! template: the counting behind `search_logs` and `novel_templates`.
//! Scoring the groups is arithmetic on fractions and is left to the program
//! around the library.

use vstd::prelude::*;
use crate::deployer::opt_view;
use crate::events::{Event, Window};
use crate::sanitize::{contains_text, str_contains};
use crate::text::{str_eq, str_le, views, lex_le, lemma_lex_le_total, lemma_lex_le_transitive, lemma_lex_le_reflexive, lemma_lex_le_antisymmetric};
use crate::tools::{severity_of, severity_rank, in_scope, in_scope_exec, lowercased, to_lower, to_upper, uppercased, terms_of, tokenize, SearchArgs, WindowArg, resolved, resolve, resolve_at, opt_arg, outcome_at};
use crate::time::now_micros;
use crate::config::Bounds;
use crate::store::Store;
use crate::events::{is_log_key, max_log, lemma_max_log};

verus! {

// ------------------------------------------------------------------ index sets

/// The indices below `n` where `p` holds, ascending.
pub open spec fn indices_where(n: nat, p: spec_fn(int) -> bool) -> Seq<int>
    decreases n,
{
    if n == 0 {
        Seq::empty()
    } else {
        let r = indices_where((n - 1) as nat, p);
        if p(n - 1) {
            r.push(n - 1)
        } else {
            r
        }
    }
}

proof fn lemma_indices_hold(n: nat, p: spec_fn(int) -> bool)
    ensures
        forall|k: int| 0 <= k < indices_where(n, p).len() ==> #[trigger] p(indices_where(n, p)[k]),
    decreases n,
{
    if n > 0 {
        lemma_indices_hold((n - 1) as nat, p);
        let r = indices_where((n - 1) as nat, p);
        assert forall|k: int| 0 <= k < indices_where(n, p).len() implies #[trigger] p(indices_where(n, p)[k]) by {
            if k < r.len() {
                assert(indices_where(n, p)[k] == r[k]);
            }
        }
    }
}

proof fn lemma_indices_complete(n: nat, p: spec_fn(int) -> bool, i: int)
    requires
        0 <= i < n,
        p(i),
    ensures
        indices_where(n, p).contains(i),
    decreases n,
{
    let r = indices_where((n - 1) as nat, p);
    if i < n - 1 {
        lemma_indices_complete((n - 1) as nat, p, i);
        let k = choose|k: int| 0 <= k < r.len() && r[k] == i;
        assert(indices_where(n, p)[k] == i);
    } else {
        assert(indices_where(n, p)[r.len() as int] == i);
    }
}

/// A list of indices as integers.
pub open spec fn ints(s: Seq<usize>) -> Seq<int> {
    s.map_values(|x: usize| x as int)
}

proof fn lemma_ints_push(s: Seq<usize>, x: usize)
    ensures
        ints(s.push(x)) == ints(s).push(x as int),
{
    assert(ints(s.push(x)) =~= ints(s).push(x as int));
}

pub proof fn lemma_indices_below(n: nat, p: spec_fn(int) -> bool)
    ensures
        forall|k: int| 0 <= k < indices_where(n, p).len() ==> 0 <= #[trigger] indices_where(n, p)[k] < n,
    decreases n,
{
    if n > 0 {
        let r = indices_where((n - 1) as nat, p);
        lemma_indices_below((n - 1) as nat, p);
        assert forall|k: int| 0 <= k < indices_where(n, p).len() implies 0 <= #[trigger] indices_where(
            n,
            p,
        )[k] < n by {
            if k < r.len() {
                assert(indices_where(n, p)[k] == r[k]);
            }
        }
    }
}

// ------------------------------------------------------------------ hits

/// Some term occurs in the (lowercased) message.
pub open spec fn mentions(msg_lc: Seq<char>, terms: Seq<Seq<char>>) -> bool {
    exists|k: int| 0 <= k < terms.len() && contains_text(msg_lc, #[trigger] terms[k])
}

/// A search hit: inside the window, in scope, at the level asked for (if
/// any), and mentioning one of the terms, case-insensitively.
pub open spec fn search_hit(
    e: Event,
    w: Window,
    services: Seq<Seq<char>>,
    level: Option<Seq<char>>,
    terms: Seq<Seq<char>>,
) -> bool {
    &&& w.from <= e.ts <= w.to
    &&& in_scope(services, e)
    &&& (level matches Some(l) ==> l == e.level@)
    &&& mentions(lowercased(e.msg@), terms)
}

pub open spec fn hit_at(
    events: Seq<Event>,
    w: Window,
    services: Seq<Seq<char>>,
    level: Option<Seq<char>>,
    terms: Seq<Seq<char>>,
) -> spec_fn(int) -> bool {
    |i: int| search_hit(events[i], w, services, level, terms)
}

fn mentions_exec(msg_lc: &str, terms: &Vec<String>) -> (b: bool)
    ensures
        b == mentions(msg_lc@, views(terms@)),
{
    let mut k: usize = 0;
    while k < terms.len()
        invariant
            k <= terms.len(),
            forall|j: int| 0 <= j < k ==> !contains_text(msg_lc@, #[trigger] views(terms@)[j]),
        decreases terms.len() - k,
    {
        proof {
            assert(views(terms@)[k as int] == terms@[k as int]@);
        }
        if str_contains(msg_lc, terms[k].as_str()) {
            return true;
        }
        k = k + 1;
    }
    false
}

/// The indices of the events a search hits, in store order. `level` is
/// compared as given (callers uppercase it first).
pub fn search_hits(
    events: &Vec<Event>,
    w: Window,
    services: &Vec<String>,
    level: &Option<String>,
    terms: &Vec<String>,
) -> (r: Vec<usize>)
    ensures
        ints(r@) == indices_where(
            events.len() as nat,
            hit_at(events@, w, views(services@), opt_view(*level), views(terms@)),
        ),
{
    let ghost p = hit_at(events@, w, views(services@), opt_view(*level), views(terms@));
    let mut out: Vec<usize> = Vec::new();
    let mut i: usize = 0;
    proof {
        assert(ints(out@) =~= Seq::<int>::empty());
    }
    while i < events.len()
        invariant
            i <= events.len(),
            p == hit_at(events@, w, views(services@), opt_view(*level), views(terms@)),
            ints(out@) == indices_where(i as nat, p),
        decreases events.len() - i,
    {
        let e = &events[i];
        let mut hit = w.contains(e.ts) && in_scope_exec(services, e);
        if hit {
            hit = match level {
                Some(l) => str_eq(l.as_str(), e.level.as_str()),
                None => true,
            };
        }
        if hit {
            let lc = to_lower(e.msg.as_str());
            hit = mentions_exec(lc.as_str(), terms);
        }
        proof {
            assert(hit == p(i as int));
        }
        if hit {
            proof {
                lemma_ints_push(out@, i);
            }
            out.push(i);
        }
        i = i + 1;
    }
    out
}

// ------------------------------------------------------------------ grouping

/// The hits of one template, in hit order.
#[derive(Clone, Debug)]
pub struct TemplateGroup {
    pub template_id: String,
    pub members: Vec<usize>,
}

/// The templates of the hits, each once, in order of first hit.
pub open spec fn group_keys(events: Seq<Event>, h: Seq<int>) -> Seq<Seq<char>>
    decreases h.len(),
{
    if h.len() == 0 {
        Seq::empty()
    } else {
        let p = group_keys(events, h.drop_last());
        let k = events[h.last()].template_id@;
        if p.contains(k) {
            p
        } else {
            p.push(k)
        }
    }
}

/// The hits whose template is `k`, in hit order.
pub open spec fn members_of(events: Seq<Event>, h: Seq<int>, k: Seq<char>) -> Seq<int>
    decreases h.len(),
{
    if h.len() == 0 {
        Seq::empty()
    } else {
        let p = members_of(events, h.drop_last(), k);
        if events[h.last()].template_id@ == k {
            p.push(h.last())
        } else {
            p
        }
    }
}

/// `g` is the hits `h` gathered by template: one group per template, in
/// order of first hit, each holding that template's hits in order.
pub open spec fn grouped(events: Seq<Event>, h: Seq<int>, g: Seq<TemplateGroup>) -> bool {
    &&& g.len() == group_keys(events, h).len()
    &&& forall|j: int|
        0 <= j < g.len() ==> {
            &&& (#[trigger] g[j]).template_id@ == group_keys(events, h)[j]
            &&& ints(g[j].members@) == members_of(events, h, group_keys(events, h)[j])
        }
}

proof fn lemma_keys_distinct(events: Seq<Event>, h: Seq<int>)
    ensures
        group_keys(events, h).no_duplicates(),
    decreases h.len(),
{
    if h.len() > 0 {
        lemma_keys_distinct(events, h.drop_last());
    }
}

proof fn lemma_members_absent(events: Seq<Event>, h: Seq<int>, k: Seq<char>)
    requires
        !group_keys(events, h).contains(k),
    ensures
        members_of(events, h, k) == Seq::<int>::empty(),
    decreases h.len(),
{
    if h.len() > 0 {
        let p = group_keys(events, h.drop_last());
        if p.contains(k) {
            assert(group_keys(events, h) == p || group_keys(events, h) == p.push(events[h.last()].template_id@));
            let i = choose|i: int| 0 <= i < p.len() && p[i] == k;
            assert(group_keys(events, h)[i] == k);
        }
        lemma_members_absent(events, h.drop_last(), k);
        if events[h.last()].template_id@ == k {
            assert(p.contains(k) || p.push(k)[p.len() as int] == k);
        }
    }
}

/// Gathers hits by template.
pub fn group_by_template(events: &Vec<Event>, hits: &Vec<usize>) -> (r: Vec<TemplateGroup>)
    requires
        forall|k: int| 0 <= k < hits.len() ==> #[trigger] hits@[k] < events.len(),
    ensures
        grouped(events@, ints(hits@), r@),
{
    let ghost h = ints(hits@);
    let mut groups: Vec<TemplateGroup> = Vec::new();
    let mut j: usize = 0;
    proof {
        assert(h.take(0) =~= Seq::<int>::empty());
    }
    while j < hits.len()
        invariant
            j <= hits.len(),
            h == ints(hits@),
            forall|k: int| 0 <= k < hits.len() ==> #[trigger] hits@[k] < events.len(),
            grouped(events@, h.take(j as int), groups@),
        decreases hits.len() - j,
    {
        let x = hits[j];
        let ghost h0 = h.take(j as int);
        let ghost h1 = h.take(j + 1);
        let ghost k0 = group_keys(events@, h0);
        let tid = &events[x].template_id;
        proof {
            assert(h1.drop_last() =~= h0);
            assert(h1.last() == x as int);
            lemma_keys_distinct(events@, h0);
        }
        let mut g: usize = 0;
        while g < groups.len() && !str_eq(groups[g].template_id.as_str(), tid.as_str())
            invariant
                g <= groups.len(),
                forall|a: int| 0 <= a < g ==> (#[trigger] groups@[a]).template_id@ != tid@,
            decreases groups.len() - g,
        {
            g = g + 1;
        }
        if g < groups.len() {
            let ghost before = groups@;
            let mut grp = groups.remove(g);
            grp.members.push(x);
            groups.insert(g, grp);
            proof {
                assert(k0[g as int] == tid@);
                assert(k0.contains(tid@));
                assert(group_keys(events@, h1) == k0);
                assert forall|a: int| 0 <= a < groups.len() implies {
                    &&& (#[trigger] groups@[a]).template_id@ == group_keys(events@, h1)[a]
                    &&& ints(groups@[a].members@) == members_of(events@, h1, group_keys(events@, h1)[a])
                } by {
                    if a == g {
                        lemma_ints_push(before[a].members@, x);
                    } else {
                        assert(groups@[a] == before[a]);
                        assert(k0[a] != k0[g as int]);
                    }
                }
            }
        } else {
            let mut m: Vec<usize> = Vec::new();
            m.push(x);
            let ng = TemplateGroup { template_id: tid.clone(), members: m };
            let ghost before = groups@;
            groups.push(ng);
            proof {
                assert(!k0.contains(tid@)) by {
                    if k0.contains(tid@) {
                        let a = choose|a: int| 0 <= a < k0.len() && k0[a] == tid@;
                        assert(before[a].template_id@ == tid@);
                    }
                }
                assert(group_keys(events@, h1) == k0.push(tid@));
                lemma_members_absent(events@, h0, tid@);
                assert(ints(ng.members@) =~= seq![x as int]);
                assert(members_of(events@, h1, tid@) =~= seq![x as int]);
                assert forall|a: int| 0 <= a < groups.len() implies {
                    &&& (#[trigger] groups@[a]).template_id@ == group_keys(events@, h1)[a]
                    &&& ints(groups@[a].members@) == members_of(events@, h1, group_keys(events@, h1)[a])
                } by {
                    if a < before.len() {
                        assert(groups@[a] == before[a]);
                        assert(k0[a] != tid@);
                    }
                }
            }
        }
        j = j + 1;
    }
    proof {
        assert(h.take(hits.len() as int) =~= h);
    }
    groups
}

} // verus!

verus! {

// ------------------------------------------------------------------ per-group facts

proof fn lemma_members_present(events: Seq<Event>, h: Seq<int>, k: Seq<char>)
    requires
        group_keys(events, h).contains(k),
    ensures
        members_of(events, h, k).len() > 0,
    decreases h.len(),
{
    if h.len() > 0 {
        let p = group_keys(events, h.drop_last());
        if p.contains(k) {
            lemma_members_present(events, h.drop_last(), k);
        } else {
            let i = choose|i: int| 0 <= i < group_keys(events, h).len() && group_keys(events, h)[i] == k;
            assert(group_keys(events, h) == p.push(events[h.last()].template_id@));
            if i < p.len() {
                assert(p[i] == k);
            }
        }
    }
}

proof fn lemma_members_below(events: Seq<Event>, h: Seq<int>, k: Seq<char>, n: int)
    requires
        forall|a: int| 0 <= a < h.len() ==> 0 <= #[trigger] h[a] < n,
    ensures
        forall|a: int| 0 <= a < members_of(events, h, k).len() ==> 0 <= #[trigger] members_of(events, h, k)[a] < n,
    decreases h.len(),
{
    if h.len() > 0 {
        let p = members_of(events, h.drop_last(), k);
        lemma_members_below(events, h.drop_last(), k, n);
        assert forall|a: int| 0 <= a < members_of(events, h, k).len() implies 0
            <= #[trigger] members_of(events, h, k)[a] < n by {
            if a < p.len() {
                assert(members_of(events, h, k)[a] == p[a]);
            } else {
                assert(h[h.len() - 1] == h.last());
            }
        }
    }
}

/// `lo` and `hi` are the earliest and latest timestamps among the events at `m`.
pub open spec fn is_span(events: Seq<Event>, m: Seq<int>, lo: i64, hi: i64) -> bool {
    &&& forall|k: int| 0 <= k < m.len() ==> lo <= (#[trigger] events[m[k]]).ts <= hi
    &&& exists|k: int| 0 <= k < m.len() && (#[trigger] events[m[k]]).ts == lo
    &&& exists|k: int| 0 <= k < m.len() && (#[trigger] events[m[k]]).ts == hi
}

/// Earliest and latest timestamps among the events at `m`.
pub fn ts_span(events: &Vec<Event>, m: &Vec<usize>) -> (r: (i64, i64))
    requires
        m.len() > 0,
        forall|k: int| 0 <= k < m.len() ==> #[trigger] m@[k] < events.len(),
    ensures
        is_span(events@, ints(m@), r.0, r.1),
{
    let ghost mi = ints(m@);
    let mut lo = events[m[0]].ts;
    let mut hi = lo;
    let mut k: usize = 1;
    proof {
        assert(mi[0] == m@[0] as int);
    }
    while k < m.len()
        invariant
            1 <= k <= m.len(),
            mi == ints(m@),
            forall|a: int| 0 <= a < m.len() ==> #[trigger] m@[a] < events.len(),
            forall|a: int| 0 <= a < k ==> lo <= (#[trigger] events@[mi[a]]).ts <= hi,
            exists|a: int| 0 <= a < k && (#[trigger] events@[mi[a]]).ts == lo,
            exists|a: int| 0 <= a < k && (#[trigger] events@[mi[a]]).ts == hi,
        decreases m.len() - k,
    {
        let t = events[m[k]].ts;
        proof {
            assert(mi[k as int] == m@[k as int] as int);
            assert(events@[mi[k as int]].ts == t);
        }
        if t < lo {
            lo = t;
        }
        if t > hi {
            hi = t;
        }
        k = k + 1;
    }
    (lo, hi)
}

/// Some event at `m` mentions `q` in its lowercased message.
pub open spec fn any_mentions(events: Seq<Event>, m: Seq<int>, q: Seq<char>) -> bool {
    exists|k: int| 0 <= k < m.len() && contains_text(lowercased((#[trigger] events[m[k]]).msg@), q)
}

fn any_mentions_exec(events: &Vec<Event>, m: &Vec<usize>, q: &str) -> (b: bool)
    requires
        forall|k: int| 0 <= k < m.len() ==> #[trigger] m@[k] < events.len(),
    ensures
        b == any_mentions(events@, ints(m@), q@),
{
    let ghost mi = ints(m@);
    let mut k: usize = 0;
    while k < m.len()
        invariant
            k <= m.len(),
            mi == ints(m@),
            forall|a: int| 0 <= a < m.len() ==> #[trigger] m@[a] < events.len(),
            forall|a: int| 0 <= a < k ==> !contains_text(lowercased((#[trigger] events@[mi[a]]).msg@), q@),
        decreases m.len() - k,
    {
        proof {
            assert(mi[k as int] == m@[k as int] as int);
        }
        let lc = to_lower(events[m[k]].msg.as_str());
        if str_contains(lc.as_str(), q) {
            return true;
        }
        k = k + 1;
    }
    false
}

/// The first (up to) three of `m`.
pub open spec fn first_three(m: Seq<int>) -> Seq<int> {
    if m.len() <= 3 {
        m
    } else {
        m.take(3)
    }
}

fn first_three_exec(m: &Vec<usize>) -> (r: Vec<usize>)
    ensures
        ints(r@) == first_three(ints(m@)),
{
    let mut r: Vec<usize> = Vec::new();
    let mut k: usize = 0;
    while k < m.len() && k < 3
        invariant
            k <= m.len(),
            k <= 3,
            ints(r@) == ints(m@).take(k as int),
        decreases m.len() - k,
    {
        proof {
            lemma_ints_push(r@, m@[k as int]);
            assert(ints(m@).take(k + 1) =~= ints(m@).take(k as int).push(m@[k as int] as int));
        }
        r.push(m[k]);
        k = k + 1;
    }
    proof {
        if m.len() <= 3 {
            assert(ints(m@).take(m.len() as int) =~= ints(m@));
        }
    }
    r
}

} // verus!

verus! {

// ------------------------------------------------------------------ search_logs

/// `x` clamped into `[lo, hi]`.
pub open spec fn clamped(x: int, lo: int, hi: int) -> int {
    if x < lo {
        lo
    } else if x > hi {
        hi
    } else {
        x
    }
}

/// `limit.unwrap_or(default).clamp(1, max)`.
pub fn clamp_limit(limit: Option<usize>, default: usize, max: usize) -> (r: usize)
    requires
        max >= 1,
    ensures
        r == clamped(
            match limit {
                Some(l) => l as int,
                None => default as int,
            },
            1,
            max as int,
        ),
{
    let x = match limit {
        Some(l) => l,
        None => default,
    };
    if x < 1 {
        1
    } else if x > max {
        max
    } else {
        x
    }
}

/// The level filter as compared: uppercased.
pub open spec fn upper_level(level: Option<String>) -> Option<Seq<char>> {
    match level {
        Some(l) => Some(uppercased(l@)),
        None => None,
    }
}

/// The message a query without terms is refused with.
pub open spec fn no_terms_text() -> Seq<char> {
    "query has no searchable terms"@
}

/// One template's hits, summarized.
#[derive(Debug)]
pub struct SearchGroup {
    pub template_id: String,
    /// Every hit of the template, in store order.
    pub members: Vec<usize>,
    /// The first three hits.
    pub examples: Vec<usize>,
    pub first: i64,
    pub last: i64,
    /// Some hit's message holds the whole query, case-insensitively.
    pub phrase: bool,
}

/// What a search found, before scoring.
#[derive(Debug)]
pub struct SearchResult {
    pub window: Window,
    pub limit: usize,
    pub terms: Vec<String>,
    pub hits: Vec<usize>,
    pub groups: Vec<SearchGroup>,
}

/// `s` summarizes the hits `m` of template `key` against the lowercased query `q`.
pub open spec fn summarizes(events: Seq<Event>, m: Seq<int>, key: Seq<char>, q: Seq<char>, s: SearchGroup) -> bool {
    &&& s.template_id@ == key
    &&& ints(s.members@) == m
    &&& ints(s.examples@) == first_three(m)
    &&& is_span(events, m, s.first, s.last)
    &&& s.phrase == any_mentions(events, m, q)
}

fn copy_indices(m: &Vec<usize>) -> (r: Vec<usize>)
    ensures
        r@ == m@,
{
    let mut r: Vec<usize> = Vec::new();
    let mut k: usize = 0;
    while k < m.len()
        invariant
            k <= m.len(),
            r@ == m@.take(k as int),
        decreases m.len() - k,
    {
        proof {
            assert(m@.take(k + 1) =~= m@.take(k as int).push(m@[k as int]));
        }
        r.push(m[k]);
        k = k + 1;
    }
    proof {
        assert(m@.take(m.len() as int) =~= m@);
    }
    r
}

fn summarize(events: &Vec<Event>, g: &TemplateGroup, q: &str) -> (s: SearchGroup)
    requires
        g.members.len() > 0,
        forall|k: int| 0 <= k < g.members.len() ==> #[trigger] g.members@[k] < events.len(),
    ensures
        summarizes(events@, ints(g.members@), g.template_id@, q@, s),
{
    let (first, last) = ts_span(events, &g.members);
    SearchGroup {
        template_id: g.template_id.clone(),
        members: copy_indices(&g.members),
        examples: first_three_exec(&g.members),
        first,
        last,
        phrase: any_mentions_exec(events, &g.members, q),
    }
}

/// The hits of a search in window `w`, in store order.
pub open spec fn hit_list(events: Seq<Event>, w: Window, a: SearchArgs) -> Seq<int> {
    indices_where(
        events.len() as nat,
        hit_at(events, w, views(a.services@), upper_level(a.level), terms_of(a.query@)),
    )
}

/// Every hit of a search is a stored event inside the window, at the level
/// asked for (uppercased) when one is given, whose message mentions a term
/// of the query.
pub proof fn law_search_keeps_to_window_and_level(events: Seq<Event>, w: Window, a: SearchArgs)
    ensures
        forall|k: int|
            0 <= k < hit_list(events, w, a).len() ==> {
                let i = #[trigger] hit_list(events, w, a)[k];
                &&& 0 <= i < events.len()
                &&& w.from <= events[i].ts <= w.to
                &&& (a.level matches Some(l) ==> events[i].level@ == uppercased(l@))
                &&& exists|t: int|
                    0 <= t < terms_of(a.query@).len() && contains_text(
                        lowercased(events[i].msg@),
                        #[trigger] terms_of(a.query@)[t],
                    )
            },
{
    let p = hit_at(events, w, views(a.services@), upper_level(a.level), terms_of(a.query@));
    lemma_indices_hold(events.len() as nat, p);
    lemma_indices_below(events.len() as nat, p);
    let h = hit_list(events, w, a);
    assert forall|k: int| 0 <= k < h.len() implies {
        let i = #[trigger] h[k];
        &&& 0 <= i < events.len()
        &&& w.from <= events[i].ts <= w.to
        &&& (a.level matches Some(l) ==> events[i].level@ == uppercased(l@))
        &&& exists|t: int|
            0 <= t < terms_of(a.query@).len() && contains_text(
                lowercased(events[i].msg@),
                #[trigger] terms_of(a.query@)[t],
            )
    } by {
        assert(h == indices_where(events.len() as nat, p));
        assert(p(h[k]));
        assert(search_hit(events[h[k]], w, views(a.services@), upper_level(a.level), terms_of(a.query@)));
    }
}

/// Every stored event inside the window, in scope, at the level asked for
/// (uppercased) when one is given, whose lowercased message contains a
/// term of the query, is a hit.
pub proof fn law_search_misses_nothing(events: Seq<Event>, w: Window, a: SearchArgs, i: int)
    requires
        0 <= i < events.len(),
        w.from <= events[i].ts <= w.to,
        in_scope(views(a.services@), events[i]),
        a.level matches Some(l) ==> events[i].level@ == uppercased(l@),
        exists|t: int|
            0 <= t < terms_of(a.query@).len() && contains_text(
                lowercased(events[i].msg@),
                #[trigger] terms_of(a.query@)[t],
            ),
    ensures
        hit_list(events, w, a).contains(i),
{
    let p = hit_at(events, w, views(a.services@), upper_level(a.level), terms_of(a.query@));
    assert(p(i));
    lemma_indices_complete(events.len() as nat, p, i);
}

/// `s` is the search `a` over `events` in window `w`: every hit, and the
/// hits gathered by template, each group summarized.
pub open spec fn search_found(events: Seq<Event>, w: Window, limit: usize, a: SearchArgs, s: SearchResult) -> bool {
    let h = hit_list(events, w, a);
    let keys = group_keys(events, h);
    &&& s.window == w
    &&& s.limit == limit
    &&& views(s.terms@) == terms_of(a.query@)
    &&& ints(s.hits@) == h
    &&& s.groups.len() == keys.len()
    &&& forall|j: int|
        0 <= j < s.groups.len() ==> summarizes(
            events,
            members_of(events, h, keys[j]),
            keys[j],
            lowercased(a.query@),
            #[trigger] s.groups@[j],
        )
}

/// Runs a search over `events` in the resolved window `w`. Refused when the
/// query has no searchable terms.
pub fn search_in(events: &Vec<Event>, w: Window, limit: usize, a: &SearchArgs) -> (r: Result<SearchResult, String>)
    ensures
        terms_of(a.query@).len() == 0 ==> (r matches Err(m) && m@ == no_terms_text()),
        terms_of(a.query@).len() > 0 ==> (r matches Ok(s) && search_found(events@, w, limit, *a, s)),
        r matches Ok(s) ==> forall|k: int|
            0 <= k < s.hits.len() ==> #[trigger] s.hits@[k] < events.len() && w.from <= events@[s.hits@[k] as int].ts
                <= w.to && (a.level matches Some(l) ==> events@[s.hits@[k] as int].level@ == uppercased(l@)),
{
    let terms = tokenize(a.query.as_str());
    if terms.len() == 0 {
        return Err("query has no searchable terms".to_owned());
    }
    let level: Option<String> = match &a.level {
        Some(l) => Some(to_upper(l.as_str())),
        None => None,
    };
    proof {
        assert(opt_view(level) == upper_level(a.level));
    }
    let hits = search_hits(events, w, &a.services, &level, &terms);
    let ghost h = ints(hits@);
    let ghost p = hit_at(events@, w, views(a.services@), upper_level(a.level), terms_of(a.query@));
    proof {
        assert(h == hit_list(events@, w, *a));
        lemma_indices_below(events.len() as nat, p);
        assert forall|k: int| 0 <= k < hits.len() implies #[trigger] hits@[k] < events.len() by {
            assert(h[k] == hits@[k] as int);
        }
    }
    let groups = group_by_template(events, &hits);
    let ghost keys = group_keys(events@, h);
    let q = to_lower(a.query.as_str());
    let mut out: Vec<SearchGroup> = Vec::new();
    let mut j: usize = 0;
    while j < groups.len()
        invariant
            j <= groups.len(),
            h == ints(hits@),
            h == hit_list(events@, w, *a),
            keys == group_keys(events@, h),
            grouped(events@, h, groups@),
            q@ == lowercased(a.query@),
            forall|k: int| 0 <= k < h.len() ==> 0 <= #[trigger] h[k] < events.len(),
            out.len() == j,
            forall|i: int|
                0 <= i < j ==> summarizes(
                    events@,
                    members_of(events@, h, keys[i]),
                    keys[i],
                    lowercased(a.query@),
                    #[trigger] out@[i],
                ),
        decreases groups.len() - j,
    {
        let g = &groups[j];
        proof {
            assert(groups@[j as int] == *g);
            assert(keys[j as int] == g.template_id@);
            assert(keys.contains(g.template_id@));
            lemma_members_present(events@, h, keys[j as int]);
            lemma_members_below(events@, h, keys[j as int], events.len() as int);
            assert forall|k: int| 0 <= k < g.members.len() implies #[trigger] g.members@[k] < events.len() by {
                assert(ints(g.members@)[k] == g.members@[k] as int);
            }
        }
        let s = summarize(events, g, q.as_str());
        let ghost before = out@;
        out.push(s);
        proof {
            assert forall|i: int|
                0 <= i < j + 1 implies summarizes(
                    events@,
                    members_of(events@, h, keys[i]),
                    keys[i],
                    lowercased(a.query@),
                    #[trigger] out@[i],
                ) by {
                if i < j {
                    assert(out@[i] == before[i]);
                }
            }
        }
        j = j + 1;
    }
    proof {
        law_search_keeps_to_window_and_level(events@, w, *a);
        assert forall|k: int| 0 <= k < hits.len() implies #[trigger] hits@[k] < events.len() && w.from
            <= events@[hits@[k] as int].ts <= w.to && (a.level matches Some(l) ==> events@[hits@[k] as int].level@
            == uppercased(l@)) by {
            assert(h[k] == hits@[k] as int);
        }
    }
    Ok(SearchResult { window: w, limit, terms, hits, groups: out })
}

} // verus!

verus! {

/// The window argument, when either end was given.
pub open spec fn window_given(w: WindowArg) -> Option<WindowArg> {
    if w.from is None && w.to is None {
        None
    } else {
        Some(w)
    }
}

/// Some source of the watermarks is a log file.
pub open spec fn has_log(e: Seq<(String, i64)>) -> bool {
    exists|a: int| 0 <= a < e.len() && is_log_key(#[trigger] e[a].0@)
}

/// `r` is `search_logs` at `watermark`: the window refused as resolving
/// refuses it, else the search in the resolved window.
pub open spec fn search_outcome(
    events: Seq<Event>,
    watermark: i64,
    lookback_secs: i64,
    limit: usize,
    a: SearchArgs,
    r: Result<SearchResult, String>,
) -> bool {
    match resolved(watermark, lookback_secs, window_given(a.window)) {
        Err(m) => r matches Err(e) && e@ == m,
        Ok((f, t)) => {
            let w = Window { from: f as i64, to: t as i64 };
            if terms_of(a.query@).len() == 0 {
                r matches Err(e) && e@ == no_terms_text()
            } else {
                r matches Ok(s) && search_found(events, w, limit, a, s)
            }
        },
    }
}

/// The limit a search uses: the one asked for, else the default item
/// bound, clamped into `[1, search_limit_max]`.
pub open spec fn search_limit(bounds: Bounds, a: SearchArgs) -> usize {
    clamped(
        match a.limit {
            Some(l) => l as int,
            None => bounds.max_items as int,
        },
        1,
        bounds.search_limit_max as int,
    ) as usize
}

/// Full-text search over the stored log events, grouped by template. The
/// window resolves against the newest log watermark (or the clock, when no
/// log has been read).
pub fn search_logs(store: &Store, lookback_secs: i64, bounds: &Bounds, a: &SearchArgs) -> (r: Result<
    SearchResult,
    String,
>)
    requires
        bounds.search_limit_max >= 1,
    ensures
        has_log(store.watermarks.entries@) ==> search_outcome(
            store.events@,
            max_log(store.watermarks.entries@) as i64,
            lookback_secs,
            search_limit(*bounds, *a),
            *a,
            r,
        ),
        !has_log(store.watermarks.entries@) ==> exists|clock: i64|
            search_outcome(store.events@, clock, lookback_secs, search_limit(*bounds, *a), *a, r),
{
    let newest = store.watermarks.newest_log_ts();
    proof {
        if let Some(t) = newest {
            lemma_max_log(store.watermarks.entries@, t);
        }
    }
    let given = a.window.given();
    proof {
        assert(opt_arg(given) == window_given(a.window));
    }
    let rw = resolve(newest, lookback_secs, given);
    let ghost wm: i64 = match newest {
        Some(t) => t,
        None => choose|c: i64| #[trigger] outcome_at(c, lookback_secs, opt_arg(given), rw),
    };
    proof {
        assert(outcome_at(wm, lookback_secs, window_given(a.window), rw));
    }
    let w = match rw {
        Ok(w) => w,
        Err(m) => {
            let r: Result<SearchResult, String> = Err(m);
            proof {
                assert(search_outcome(store.events@, wm, lookback_secs, search_limit(*bounds, *a), *a, r));
            }
            return r;
        },
    };
    let limit = clamp_limit(a.limit, bounds.max_items, bounds.search_limit_max);
    assert(limit == search_limit(*bounds, *a));
    let r = search_in(&store.events, w, limit, a);
    proof {
        assert(search_outcome(store.events@, wm, lookback_secs, limit, *a, r));
    }
    r
}

} // verus!

verus! {

// ------------------------------------------------------------------ novel_templates

/// The indices of `m` whose event falls in `w`, in order.
pub open spec fn within(events: Seq<Event>, m: Seq<int>, w: Window) -> Seq<int>
    decreases m.len(),
{
    if m.len() == 0 {
        Seq::empty()
    } else {
        let p = within(events, m.drop_last(), w);
        if w.from <= events[m.last()].ts <= w.to {
            p.push(m.last())
        } else {
            p
        }
    }
}

proof fn lemma_within_sub(events: Seq<Event>, m: Seq<int>, w: Window)
    ensures
        forall|a: int| 0 <= a < within(events, m, w).len() ==> m.contains(#[trigger] within(events, m, w)[a]),
    decreases m.len(),
{
    if m.len() > 0 {
        let p = within(events, m.drop_last(), w);
        lemma_within_sub(events, m.drop_last(), w);
        assert forall|a: int| 0 <= a < within(events, m, w).len() implies m.contains(
            #[trigger] within(events, m, w)[a],
        ) by {
            if a < p.len() {
                assert(within(events, m, w)[a] == p[a]);
                let i = choose|i: int| 0 <= i < m.drop_last().len() && m.drop_last()[i] == p[a];
                assert(m[i] == p[a]);
            } else {
                assert(m[m.len() - 1] == m.last());
            }
        }
    }
}

/// The entries of `m` whose event falls in `w`.
pub fn in_window(events: &Vec<Event>, m: &Vec<usize>, w: Window) -> (r: Vec<usize>)
    requires
        forall|k: int| 0 <= k < m.len() ==> #[trigger] m@[k] < events.len(),
    ensures
        ints(r@) == within(events@, ints(m@), w),
{
    let mut r: Vec<usize> = Vec::new();
    let mut k: usize = 0;
    proof {
        assert(ints(m@).take(0) =~= Seq::<int>::empty());
    }
    while k < m.len()
        invariant
            k <= m.len(),
            forall|a: int| 0 <= a < m.len() ==> #[trigger] m@[a] < events.len(),
            ints(r@) == within(events@, ints(m@).take(k as int), w),
        decreases m.len() - k,
    {
        let x = m[k];
        proof {
            let t1 = ints(m@).take(k + 1);
            assert(t1.drop_last() =~= ints(m@).take(k as int));
            assert(t1.last() == x as int);
        }
        if w.contains(events[x].ts) {
            proof {
                lemma_ints_push(r@, x);
            }
            r.push(x);
        }
        k = k + 1;
    }
    proof {
        assert(ints(m@).take(m.len() as int) =~= ints(m@));
    }
    r
}

/// How many of the events at `m` are at level `l`.
pub open spec fn level_count(events: Seq<Event>, m: Seq<int>, l: Seq<char>) -> nat
    decreases m.len(),
{
    if m.len() == 0 {
        0
    } else {
        level_count(events, m.drop_last(), l) + if events[m.last()].level@ == l {
            1nat
        } else {
            0nat
        }
    }
}

proof fn lemma_level_count_bound(events: Seq<Event>, m: Seq<int>, l: Seq<char>)
    ensures
        level_count(events, m, l) <= m.len(),
    decreases m.len(),
{
    if m.len() > 0 {
        lemma_level_count_bound(events, m.drop_last(), l);
    }
}

fn count_level(events: &Vec<Event>, m: &Vec<usize>, l: &str) -> (c: usize)
    requires
        forall|k: int| 0 <= k < m.len() ==> #[trigger] m@[k] < events.len(),
    ensures
        c == level_count(events@, ints(m@), l@),
{
    let mut c: usize = 0;
    let mut k: usize = 0;
    proof {
        assert(ints(m@).take(0) =~= Seq::<int>::empty());
    }
    while k < m.len()
        invariant
            k <= m.len(),
            forall|a: int| 0 <= a < m.len() ==> #[trigger] m@[a] < events.len(),
            c == level_count(events@, ints(m@).take(k as int), l@),
        decreases m.len() - k,
    {
        let x = m[k];
        proof {
            let t1 = ints(m@).take(k + 1);
            assert(t1.drop_last() =~= ints(m@).take(k as int));
            assert(t1.last() == x as int);
            lemma_level_count_bound(events@, ints(m@).take(k as int), l@);
        }
        if str_eq(events[x].level.as_str(), l) {
            c = c + 1;
        }
        k = k + 1;
    }
    proof {
        assert(ints(m@).take(m.len() as int) =~= ints(m@));
    }
    c
}

/// Level `a` dominates level `b` at least weakly among the events at `m`:
/// more events, else a higher severity, else the later name (the last
/// maximum of a walk in name order).
pub open spec fn level_ge(events: Seq<Event>, m: Seq<int>, a: Seq<char>, b: Seq<char>) -> bool {
    let (ca, cb) = (level_count(events, m, a), level_count(events, m, b));
    let (sa, sb) = (severity_of(a), severity_of(b));
    ca > cb || (ca == cb && (sa > sb || (sa == sb && lex_le(b, a))))
}

/// `l` is the dominant level of the events at `m`: one of theirs, and
/// dominating each of theirs.
pub open spec fn is_dominant(events: Seq<Event>, m: Seq<int>, l: Seq<char>) -> bool {
    &&& exists|k: int| 0 <= k < m.len() && (#[trigger] events[m[k]]).level@ == l
    &&& forall|k: int| 0 <= k < m.len() ==> level_ge(events, m, l, (#[trigger] events[m[k]]).level@)
}

/// The dominant level of the events at `m` (empty when `m` is).
pub open spec fn dominant_level(events: Seq<Event>, m: Seq<int>) -> Seq<char> {
    if m.len() == 0 {
        Seq::empty()
    } else {
        choose|l: Seq<char>| is_dominant(events, m, l)
    }
}

proof fn lemma_level_ge_total(events: Seq<Event>, m: Seq<int>, a: Seq<char>, b: Seq<char>)
    ensures
        level_ge(events, m, a, b) || level_ge(events, m, b, a),
{
    lemma_lex_le_total(a, b);
}

proof fn lemma_level_ge_trans(events: Seq<Event>, m: Seq<int>, a: Seq<char>, b: Seq<char>, c: Seq<char>)
    requires
        level_ge(events, m, a, b),
        level_ge(events, m, b, c),
    ensures
        level_ge(events, m, a, c),
{
    if lex_le(b, a) && lex_le(c, b) {
        lemma_lex_le_transitive(c, b, a);
    }
}

proof fn lemma_dominant_unique(events: Seq<Event>, m: Seq<int>, l: Seq<char>)
    requires
        is_dominant(events, m, l),
    ensures
        dominant_level(events, m) == l,
{
    let d = dominant_level(events, m);
    assert(m.len() > 0);
    assert(is_dominant(events, m, d));
    let i = choose|k: int| 0 <= k < m.len() && (#[trigger] events[m[k]]).level@ == l;
    let j = choose|k: int| 0 <= k < m.len() && (#[trigger] events[m[k]]).level@ == d;
    assert(level_ge(events, m, l, events[m[j]].level@));
    assert(level_ge(events, m, d, events[m[i]].level@));
    if lex_le(d, l) && lex_le(l, d) {
        lemma_lex_le_antisymmetric(d, l);
    }
}

fn level_ge_exec(ca: usize, a: &str, cb: usize, b: &str) -> (r: bool)
    ensures
        r == (ca > cb || (ca == cb && (severity_of(a@) > severity_of(b@) || (severity_of(a@)
            == severity_of(b@) && lex_le(b@, a@))))),
{
    let sa = severity_rank(a);
    let sb = severity_rank(b);
    ca > cb || (ca == cb && (sa > sb || (sa == sb && str_le(b, a))))
}

/// The dominant level of the events at `m`: the most frequent, ties to the
/// more severe, then to the later name.
pub fn dominant_of(events: &Vec<Event>, m: &Vec<usize>) -> (r: String)
    requires
        forall|k: int| 0 <= k < m.len() ==> #[trigger] m@[k] < events.len(),
    ensures
        r@ == dominant_level(events@, ints(m@)),
{
    if m.len() == 0 {
        return String::new();
    }
    let ghost mi = ints(m@);
    let mut best: usize = 0;
    let mut best_count = count_level(events, m, events[m[0]].level.as_str());
    let mut k: usize = 1;
    proof {
        assert(mi[0] == m@[0] as int);
        lemma_lex_le_reflexive(events@[mi[0]].level@);
    }
    while k < m.len()
        invariant
            1 <= k <= m.len(),
            mi == ints(m@),
            forall|a: int| 0 <= a < m.len() ==> #[trigger] m@[a] < events.len(),
            best < m.len(),
            best_count == level_count(events@, mi, events@[mi[best as int]].level@),
            forall|a: int| 0 <= a < k ==> level_ge(events@, mi, events@[mi[best as int]].level@, (#[trigger] events@[mi[a]]).level@),
        decreases m.len() - k,
    {
        let lv = events[m[k]].level.as_str();
        let c = count_level(events, m, lv);
        let ghost bl = events@[mi[best as int]].level@;
        proof {
            assert(mi[k as int] == m@[k as int] as int);
            assert(mi[best as int] == m@[best as int] as int);
        }
        if !level_ge_exec(best_count, events[m[best]].level.as_str(), c, lv) {
            proof {
                lemma_level_ge_total(events@, mi, bl, lv@);
                assert forall|a: int| 0 <= a < k + 1 implies level_ge(events@, mi, lv@, (#[trigger] events@[mi[a]]).level@) by {
                    if a < k {
                        lemma_level_ge_trans(events@, mi, lv@, bl, events@[mi[a]].level@);
                    } else {
                        lemma_lex_le_reflexive(lv@);
                    }
                }
            }
            best = k;
            best_count = c;
        }
        k = k + 1;
    }
    proof {
        let l = events@[mi[best as int]].level@;
        assert(events@[mi[best as int]].level@ == l);
        assert(is_dominant(events@, mi, l));
        lemma_dominant_unique(events@, mi, l);
    }
    events[m[best]].level.clone()
}

} // verus!

verus! {

/// Some event at `m` carries a stack trace.
pub open spec fn stack_in(events: Seq<Event>, m: Seq<int>) -> bool {
    exists|k: int| 0 <= k < m.len() && (#[trigger] events[m[k]]).has_stack
}

fn stack_in_exec(events: &Vec<Event>, m: &Vec<usize>) -> (b: bool)
    requires
        forall|k: int| 0 <= k < m.len() ==> #[trigger] m@[k] < events.len(),
    ensures
        b == stack_in(events@, ints(m@)),
{
    let ghost mi = ints(m@);
    let mut k: usize = 0;
    while k < m.len()
        invariant
            k <= m.len(),
            mi == ints(m@),
            forall|a: int| 0 <= a < m.len() ==> #[trigger] m@[a] < events.len(),
            forall|a: int| 0 <= a < k ==> !(#[trigger] events@[mi[a]]).has_stack,
        decreases m.len() - k,
    {
        proof {
            assert(mi[k as int] == m@[k as int] as int);
        }
        if events[m[k]].has_stack {
            return true;
        }
        k = k + 1;
    }
    false
}

/// One template's events around an incident window.
#[derive(Debug)]
pub struct NoveltyGroup {
    pub template_id: String,
    /// The template's events inside the window, in store order.
    pub window_members: Vec<usize>,
    pub count_window: usize,
    pub count_baseline: usize,
    pub first_in_window: i64,
    pub last_in_window: i64,
    /// The first three events inside the window.
    pub examples: Vec<usize>,
    pub has_stack: bool,
    pub dominant_level: String,
}

/// The templates worth scoring for novelty.
#[derive(Debug)]
pub struct NoveltyCandidates {
    pub groups: Vec<NoveltyGroup>,
    /// How many templates have an event in the window, before the level filter.
    pub templates_in_window: usize,
}

/// `g` summarizes the events `m` of template `key` against window `w` and baseline `b`.
pub open spec fn novelty_summarizes(events: Seq<Event>, m: Seq<int>, key: Seq<char>, w: Window, b: Window, g: NoveltyGroup) -> bool {
    let mw = within(events, m, w);
    &&& g.template_id@ == key
    &&& ints(g.window_members@) == mw
    &&& g.count_window == mw.len()
    &&& g.count_baseline == within(events, m, b).len()
    &&& is_span(events, mw, g.first_in_window, g.last_in_window)
    &&& ints(g.examples@) == first_three(mw)
    &&& g.has_stack == stack_in(events, mw)
    &&& g.dominant_level@ == dominant_level(events, mw)
}

/// A template is a candidate when it has an event in the window and, under
/// a level filter, the filter names its dominant level there.
pub open spec fn kept(events: Seq<Event>, h: Seq<int>, key: Seq<char>, w: Window, level: Option<Seq<char>>) -> bool {
    let mw = within(events, members_of(events, h, key), w);
    mw.len() > 0 && (level matches Some(l) ==> l == dominant_level(events, mw))
}

pub open spec fn kept_keys(events: Seq<Event>, h: Seq<int>, keys: Seq<Seq<char>>, w: Window, level: Option<Seq<char>>) -> Seq<Seq<char>>
    decreases keys.len(),
{
    if keys.len() == 0 {
        Seq::empty()
    } else {
        let p = kept_keys(events, h, keys.drop_last(), w, level);
        if kept(events, h, keys.last(), w, level) {
            p.push(keys.last())
        } else {
            p
        }
    }
}

/// How many of `keys` have an event in the window.
pub open spec fn active_count(events: Seq<Event>, h: Seq<int>, keys: Seq<Seq<char>>, w: Window) -> nat
    decreases keys.len(),
{
    if keys.len() == 0 {
        0
    } else {
        active_count(events, h, keys.drop_last(), w) + if within(events, members_of(events, h, keys.last()), w).len() > 0 {
            1nat
        } else {
            0nat
        }
    }
}

proof fn lemma_active_count_bound(events: Seq<Event>, h: Seq<int>, keys: Seq<Seq<char>>, w: Window)
    ensures
        active_count(events, h, keys, w) <= keys.len(),
    decreases keys.len(),
{
    if keys.len() > 0 {
        lemma_active_count_bound(events, h, keys.drop_last(), w);
    }
}

pub open spec fn around_at(events: Seq<Event>, w: Window, b: Window, services: Seq<Seq<char>>) -> spec_fn(int) -> bool {
    |i: int|
        (w.from <= events[i].ts <= w.to || b.from <= events[i].ts <= b.to) && in_scope(services, events[i])
}

/// The events in the window or the baseline, and in scope, in store order.
pub open spec fn novelty_hits(events: Seq<Event>, w: Window, b: Window, services: Seq<Seq<char>>) -> Seq<int> {
    indices_where(events.len() as nat, around_at(events, w, b, services))
}

fn around_hits(events: &Vec<Event>, w: Window, b: Window, services: &Vec<String>) -> (r: Vec<usize>)
    ensures
        ints(r@) == novelty_hits(events@, w, b, views(services@)),
{
    let ghost p = around_at(events@, w, b, views(services@));
    let mut out: Vec<usize> = Vec::new();
    let mut i: usize = 0;
    proof {
        assert(ints(out@) =~= Seq::<int>::empty());
    }
    while i < events.len()
        invariant
            i <= events.len(),
            p == around_at(events@, w, b, views(services@)),
            ints(out@) == indices_where(i as nat, p),
        decreases events.len() - i,
    {
        let e = &events[i];
        let hit = (w.contains(e.ts) || b.contains(e.ts)) && in_scope_exec(services, e);
        if hit {
            proof {
                lemma_ints_push(out@, i);
            }
            out.push(i);
        }
        i = i + 1;
    }
    out
}

/// `r` is the candidates for novelty: the templates of the in-scope events
/// in the window or the baseline, in order of first event, kept as `kept`
/// says, each summarized; and the count of templates active in the window.
pub open spec fn novelty_found(
    events: Seq<Event>,
    w: Window,
    b: Window,
    services: Seq<Seq<char>>,
    level: Option<Seq<char>>,
    r: NoveltyCandidates,
) -> bool {
    let h = novelty_hits(events, w, b, services);
    let keys = group_keys(events, h);
    let ks = kept_keys(events, h, keys, w, level);
    &&& r.templates_in_window == active_count(events, h, keys, w)
    &&& r.groups.len() == ks.len()
    &&& forall|j: int|
        0 <= j < r.groups.len() ==> novelty_summarizes(
            events,
            members_of(events, h, ks[j]),
            ks[j],
            w,
            b,
            #[trigger] r.groups@[j],
        )
}

/// Gathers the templates around an incident window for novelty scoring.
/// `level` is compared as given (callers uppercase it first).
pub fn novelty_groups(events: &Vec<Event>, w: Window, b: Window, services: &Vec<String>, level: &Option<String>) -> (r: NoveltyCandidates)
    ensures
        novelty_found(events@, w, b, views(services@), opt_view(*level), r),
{
    let hits = around_hits(events, w, b, services);
    let ghost h = ints(hits@);
    proof {
        lemma_indices_below(events.len() as nat, around_at(events@, w, b, views(services@)));
        assert forall|k: int| 0 <= k < hits.len() implies #[trigger] hits@[k] < events.len() by {
            assert(h[k] == hits@[k] as int);
        }
    }
    let groups = group_by_template(events, &hits);
    let ghost keys = group_keys(events@, h);
    let ghost lv = opt_view(*level);
    let mut out: Vec<NoveltyGroup> = Vec::new();
    let mut active: usize = 0;
    let mut j: usize = 0;
    proof {
        assert(keys.take(0) =~= Seq::<Seq<char>>::empty());
    }
    while j < groups.len()
        invariant
            j <= groups.len(),
            h == ints(hits@),
            h == novelty_hits(events@, w, b, views(services@)),
            keys == group_keys(events@, h),
            grouped(events@, h, groups@),
            lv == opt_view(*level),
            forall|k: int| 0 <= k < h.len() ==> 0 <= #[trigger] h[k] < events.len(),
            active == active_count(events@, h, keys.take(j as int), w),
            active <= j,
            out.len() == kept_keys(events@, h, keys.take(j as int), w, lv).len(),
            forall|i: int|
                0 <= i < out.len() ==> novelty_summarizes(
                    events@,
                    members_of(events@, h, kept_keys(events@, h, keys.take(j as int), w, lv)[i]),
                    kept_keys(events@, h, keys.take(j as int), w, lv)[i],
                    w,
                    b,
                    #[trigger] out@[i],
                ),
        decreases groups.len() - j,
    {
        let g = &groups[j];
        let ghost key = keys[j as int];
        let ghost m = members_of(events@, h, key);
        let ghost k0 = keys.take(j as int);
        let ghost k1 = keys.take(j + 1);
        proof {
            assert(groups@[j as int] == *g);
            assert(key == g.template_id@);
            assert(ints(g.members@) == m);
            assert(k1.drop_last() =~= k0);
            assert(k1.last() == key);
            lemma_members_below(events@, h, key, events.len() as int);
            assert forall|k: int| 0 <= k < g.members.len() implies #[trigger] g.members@[k] < events.len() by {
                assert(ints(g.members@)[k] == g.members@[k] as int);
            }
        }
        let mw = in_window(events, &g.members, w);
        if mw.len() > 0 {
            proof {
                lemma_within_sub(events@, m, w);
                assert forall|k: int| 0 <= k < mw.len() implies #[trigger] mw@[k] < events.len() by {
                    assert(ints(mw@)[k] == mw@[k] as int);
                    assert(m.contains(ints(mw@)[k]));
                }
            }
            let dom = dominant_of(events, &mw);
            let keep = match level {
                Some(l) => str_eq(l.as_str(), dom.as_str()),
                None => true,
            };
            proof {
                assert(keep == kept(events@, h, key, w, lv));
            }
            if keep {
                let mb = in_window(events, &g.members, b);
                let (first, last) = ts_span(events, &mw);
                let ng = NoveltyGroup {
                    template_id: g.template_id.clone(),
                    count_window: mw.len(),
                    count_baseline: mb.len(),
                    first_in_window: first,
                    last_in_window: last,
                    examples: first_three_exec(&mw),
                    has_stack: stack_in_exec(events, &mw),
                    dominant_level: dom,
                    window_members: mw,
                };
                let ghost before = out@;
                out.push(ng);
                proof {
                    let ks1 = kept_keys(events@, h, k1, w, lv);
                    let ks0 = kept_keys(events@, h, k0, w, lv);
                    assert(ks1 == ks0.push(key));
                    assert forall|i: int|
                        0 <= i < out.len() implies novelty_summarizes(
                            events@,
                            members_of(events@, h, ks1[i]),
                            ks1[i],
                            w,
                            b,
                            #[trigger] out@[i],
                        ) by {
                        if i < before.len() {
                            assert(out@[i] == before[i]);
                            assert(ks1[i] == ks0[i]);
                        }
                    }
                }
            } else {
                proof {
                    assert(kept_keys(events@, h, k1, w, lv) == kept_keys(events@, h, k0, w, lv));
                }
            }
            active = active + 1;
        } else {
            proof {
                assert(!kept(events@, h, key, w, lv));
                assert(kept_keys(events@, h, k1, w, lv) == kept_keys(events@, h, k0, w, lv));
            }
        }
        j = j + 1;
    }
    proof {
        assert(keys.take(groups.len() as int) =~= keys);
    }
    NoveltyCandidates { groups: out, templates_in_window: active }
}

} // verus!

verus! {

/// Arguments of `novel_templates`. The score threshold is a fraction and is
/// applied by the program around the library.
#[derive(Clone, Debug)]
pub struct NoveltyArgs {
    /// The incident window. Default: the last `incident_window_secs` of ingested data.
    pub window: WindowArg,
    /// The baseline window. Default: the `baseline_secs` before `window`.
    pub baseline: WindowArg,
    /// Max templates to return (default: the item bound).
    pub limit: Option<usize>,
    /// Restrict to these services/instances. Empty = all.
    pub services: Vec<String>,
    /// Only templates whose dominant level in the window is this.
    pub level: Option<String>,
}

/// What `novel_templates` scores, and the windows it scores against.
#[derive(Debug)]
pub struct NoveltyPlan {
    pub window: Window,
    pub baseline: Window,
    /// The baseline clipped to the start of known history.
    pub baseline_effective: Window,
    /// The start of known history.
    pub earliest: i64,
    /// The clipped baseline spans at least the required seconds.
    pub history_ok: bool,
    pub limit: usize,
    pub candidates: NoveltyCandidates,
}

/// The message for a default window that falls outside representable instants.
pub open spec fn out_of_range_text() -> Seq<char> {
    "window is out of range"@
}

/// Whole seconds in `d` microseconds, truncated toward zero.
pub open spec fn whole_secs(d: int) -> int {
    if d >= 0 {
        d / 1_000_000
    } else {
        -((-d) / 1_000_000)
    }
}

/// The window a given argument resolves to at `wm`.
pub open spec fn given_window(wm: i64, lookback_secs: i64, x: WindowArg) -> Result<Window, Seq<char>> {
    match resolved(wm, lookback_secs, Some(x)) {
        Ok((f, t)) => Ok(Window { from: f as i64, to: t as i64 }),
        Err(m) => Err(m),
    }
}

/// The window ending at `to` that is `secs` long, when representable.
pub open spec fn back_from(to: i64, secs: i64) -> Result<Window, Seq<char>> {
    let f = to - secs * 1_000_000;
    if i64::MIN <= f <= i64::MAX {
        Ok(Window { from: f as i64, to })
    } else {
        Err(out_of_range_text())
    }
}

/// The incident window and the baseline `novel_templates` uses at `wm`.
pub open spec fn novelty_windows(
    wm: i64,
    lookback_secs: i64,
    incident_secs: i64,
    baseline_secs: i64,
    a: NoveltyArgs,
) -> Result<(Window, Window), Seq<char>> {
    let w = match window_given(a.window) {
        Some(x) => given_window(wm, lookback_secs, x),
        None => back_from(wm, incident_secs),
    };
    match w {
        Err(m) => Err(m),
        Ok(w) => {
            let b = match window_given(a.baseline) {
                Some(x) => given_window(wm, lookback_secs, x),
                None => back_from(w.from, baseline_secs),
            };
            match b {
                Err(m) => Err(m),
                Ok(b) => Ok((w, b)),
            }
        },
    }
}

/// `r` is `novel_templates` at watermark `wm`.
pub open spec fn novelty_outcome(
    events: Seq<Event>,
    earliest: Option<i64>,
    wm: i64,
    lookback_secs: i64,
    max_items: usize,
    incident_secs: i64,
    baseline_secs: i64,
    min_baseline_secs: i64,
    a: NoveltyArgs,
    r: Result<NoveltyPlan, String>,
) -> bool {
    match novelty_windows(wm, lookback_secs, incident_secs, baseline_secs, a) {
        Err(m) => r matches Err(e) && e@ == m,
        Ok((w, b)) => r matches Ok(p) && {
            let start = match earliest {
                Some(t) => t,
                None => wm,
            };
            let from = if b.from >= start {
                b.from
            } else {
                start
            };
            &&& p.window == w
            &&& p.baseline == b
            &&& p.earliest == start
            &&& p.baseline_effective == Window { from, to: b.to }
            &&& p.history_ok == (whole_secs(b.to - from) >= min_baseline_secs)
            &&& p.limit == clamped(
                match a.limit {
                    Some(l) => l as int,
                    None => max_items as int,
                },
                1,
                max_items as int,
            )
            &&& novelty_found(events, w, b, views(a.services@), upper_level(a.level), p.candidates)
        },
    }
}

pub(crate) fn back_from_exec(to: i64, secs: i64) -> (r: Result<Window, String>)
    ensures
        match r {
            Ok(x) => back_from(to, secs) == Ok::<Window, Seq<char>>(x),
            Err(m) => back_from(to, secs) == Err::<Window, Seq<char>>(m@),
        },
{
    let f = (to as i128) - (secs as i128) * 1_000_000;
    if f < i64::MIN as i128 || f > i64::MAX as i128 {
        return Err("window is out of range".to_owned());
    }
    Ok(Window { from: f as i64, to })
}

pub(crate) fn given_window_exec(wm: i64, lookback_secs: i64, x: &WindowArg) -> (r: Result<Window, String>)
    ensures
        match r {
            Ok(w) => given_window(wm, lookback_secs, *x) == Ok::<Window, Seq<char>>(w),
            Err(m) => given_window(wm, lookback_secs, *x) == Err::<Window, Seq<char>>(m@),
        },
{
    let r = resolve_at(wm, lookback_secs, Some(x));
    proof {
        assert(opt_arg(Some(x)) == Some(*x));
    }
    r
}

/// The refusal of `novel_templates` when novelty is switched off.
pub open spec fn novelty_disabled_text() -> Seq<char> {
    "novel_templates is disabled (novelty.enabled = false)"@
}

/// The templates around an incident window, gathered for novelty scoring:
/// the window and baseline resolved against the newest log watermark (or
/// the clock, read once), the baseline clipped to known history. With
/// novelty switched off (`enabled` false, the no-novelty ablation) the tool
/// is refused and nothing is reported as novel.
pub fn novel_templates(
    store: &Store,
    enabled: bool,
    lookback_secs: i64,
    max_items: usize,
    incident_secs: i64,
    baseline_secs: i64,
    min_baseline_secs: i64,
    a: &NoveltyArgs,
) -> (r: Result<NoveltyPlan, String>)
    requires
        max_items >= 1,
    ensures
        !enabled ==> (r matches Err(m) && m@ == novelty_disabled_text()),
        enabled && has_log(store.watermarks.entries@) ==> novelty_outcome(
            store.events@,
            store.earliest_ts,
            max_log(store.watermarks.entries@) as i64,
            lookback_secs,
            max_items,
            incident_secs,
            baseline_secs,
            min_baseline_secs,
            *a,
            r,
        ),
        enabled && !has_log(store.watermarks.entries@) ==> exists|clock: i64|
            novelty_outcome(
                store.events@,
                store.earliest_ts,
                clock,
                lookback_secs,
                max_items,
                incident_secs,
                baseline_secs,
                min_baseline_secs,
                *a,
                r,
            ),
{
    if !enabled {
        return Err(String::from_str("novel_templates is disabled (novelty.enabled = false)"));
    }
    let newest = store.watermarks.newest_log_ts();
    proof {
        if let Some(t) = newest {
            lemma_max_log(store.watermarks.entries@, t);
        }
    }
    let wm = match newest {
        Some(t) => t,
        None => now_micros(),
    };
    let ghost windows = novelty_windows(wm, lookback_secs, incident_secs, baseline_secs, *a);
    let given = a.window.given();
    let rw = match given {
        Some(x) => given_window_exec(wm, lookback_secs, x),
        None => back_from_exec(wm, incident_secs),
    };
    let w = match rw {
        Ok(w) => w,
        Err(m) => {
            let r: Result<NoveltyPlan, String> = Err(m);
            proof {
                assert(novelty_outcome(store.events@, store.earliest_ts, wm, lookback_secs, max_items, incident_secs, baseline_secs, min_baseline_secs, *a, r));
            }
            return r;
        },
    };
    let rb = match a.baseline.given() {
        Some(x) => given_window_exec(wm, lookback_secs, x),
        None => back_from_exec(w.from, baseline_secs),
    };
    let b = match rb {
        Ok(b) => b,
        Err(m) => {
            let r: Result<NoveltyPlan, String> = Err(m);
            proof {
                assert(novelty_outcome(store.events@, store.earliest_ts, wm, lookback_secs, max_items, incident_secs, baseline_secs, min_baseline_secs, *a, r));
            }
            return r;
        },
    };
    let limit = clamp_limit(a.limit, max_items, max_items);
    let level: Option<String> = match &a.level {
        Some(l) => Some(to_upper(l.as_str())),
        None => None,
    };
    proof {
        assert(opt_view(level) == upper_level(a.level));
    }
    let earliest = match store.earliest_ts {
        Some(t) => t,
        None => wm,
    };
    let from = if b.from >= earliest {
        b.from
    } else {
        earliest
    };
    let span: i128 = (b.to as i128) - (from as i128);
    let secs: i128 = if span >= 0 {
        span / 1_000_000
    } else {
        -((-span) / 1_000_000)
    };
    let candidates = novelty_groups(&store.events, w, b, &a.services, &level);
    let r: Result<NoveltyPlan, String> = Ok(
        NoveltyPlan {
            window: w,
            baseline: b,
            baseline_effective: Window { from, to: b.to },
            earliest,
            history_ok: secs >= min_baseline_secs as i128,
            limit,
            candidates,
        },
    );
    proof {
        assert(novelty_outcome(store.events@, store.earliest_ts, wm, lookback_secs, max_items, incident_secs, baseline_secs, min_baseline_secs, *a, r));
    }
    r
}

} // verus!

verus! {

pub open spec fn in_view_at(events: Seq<Event>, w: Window, services: Seq<Seq<char>>) -> spec_fn(int) -> bool {
    |i: int| w.from <= events[i].ts <= w.to && in_scope(services, events[i])
}

/// The events inside `w` and in scope of the service filter (empty = all),
/// in store order.
pub fn events_in(events: &Vec<Event>, w: Window, services: &Vec<String>) -> (r: Vec<usize>)
    ensures
        ints(r@) == indices_where(events.len() as nat, in_view_at(events@, w, views(services@))),
{
    let ghost p = in_view_at(events@, w, views(services@));
    let mut out: Vec<usize> = Vec::new();
    let mut i: usize = 0;
    while i < events.len()
        invariant
            i <= events.len(),
            p == in_view_at(events@, w, views(services@)),
            ints(out@) == indices_where(i as nat, p),
        decreases events.len() - i,
    {
        if w.contains(events[i].ts) && in_scope_exec(services, &events[i]) {
            proof {
                lemma_ints_push(out@, i);
            }
            out.push(i);
        }
        i = i + 1;
    }
    out
}

} // verus!

verus! {

proof fn lemma_hit_in_its_group(events: Seq<Event>, h: Seq<int>, k: int)
    requires
        0 <= k < h.len(),
    ensures
        group_keys(events, h).contains(events[h[k]].template_id@),
        members_of(events, h, events[h[k]].template_id@).contains(h[k]),
    decreases h.len(),
{
    let t = events[h[k]].template_id@;
    let p = group_keys(events, h.drop_last());
    if k < h.len() - 1 {
        lemma_hit_in_its_group(events, h.drop_last(), k);
        assert(h.drop_last()[k] == h[k]);
        let i = choose|i: int| 0 <= i < p.len() && p[i] == t;
        assert(group_keys(events, h)[i] == t);
        let m = members_of(events, h.drop_last(), t);
        let a = choose|a: int| 0 <= a < m.len() && m[a] == h[k];
        assert(members_of(events, h, t)[a] == h[k]);
    } else {
        if p.contains(t) {
            let i = choose|i: int| 0 <= i < p.len() && p[i] == t;
            assert(group_keys(events, h)[i] == t);
        } else {
            assert(group_keys(events, h)[p.len() as int] == t);
        }
        let m = members_of(events, h.drop_last(), t);
        assert(members_of(events, h, t)[m.len() as int] == h[k]);
    }
}

/// Search results are grouped by template, never raw pages: every hit
/// lies in exactly one group, the group of its own template.
pub proof fn law_every_hit_is_in_its_template_group(events: Seq<Event>, h: Seq<int>, g: Seq<TemplateGroup>, k: int)
    requires
        grouped(events, h, g),
        0 <= k < h.len(),
    ensures
        exists|j: int|
            0 <= j < g.len() && (#[trigger] g[j]).template_id@ == events[h[k]].template_id@ && ints(
                g[j].members@,
            ).contains(h[k]),
        forall|j: int|
            0 <= j < g.len() && ints((#[trigger] g[j]).members@).contains(h[k]) ==> g[j].template_id@
                == events[h[k]].template_id@,
{
    let t = events[h[k]].template_id@;
    let keys = group_keys(events, h);
    lemma_hit_in_its_group(events, h, k);
    let j = choose|j: int| 0 <= j < keys.len() && keys[j] == t;
    assert(g[j].template_id@ == t);
    assert forall|j2: int|
        0 <= j2 < g.len() && ints((#[trigger] g[j2]).members@).contains(h[k]) implies g[j2].template_id@
            == events[h[k]].template_id@ by {
        lemma_members_share_key(events, h, keys[j2]);
        let a = choose|a: int| 0 <= a < ints(g[j2].members@).len() && ints(g[j2].members@)[a] == h[k];
    }
}

proof fn lemma_members_share_key(events: Seq<Event>, h: Seq<int>, key: Seq<char>)
    ensures
        forall|a: int|
            0 <= a < members_of(events, h, key).len() ==> events[#[trigger] members_of(events, h, key)[a]].template_id@
                == key,
    decreases h.len(),
{
    if h.len() > 0 {
        let p = members_of(events, h.drop_last(), key);
        lemma_members_share_key(events, h.drop_last(), key);
        assert forall|a: int| 0 <= a < members_of(events, h, key).len() implies events[#[trigger] members_of(
            events,
            h,
            key,
        )[a]].template_id@ == key by {
            if a < p.len() {
                assert(members_of(events, h, key)[a] == p[a]);
            }
        }
    }
}

} // verus!
