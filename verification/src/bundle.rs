//! Evidence bundles: the kinds of fact a bundle holds, and the labels of a
//! series key.

use vstd::prelude::*;
use crate::sanitize::{header_views, lookup, names, put_sorted};
use crate::text::{chars_of, string_of, strictly_sorted_views, str_eq, views};
use crate::tools::{severity_of, severity_rank};
use crate::events::{Event, Window};
use crate::recovery::DeployEvent;
use crate::search::{indices_where, ints, group_keys, group_by_template, lemma_indices_below};
use vstd::utf8::encode_utf8;

verus! {

/// The kind of a deduplicated fact.
#[derive(Clone, Copy, Debug, PartialEq, Eq, Structural)]
pub enum Kind {
    Template,
    Changepoint,
    Deploy,
}

pub open spec fn kind_text(k: Kind) -> Seq<char> {
    match k {
        Kind::Template => "novel_template"@,
        Kind::Changepoint => "changepoint"@,
        Kind::Deploy => "deploy"@,
    }
}

impl Kind {
    pub fn as_str(self) -> (s: &'static str)
        ensures
            s@ == kind_text(self),
    {
        match self {
            Kind::Template => "novel_template",
            Kind::Changepoint => "changepoint",
            Kind::Deploy => "deploy",
        }
    }
}

// ------------------------------------------------------------------ series labels

/// Position of the first `c` in `s` at or after `i`.
pub open spec fn index_from(s: Seq<char>, c: char, i: int) -> Option<int>
    decreases s.len() - i,
{
    if i < 0 || i >= s.len() {
        None
    } else if s[i] == c {
        Some(i)
    } else {
        index_from(s, c, i + 1)
    }
}

pub open spec fn first_index(s: Seq<char>, c: char) -> Option<int> {
    index_from(s, c, 0)
}

/// A key whose label part can be cut out: no `{`, or a `{` that is not
/// the last character, and an ASCII last character (the cut drops it).
pub open spec fn label_cuttable(s: Seq<char>) -> bool {
    match first_index(s, '{') {
        None => true,
        Some(i) => i < s.len() - 1 && (s.last() as u32) < 128,
    }
}

/// The text between the first `{` and the last character.
pub open spec fn label_body(s: Seq<char>) -> Seq<char> {
    match first_index(s, '{') {
        None => Seq::empty(),
        Some(i) => s.subrange(i + 1, s.len() - 1),
    }
}

/// The pieces of `s` between `c`s, empty pieces included (`str::split`).
pub open spec fn pieces(s: Seq<char>, c: char) -> Seq<Seq<char>>
    decreases s.len(),
{
    if s.len() == 0 {
        seq![Seq::<char>::empty()]
    } else {
        let r = pieces(s.drop_last(), c);
        if s.last() == c {
            r.push(Seq::empty())
        } else {
            r.update(r.len() - 1, r.last().push(s.last()))
        }
    }
}

proof fn lemma_pieces_nonempty(s: Seq<char>, c: char)
    ensures
        pieces(s, c).len() >= 1,
    decreases s.len(),
{
    if s.len() > 0 {
        lemma_pieces_nonempty(s.drop_last(), c);
    }
}

pub open spec fn strip_front_quotes(s: Seq<char>) -> Seq<char>
    decreases s.len(),
{
    if s.len() > 0 && s[0] == '"' {
        strip_front_quotes(s.drop_first())
    } else {
        s
    }
}

pub open spec fn strip_back_quotes(s: Seq<char>) -> Seq<char>
    decreases s.len(),
{
    if s.len() > 0 && s.last() == '"' {
        strip_back_quotes(s.drop_last())
    } else {
        s
    }
}

/// `s` without its leading and trailing `"`s (`str::trim_matches('"')`).
pub open spec fn trim_quotes(s: Seq<char>) -> Seq<char> {
    strip_back_quotes(strip_front_quotes(s))
}

/// The labels of the first `n` pieces: `key=value` pieces, a later key
/// replacing an earlier one, values stripped of quotes.
pub open spec fn labels_of(p: Seq<Seq<char>>) -> Map<Seq<char>, Seq<char>>
    decreases p.len(),
{
    if p.len() == 0 {
        Map::empty()
    } else {
        let m = labels_of(p.drop_last());
        let x = p.last();
        match first_index(x, '=') {
            Some(j) => m.insert(x.take(j), trim_quotes(x.skip(j + 1))),
            None => m,
        }
    }
}

/// The labels of a series key such as `http_requests{service="payments",route="/charge"}`.
pub open spec fn series_labels_spec(s: Seq<char>) -> Map<Seq<char>, Seq<char>> {
    labels_of(pieces(label_body(s), ','))
}

fn first_index_exec(cs: &Vec<char>, c: char) -> (r: Option<usize>)
    ensures
        match r {
            Some(i) => first_index(cs@, c) == Some(i as int) && i < cs.len(),
            None => first_index(cs@, c) is None,
        },
{
    let mut i: usize = 0;
    while i < cs.len()
        invariant
            i <= cs.len(),
            index_from(cs@, c, i as int) == first_index(cs@, c),
        decreases cs.len() - i,
    {
        if cs[i] == c {
            return Some(i);
        }
        i = i + 1;
    }
    None
}

fn trim_quotes_exec(cs: &[char]) -> (r: String)
    ensures
        r@ == trim_quotes(cs@),
{
    let mut a: usize = 0;
    proof {
        assert(cs@.skip(0) =~= cs@);
    }
    while a < cs.len() && cs[a] == '"'
        invariant
            a <= cs.len(),
            strip_front_quotes(cs@.skip(a as int)) == strip_front_quotes(cs@),
        decreases cs.len() - a,
    {
        proof {
            assert(cs@.skip(a as int).drop_first() =~= cs@.skip(a + 1));
        }
        a = a + 1;
    }
    let ghost f = cs@.skip(a as int);
    proof {
        assert(strip_front_quotes(f) == f);
    }
    let mut b: usize = cs.len();
    while b > a && cs[b - 1] == '"'
        invariant
            a <= b <= cs.len(),
            f == cs@.skip(a as int),
            strip_back_quotes(cs@.subrange(a as int, b as int)) == strip_back_quotes(f),
        decreases b - a,
    {
        proof {
            assert(cs@.subrange(a as int, b as int).drop_last() =~= cs@.subrange(a as int, b - 1));
        }
        b = b - 1;
    }
    proof {
        assert(cs@.subrange(a as int, cs.len() as int) =~= f);
        let t = cs@.subrange(a as int, b as int);
        assert(strip_back_quotes(t) == t);
    }
    string_of(&cs[a..b])
}

/// Adds the label of one `key=value` piece (nothing for a piece without `=`).
fn add_label(out: &mut Vec<(String, String)>, piece: &Vec<char>)
    requires
        strictly_sorted_views(names(header_views(old(out)@))),
    ensures
        strictly_sorted_views(names(header_views(final(out)@))),
        forall|n: Seq<char>|
            #[trigger] lookup(header_views(final(out)@), n) == match first_index(piece@, '=') {
                Some(j) => if n == piece@.take(j) {
                    Some(trim_quotes(piece@.skip(j + 1)))
                } else {
                    lookup(header_views(old(out)@), n)
                },
                None => lookup(header_views(old(out)@), n),
            },
{
    match first_index_exec(piece, '=') {
        Some(j) => {
            let key = string_of(&piece.as_slice()[0..j]);
            let val = trim_quotes_exec(&piece.as_slice()[j + 1..piece.len()]);
            proof {
                assert(piece@.subrange(0, j as int) =~= piece@.take(j as int));
                assert(piece@.subrange(j + 1, piece.len() as int) =~= piece@.skip(j + 1));
            }
            put_sorted(out, key, val);
        },
        None => {},
    }
}

/// The labels of a series key, sorted by name: `name{k="v",...}` gives
/// `k -> v` for each `k=v` between the braces (quotes stripped, a later
/// key replacing an earlier one); no braces, no labels.
pub fn series_labels(series: &str) -> (out: Vec<(String, String)>)
    requires
        label_cuttable(series@),
    ensures
        strictly_sorted_views(names(header_views(out@))),
        forall|n: Seq<char>|
            #[trigger] lookup(header_views(out@), n) == if series_labels_spec(series@).contains_key(n) {
                Some(series_labels_spec(series@)[n])
            } else {
                None
            },
{
    let cs = chars_of(series);
    let body: Vec<char> = match first_index_exec(&cs, '{') {
        Some(i) => {
            let mut v: Vec<char> = Vec::new();
            let mut j = i + 1;
            while j < cs.len() - 1
                invariant
                    cs@ == series@,
                    i + 1 <= j <= cs.len() - 1,
                    v@ == cs@.subrange(i + 1, j as int),
                decreases cs.len() - 1 - j,
            {
                v.push(cs[j]);
                j = j + 1;
                proof {
                    assert(v@ =~= cs@.subrange(i + 1, j as int));
                }
            }
            v
        },
        None => Vec::new(),
    };
    proof {
        assert(body@ =~= label_body(series@));
    }
    let ghost l = body@;
    let mut out: Vec<(String, String)> = Vec::new();
    let mut cur: Vec<char> = Vec::new();
    let mut k: usize = 0;
    proof {
        assert(l.take(0) =~= Seq::<char>::empty());
        assert(pieces(Seq::<char>::empty(), ',') =~= seq![Seq::<char>::empty()]);
        assert(seq![Seq::<char>::empty()].drop_last() =~= Seq::<Seq<char>>::empty());
    }
    while k < body.len()
        invariant
            body@ == l,
            k <= body.len(),
            pieces(l.take(k as int), ',').len() >= 1,
            cur@ == pieces(l.take(k as int), ',').last(),
            strictly_sorted_views(names(header_views(out@))),
            forall|n: Seq<char>|
                #[trigger] lookup(header_views(out@), n) == if labels_of(pieces(l.take(k as int), ',').drop_last()).contains_key(n) {
                    Some(labels_of(pieces(l.take(k as int), ',').drop_last())[n])
                } else {
                    None
                },
        decreases body.len() - k,
    {
        let c = body[k];
        let ghost p0 = pieces(l.take(k as int), ',');
        proof {
            assert(l.take(k + 1).drop_last() =~= l.take(k as int));
            assert(l.take(k + 1).last() == c);
        }
        if c == ',' {
            add_label(&mut out, &cur);
            proof {
                let p1 = pieces(l.take(k + 1), ',');
                assert(p1 =~= p0.push(Seq::empty()));
                assert(p1.drop_last() =~= p0);
                assert(p0.drop_last().push(p0.last()) =~= p0);
            }
            cur = Vec::new();
            proof {
                assert(cur@ =~= Seq::<char>::empty());
            }
        } else {
            cur.push(c);
            proof {
                let p1 = pieces(l.take(k + 1), ',');
                assert(p1 =~= p0.update(p0.len() - 1, p0.last().push(c)));
                assert(p1.drop_last() =~= p0.drop_last());
            }
        }
        k = k + 1;
    }
    add_label(&mut out, &cur);
    proof {
        let p = pieces(l.take(body.len() as int), ',');
        assert(l.take(body.len() as int) =~= l);
        assert(p.drop_last().push(p.last()) =~= p);
    }
    out
}

} // verus!

verus! {

// ------------------------------------------------------------------ what a bundle distils

/// The events inside `w`, in store order.
pub open spec fn in_window_at(events: Seq<Event>, w: Window) -> spec_fn(int) -> bool {
    |i: int| w.from <= events[i].ts <= w.to
}

/// Total bytes of the raw lines of the events at `m` (each as `str::len`
/// reports it).
pub open spec fn raw_bytes(events: Seq<Event>, m: Seq<int>) -> int
    decreases m.len(),
{
    if m.len() == 0 {
        0
    } else {
        raw_bytes(events, m.drop_last()) + (encode_utf8(events[m.last()].raw@).len() as usize)
    }
}

/// How much a bundle was distilled from.
#[derive(Clone, Copy, Debug)]
pub struct Coverage {
    pub events_scanned: usize,
    /// Bytes of raw lines scanned (saturating at the largest `usize`).
    pub bytes_scanned: usize,
    /// Distinct templates among the scanned events.
    pub templates_in_window: usize,
}

/// The events, raw bytes and distinct templates inside `w`.
pub fn coverage(events: &Vec<Event>, w: Window) -> (c: Coverage)
    ensures
        ({
            let m = indices_where(events.len() as nat, in_window_at(events@, w));
            &&& c.events_scanned == m.len()
            &&& c.bytes_scanned == (if raw_bytes(events@, m) <= usize::MAX {
                raw_bytes(events@, m)
            } else {
                usize::MAX as int
            })
            &&& c.templates_in_window == group_keys(events@, m).len()
        }),
{
    let ghost p = in_window_at(events@, w);
    let mut idx: Vec<usize> = Vec::new();
    let mut bytes: usize = 0;
    let mut i: usize = 0;
    while i < events.len()
        invariant
            i <= events.len(),
            p == in_window_at(events@, w),
            ints(idx@) == indices_where(i as nat, p),
            bytes == (if raw_bytes(events@, ints(idx@)) <= usize::MAX {
                raw_bytes(events@, ints(idx@))
            } else {
                usize::MAX as int
            }),
        decreases events.len() - i,
    {
        if w.contains(events[i].ts) {
            let b = events[i].raw.as_str().len();
            let ghost before = ints(idx@);
            proof {
                lemma_raw_bytes_nonneg(events@, before);
                assert(ints(idx@.push(i)) =~= before.push(i as int));
                assert(ints(idx@.push(i)).drop_last() =~= before);
            }
            idx.push(i);
            proof {
                assert(b == encode_utf8(events@[i as int].raw@).len() as usize);
                assert(raw_bytes(events@, ints(idx@)) == raw_bytes(events@, before) + b);
            }
            bytes = bytes.saturating_add(b);
        }
        i = i + 1;
    }
    proof {
        lemma_indices_below(events.len() as nat, p);
        assert forall|k: int| 0 <= k < idx.len() implies #[trigger] idx@[k] < events.len() by {
            assert(ints(idx@)[k] == idx@[k] as int);
        }
    }
    let groups = group_by_template(events, &idx);
    Coverage { events_scanned: idx.len(), bytes_scanned: bytes, templates_in_window: groups.len() }
}

proof fn lemma_raw_bytes_nonneg(events: Seq<Event>, m: Seq<int>)
    ensures
        raw_bytes(events, m) >= 0,
    decreases m.len(),
{
    if m.len() > 0 {
        lemma_raw_bytes_nonneg(events, m.drop_last());
    }
}

/// A routing change a bundle considers: journaled with a deploy id, not
/// after the window, and inside it or cited by a changepoint.
pub open spec fn considered_at(d: Seq<DeployEvent>, w: Window, cited: Seq<Seq<char>>) -> spec_fn(int) -> bool {
    |i: int|
        d[i].deploy_id is Some && d[i].ts <= w.to && (w.from <= d[i].ts || cited.contains(
            d[i].deploy_id->0@,
        ))
}

/// The journal entries a bundle considers, in journal order.
pub fn deploys_considered(d: &Vec<DeployEvent>, w: Window, cited: &Vec<String>) -> (r: Vec<usize>)
    ensures
        ints(r@) == indices_where(d.len() as nat, considered_at(d@, w, views(cited@))),
{
    let ghost p = considered_at(d@, w, views(cited@));
    let mut out: Vec<usize> = Vec::new();
    let mut i: usize = 0;
    while i < d.len()
        invariant
            i <= d.len(),
            p == considered_at(d@, w, views(cited@)),
            ints(out@) == indices_where(i as nat, p),
        decreases d.len() - i,
    {
        let hit = match &d[i].deploy_id {
            Some(id) => d[i].ts <= w.to && (w.from <= d[i].ts || contains_name(cited, id.as_str())),
            None => false,
        };
        if hit {
            proof {
                assert(ints(out@.push(i)) =~= ints(out@).push(i as int));
            }
            out.push(i);
        }
        i = i + 1;
    }
    out
}

fn contains_name(names: &Vec<String>, x: &str) -> (b: bool)
    ensures
        b == views(names@).contains(x@),
{
    let mut k: usize = 0;
    while k < names.len()
        invariant
            k <= names.len(),
            forall|j: int| 0 <= j < k ==> #[trigger] views(names@)[j] != x@,
        decreases names.len() - k,
    {
        proof {
            assert(views(names@)[k as int] == names@[k as int]@);
        }
        if str_eq(names[k].as_str(), x) {
            return true;
        }
        k = k + 1;
    }
    false
}

} // verus!

verus! {

// ------------------------------------------------------------------ template cascades

/// The request ids of template `i`'s exemplars.
pub open spec fn ids_of(r: Seq<Vec<String>>, i: int) -> Seq<Seq<char>> {
    views(r[i]@)
}

/// Templates `i` and `j` share an exemplar request id: one request passed
/// through both, so they are one cascade.
pub open spec fn shares(r: Seq<Vec<String>>, i: int, j: int) -> bool {
    exists|a: int, b: int|
        0 <= a < ids_of(r, i).len() && 0 <= b < ids_of(r, j).len() && #[trigger] ids_of(r, i)[a]
            == #[trigger] ids_of(r, j)[b]
}

/// `p` walks from template to template, each step sharing a request id.
pub open spec fn is_walk(r: Seq<Vec<String>>, p: Seq<int>) -> bool {
    &&& p.len() >= 1
    &&& forall|k: int| 0 <= k < p.len() ==> 0 <= #[trigger] p[k] < r.len()
    &&& forall|k: int| 0 <= k < p.len() - 1 ==> shares(r, #[trigger] p[k], p[k + 1])
}

/// Templates `i` and `j` are in one cascade: a walk joins them.
pub open spec fn joined(r: Seq<Vec<String>>, i: int, j: int) -> bool {
    exists|p: Seq<int>| is_walk(r, p) && p[0] == i && #[trigger] p.last() == j
}

proof fn lemma_shares_sym(r: Seq<Vec<String>>, i: int, j: int)
    requires
        shares(r, i, j),
    ensures
        shares(r, j, i),
{
    let (a, b) = choose|a: int, b: int|
        0 <= a < ids_of(r, i).len() && 0 <= b < ids_of(r, j).len() && #[trigger] ids_of(r, i)[a]
            == #[trigger] ids_of(r, j)[b];
    assert(ids_of(r, j)[b] == ids_of(r, i)[a]);
}

proof fn lemma_joined_refl(r: Seq<Vec<String>>, i: int)
    requires
        0 <= i < r.len(),
    ensures
        joined(r, i, i),
{
    let p = seq![i];
    assert(is_walk(r, p));
    assert(p.last() == i);
}

proof fn lemma_joined_step(r: Seq<Vec<String>>, i: int, j: int, k: int)
    requires
        joined(r, i, j),
        shares(r, j, k),
        0 <= k < r.len(),
    ensures
        joined(r, i, k),
{
    let p = choose|p: Seq<int>| is_walk(r, p) && p[0] == i && #[trigger] p.last() == j;
    let q = p.push(k);
    assert forall|t: int| 0 <= t < q.len() implies 0 <= #[trigger] q[t] < r.len() by {
        if t < p.len() {
            assert(q[t] == p[t]);
        }
    }
    assert forall|t: int| 0 <= t < q.len() - 1 implies shares(r, #[trigger] q[t], q[t + 1]) by {
        if t < p.len() - 1 {
            assert(q[t] == p[t] && q[t + 1] == p[t + 1]);
        } else {
            assert(q[t] == p.last());
        }
    }
    assert(is_walk(r, q));
    assert(q.last() == k);
}

proof fn lemma_joined_sym(r: Seq<Vec<String>>, i: int, j: int)
    requires
        joined(r, i, j),
    ensures
        joined(r, j, i),
{
    let p = choose|p: Seq<int>| is_walk(r, p) && p[0] == i && #[trigger] p.last() == j;
    let q = p.reverse();
    assert forall|t: int| 0 <= t < q.len() implies 0 <= #[trigger] q[t] < r.len() by {
        assert(q[t] == p[p.len() - 1 - t]);
    }
    assert forall|t: int| 0 <= t < q.len() - 1 implies shares(r, #[trigger] q[t], q[t + 1]) by {
        let u = p.len() - 2 - t;
        assert(q[t] == p[u + 1] && q[t + 1] == p[u]);
        assert(shares(r, p[u], p[u + 1]));
        lemma_shares_sym(r, p[u], p[u + 1]);
    }
    assert(is_walk(r, q));
    assert(q[0] == j);
    assert(q.last() == i);
}

proof fn lemma_joined_trans(r: Seq<Vec<String>>, i: int, j: int, k: int)
    requires
        joined(r, i, j),
        joined(r, j, k),
    ensures
        joined(r, i, k),
{
    let p = choose|p: Seq<int>| is_walk(r, p) && p[0] == i && #[trigger] p.last() == j;
    let q = choose|q: Seq<int>| is_walk(r, q) && q[0] == j && #[trigger] q.last() == k;
    let s = p + q.drop_first();
    assert forall|t: int| 0 <= t < s.len() implies 0 <= #[trigger] s[t] < r.len() by {
        if t < p.len() {
            assert(s[t] == p[t]);
        } else {
            assert(s[t] == q[t - p.len() + 1]);
        }
    }
    assert forall|t: int| 0 <= t < s.len() - 1 implies shares(r, #[trigger] s[t], s[t + 1]) by {
        if t < p.len() - 1 {
            assert(s[t] == p[t] && s[t + 1] == p[t + 1]);
        } else if t == p.len() - 1 {
            assert(s[t] == p.last() && s[t + 1] == q[1]);
            assert(q[0] == j);
        } else {
            let u = t - p.len() + 1;
            assert(s[t] == q[u] && s[t + 1] == q[u + 1]);
        }
    }
    assert(is_walk(r, s));
    assert(s[0] == i);
    if q.len() == 1 {
        assert(s =~= p);
    } else {
        assert(s.last() == q.last());
    }
}

/// Labels are closed under sharing: a template sharing an id with a
/// labelled one carries the same label.
pub open spec fn closed_below(r: Seq<Vec<String>>, label: Seq<usize>, c: int) -> bool {
    forall|k: int, j: int|
        0 <= k < r.len() && 0 <= j < r.len() && label[k] < c && #[trigger] shares(r, k, j) ==> #[trigger] label[j]
            == label[k]
}

proof fn lemma_walk_keeps_label(r: Seq<Vec<String>>, label: Seq<usize>, c: int, p: Seq<int>)
    requires
        is_walk(r, p),
        closed_below(r, label, c),
        label.len() == r.len(),
        label[p[0]] < c,
    ensures
        label[p.last()] == label[p[0]],
    decreases p.len(),
{
    if p.len() > 1 {
        let q = p.drop_last();
        assert forall|t: int| 0 <= t < q.len() implies 0 <= #[trigger] q[t] < r.len() by {
            assert(q[t] == p[t]);
        }
        assert forall|t: int| 0 <= t < q.len() - 1 implies shares(r, #[trigger] q[t], q[t + 1]) by {
            assert(q[t] == p[t] && q[t + 1] == p[t + 1]);
        }
        lemma_walk_keeps_label(r, label, c, q);
        let t = p.len() - 2;
        assert(q.last() == p[t]);
        assert(shares(r, p[t], p[t + 1]));
        assert(p[t + 1] == p.last());
    }
}

fn shares_exec(r: &Vec<Vec<String>>, i: usize, j: usize) -> (b: bool)
    requires
        i < r.len(),
        j < r.len(),
    ensures
        b == shares(r@, i as int, j as int),
{
    let x = &r[i];
    let y = &r[j];
    let mut a: usize = 0;
    while a < x.len()
        invariant
            a <= x.len(),
            *x == r@[i as int],
            *y == r@[j as int],
            forall|a2: int, b2: int|
                0 <= a2 < a && 0 <= b2 < ids_of(r@, j as int).len() ==> #[trigger] ids_of(r@, i as int)[a2]
                    != #[trigger] ids_of(r@, j as int)[b2],
        decreases x.len() - a,
    {
        let mut b: usize = 0;
        while b < y.len()
            invariant
                a < x.len(),
                b <= y.len(),
                *x == r@[i as int],
                *y == r@[j as int],
                forall|b2: int| 0 <= b2 < b ==> ids_of(r@, i as int)[a as int] != #[trigger] ids_of(r@, j as int)[b2],
            decreases y.len() - b,
        {
            proof {
                assert(ids_of(r@, i as int)[a as int] == x@[a as int]@);
                assert(ids_of(r@, j as int)[b as int] == y@[b as int]@);
            }
            if str_eq(x[a].as_str(), y[b].as_str()) {
                return true;
            }
            b = b + 1;
        }
        a = a + 1;
    }
    false
}

} // verus!

verus! {

/// How many entries of `s` equal `v`.
pub open spec fn count_eq(s: Seq<usize>, v: usize) -> nat
    decreases s.len(),
{
    if s.len() == 0 {
        0
    } else {
        count_eq(s.drop_last(), v) + if s.last() == v {
            1nat
        } else {
            0nat
        }
    }
}

proof fn lemma_count_update(s: Seq<usize>, k: int, v: usize, w: usize)
    requires
        0 <= k < s.len(),
        s[k] == v,
        w != v,
    ensures
        count_eq(s.update(k, w), v) + 1 == count_eq(s, v),
    decreases s.len(),
{
    if k == s.len() - 1 {
        assert(s.update(k, w).drop_last() =~= s.drop_last());
    } else {
        lemma_count_update(s.drop_last(), k, v, w);
        assert(s.update(k, w).drop_last() =~= s.drop_last().update(k, w));
    }
}

/// `g` is group `a` of the labelling: rooted at `root`, ascending, and
/// exactly the templates labelled `a`.
pub open spec fn group_of(label: Seq<usize>, g: Seq<usize>, a: int, root: int) -> bool {
    &&& g.len() > 0
    &&& g[0] == root
    &&& forall|b: int| 0 <= b < g.len() ==> (#[trigger] g[b]) < label.len() && label[g[b] as int] == a
    &&& forall|b1: int, b2: int| 0 <= b1 < b2 < g.len() ==> #[trigger] g[b1] < #[trigger] g[b2]
    &&& forall|k: int| 0 <= k < label.len() && #[trigger] label[k] == a ==> g.contains(k as usize)
}

/// Template `i` is in one of the groups.
pub open spec fn in_some_group(g: Seq<Vec<usize>>, i: int) -> bool {
    exists|a: int, b: int| 0 <= a < g.len() && 0 <= b < g[a].len() && #[trigger] g[a]@[b] == i
}

/// `g` gathers the templates into cascades: every template in exactly one
/// group, each group ascending and joined, templates of different groups
/// never joined, groups in order of their first template.
pub open spec fn is_cascade_partition(r: Seq<Vec<String>>, g: Seq<Vec<usize>>) -> bool {
    &&& forall|a: int| 0 <= a < g.len() ==> (#[trigger] g[a]).len() > 0
    &&& forall|a: int, b: int| 0 <= a < g.len() && 0 <= b < g[a].len() ==> (#[trigger] g[a]@[b]) < r.len()
    &&& forall|a: int, b1: int, b2: int|
        0 <= a < g.len() && 0 <= b1 < b2 < g[a].len() ==> #[trigger] g[a]@[b1] < #[trigger] g[a]@[b2]
    &&& forall|a1: int, a2: int| 0 <= a1 < a2 < g.len() ==> (#[trigger] g[a1])@[0] < (#[trigger] g[a2])@[0]
    &&& forall|i: int| 0 <= i < r.len() ==> #[trigger] in_some_group(g, i)
    &&& forall|a: int, b1: int, b2: int|
        0 <= a < g.len() && 0 <= b1 < g[a].len() && 0 <= b2 < g[a].len() ==> joined(
            r,
            #[trigger] g[a]@[b1] as int,
            #[trigger] g[a]@[b2] as int,
        )
    &&& forall|a1: int, a2: int, b1: int, b2: int|
        0 <= a1 < g.len() && 0 <= a2 < g.len() && a1 != a2 && 0 <= b1 < g[a1].len() && 0 <= b2 < g[a2].len()
            ==> !joined(r, #[trigger] g[a1]@[b1] as int, #[trigger] g[a2]@[b2] as int)
}

/// The labelling of templates into groups `0..c` is sound: every label
/// is a group or `n` (none yet), each labelled template is joined to its
/// group's root and not before it, and groups are closed under sharing.
pub open spec fn labelling_ok(r: Seq<Vec<String>>, label: Seq<usize>, c: int, roots: Seq<int>) -> bool {
    &&& label.len() == r.len()
    &&& roots.len() >= c
    &&& forall|k: int| 0 <= k < label.len() ==> #[trigger] label[k] == r.len() || label[k] < c
    &&& forall|k: int|
        0 <= k < label.len() && #[trigger] label[k] < c ==> joined(r, roots[label[k] as int], k) && k
            >= roots[label[k] as int]
    &&& closed_below(r, label, c)
}

/// Labels template `i` and everything joined to it as group `c`.
fn spread(req_ids: &Vec<Vec<String>>, label: &mut Vec<usize>, i: usize, c: usize, Ghost(roots): Ghost<Seq<int>>)
    requires
        labelling_ok(req_ids@, old(label)@, c as int, roots),
        i < req_ids.len(),
        c < req_ids.len(),
        roots.len() == c + 1,
        roots[c as int] == i,
        old(label)@[i as int] == req_ids.len(),
        forall|k: int| 0 <= k < i ==> #[trigger] old(label)@[k] != req_ids.len(),
    ensures
        labelling_ok(req_ids@, final(label)@, c + 1, roots),
        final(label)@[i as int] == c,
        forall|k: int|
            0 <= k < final(label)@.len() ==> #[trigger] final(label)@[k] == old(label)@[k] || (old(label)@[k]
                == req_ids.len() && final(label)@[k] == c),
{
    let ghost r = req_ids@;
    let n = req_ids.len();
    let ghost label0 = label@;
    proof {
        lemma_count_update(label@, i as int, n, c);
        lemma_joined_refl(r, i as int);
    }
    label.set(i, c);
    let mut comp: Vec<usize> = Vec::new();
    comp.push(i);
    proof {
        assert forall|k: int| 0 <= k < n && #[trigger] label@[k] == c implies comp@.contains(k as usize) by {
            if k != i {
                assert(label@[k] == label0[k]);
            }
            assert(comp@[0] == i);
        }
    }
    let mut q: usize = 0;
    while q < comp.len()
        invariant
            r == req_ids@,
            label0.len() == n,
            n == r.len(),
            label.len() == n,
            i < n,
            c < n,
            roots.len() == c + 1,
            roots[c as int] == i,
            label@[i as int] == c,
            q <= comp.len(),
            forall|k: int| 0 <= k < n ==> #[trigger] label@[k] == n || label@[k] <= c,
            forall|k: int| 0 <= k < i ==> #[trigger] label@[k] != n,
            forall|k: int| 0 <= k < n ==> #[trigger] label@[k] == label0[k] || (label0[k] == n && label@[k] == c),
            forall|k: int|
                0 <= k < n && #[trigger] label@[k] <= c ==> joined(r, roots[label@[k] as int], k) && k
                    >= roots[label@[k] as int],
            closed_below(r, label@, c as int),
            forall|t: int| 0 <= t < comp.len() ==> (#[trigger] comp@[t]) < n && label@[comp@[t] as int] == c,
            forall|k: int| 0 <= k < n && #[trigger] label@[k] == c ==> comp@.contains(k as usize),
            forall|t: int, j: int|
                0 <= t < q && 0 <= j < n && #[trigger] shares(r, comp@[t] as int, j) ==> #[trigger] label@[j] == c,
        decreases count_eq(label@, n), comp.len() - q,
    {
        let x = comp[q];
        let ghost free0 = count_eq(label@, n);
        let ghost len0 = comp.len();
        let mut j: usize = 0;
        while j < n
            invariant
                r == req_ids@,
                label0.len() == n,
                n == r.len(),
                label.len() == n,
                i < n,
                c < n,
                roots.len() == c + 1,
                roots[c as int] == i,
                label@[i as int] == c,
                q < comp.len(),
                x == comp@[q as int],
                j <= n,
                count_eq(label@, n) <= free0,
                count_eq(label@, n) == free0 ==> comp.len() == len0,
                forall|k: int| 0 <= k < n ==> #[trigger] label@[k] == n || label@[k] <= c,
                forall|k: int| 0 <= k < i ==> #[trigger] label@[k] != n,
                forall|k: int| 0 <= k < n ==> #[trigger] label@[k] == label0[k] || (label0[k] == n && label@[k] == c),
                forall|k: int|
                    0 <= k < n && #[trigger] label@[k] <= c ==> joined(r, roots[label@[k] as int], k) && k
                        >= roots[label@[k] as int],
                closed_below(r, label@, c as int),
                forall|t: int| 0 <= t < comp.len() ==> (#[trigger] comp@[t]) < n && label@[comp@[t] as int] == c,
                forall|k: int| 0 <= k < n && #[trigger] label@[k] == c ==> comp@.contains(k as usize),
                forall|t: int, j2: int|
                    0 <= t < q && 0 <= j2 < n && #[trigger] shares(r, comp@[t] as int, j2) ==> #[trigger] label@[j2] == c,
                forall|j2: int| 0 <= j2 < j && #[trigger] shares(r, x as int, j2) ==> label@[j2] == c,
            decreases n - j,
        {
            if shares_exec(req_ids, x, j) {
                if label[j] == n {
                    let ghost before = label@;
                    let ghost comp0 = comp@;
                    proof {
                        lemma_count_update(label@, j as int, n, c);
                        assert(label@[x as int] == c);
                        assert(joined(r, roots[c as int], x as int));
                        lemma_joined_step(r, roots[c as int], x as int, j as int);
                        assert(j as int >= i) by {
                            if (j as int) < i {
                                assert(label@[j as int] != n);
                            }
                        }
                    }
                    label.set(j, c);
                    comp.push(j);
                    proof {
                        assert forall|k: int, j2: int|
                            0 <= k < n && 0 <= j2 < n && label@[k] < c && #[trigger] shares(r, k, j2) implies #[trigger] label@[j2]
                                == label@[k] by {
                            assert(label@[k] == before[k]);
                            assert(before[j2] == before[k]);
                        }
                        assert forall|t: int| 0 <= t < comp.len() implies (#[trigger] comp@[t]) < n && label@[comp@[t] as int]
                            == c by {
                            if t < comp0.len() {
                                assert(comp@[t] == comp0[t]);
                            }
                        }
                        assert forall|k: int| 0 <= k < n && #[trigger] label@[k] == c implies comp@.contains(k as usize) by {
                            if k == j {
                                assert(comp@[comp0.len() as int] == j);
                            } else {
                                assert(before[k] == c);
                                let t = choose|t: int| 0 <= t < comp0.len() && comp0[t] == k as usize;
                                assert(comp@[t] == comp0[t]);
                            }
                        }
                        assert forall|t: int, j2: int|
                            0 <= t < q && 0 <= j2 < n && #[trigger] shares(r, comp@[t] as int, j2) implies #[trigger] label@[j2]
                                == c by {
                            assert(comp@[t] == comp0[t]);
                            if j2 != j {
                                assert(before[j2] == c);
                            }
                        }
                    }
                } else {
                    proof {
                        if label@[j as int] != c {
                            lemma_shares_sym(r, x as int, j as int);
                            assert(label@[j as int] < c);
                            assert(label@[x as int] == label@[j as int]);
                        }
                    }
                }
            }
            j = j + 1;
        }
        proof {
            assert forall|t: int, j2: int|
                0 <= t < q + 1 && 0 <= j2 < n && #[trigger] shares(r, comp@[t] as int, j2) implies #[trigger] label@[j2]
                    == c by {
                if t == q {
                    assert(comp@[t] == x);
                }
            }
        }
        q = q + 1;
    }
    proof {
        assert forall|k: int, j2: int|
            0 <= k < n && 0 <= j2 < n && label@[k] < c + 1 && #[trigger] shares(r, k, j2) implies #[trigger] label@[j2]
                == label@[k] by {
            if label@[k] == c {
                let t = choose|t: int| 0 <= t < comp.len() && comp@[t] == k as usize;
                assert(shares(r, comp@[t] as int, j2));
            }
        }
        assert forall|k: int| 0 <= k < label.len() && #[trigger] label@[k] < c + 1 implies joined(
            r,
            roots[label@[k] as int],
            k,
        ) && k >= roots[label@[k] as int] by {
            assert(label@[k] <= c);
        }
    }
}

/// The templates labelled `c`, ascending.
fn collect_label(label: &Vec<usize>, c: usize, i: usize) -> (m: Vec<usize>)
    requires
        i < label.len(),
        label@[i as int] == c,
        forall|k: int| 0 <= k < label.len() && #[trigger] label@[k] == c ==> k >= i,
    ensures
        group_of(label@, m@, c as int, i as int),
{
    let n = label.len();
    let mut members: Vec<usize> = Vec::new();
    let mut j: usize = 0;
    while j < n
        invariant
            n == label.len(),
            i < n,
            label@[i as int] == c,
            forall|k: int| 0 <= k < n && #[trigger] label@[k] == c ==> k >= i,
            j <= n,
            forall|b: int| 0 <= b < members.len() ==> (#[trigger] members@[b]) < j && label@[members@[b] as int] == c,
            forall|b1: int, b2: int| 0 <= b1 < b2 < members.len() ==> #[trigger] members@[b1] < #[trigger] members@[b2],
            forall|k: int| 0 <= k < j && #[trigger] label@[k] == c ==> members@.contains(k as usize),
            j <= i ==> members.len() == 0,
            j > i ==> members.len() > 0 && members@[0] == i,
        decreases n - j,
    {
        if label[j] == c {
            let ghost m0 = members@;
            members.push(j);
            proof {
                assert forall|k: int| 0 <= k < j + 1 && #[trigger] label@[k] == c implies members@.contains(k as usize) by {
                    if k == j {
                        assert(members@[m0.len() as int] == j);
                    } else {
                        let b = choose|b: int| 0 <= b < m0.len() && m0[b] == k as usize;
                        assert(members@[b] == m0[b]);
                    }
                }
                if j > i {
                    assert(members@[0] == m0[0]);
                }
            }
        }
        j = j + 1;
    }
    members
}

/// Gathers templates into cascades: templates whose exemplars share a
/// request id are one fact, and so, transitively, are their partners.
/// `req_ids[i]` holds the request ids of template `i`'s exemplars.
pub fn cascade_groups(req_ids: &Vec<Vec<String>>) -> (g: Vec<Vec<usize>>)
    ensures
        is_cascade_partition(req_ids@, g@),
{
    let ghost r = req_ids@;
    let n = req_ids.len();
    let mut label: Vec<usize> = Vec::new();
    while label.len() < n
        invariant
            label.len() <= n,
            forall|k: int| 0 <= k < label.len() ==> #[trigger] label@[k] == n,
        decreases n - label.len(),
    {
        label.push(n);
    }
    let mut groups: Vec<Vec<usize>> = Vec::new();
    let ghost mut roots: Seq<int> = Seq::empty();
    let mut i: usize = 0;
    while i < n
        invariant
            r == req_ids@,
            n == r.len(),
            i <= n,
            groups.len() == roots.len(),
            groups.len() <= i,
            labelling_ok(r, label@, groups.len() as int, roots),
            forall|k: int| 0 <= k < i ==> #[trigger] label@[k] != n,
            forall|a: int| 0 <= a < groups.len() ==> group_of(label@, #[trigger] groups@[a]@, a, roots[a]),
            forall|a: int| 0 <= a < roots.len() ==> #[trigger] roots[a] < i,
            forall|a1: int, a2: int| 0 <= a1 < a2 < roots.len() ==> #[trigger] roots[a1] < #[trigger] roots[a2],
        decreases n - i,
    {
        if label[i] == n {
            let c = groups.len();
            let ghost label0 = label@;
            proof {
                roots = roots.push(i as int);
                assert(labelling_ok(r, label@, c as int, roots)) by {
                    assert forall|k: int| 0 <= k < label.len() && #[trigger] label@[k] < c implies joined(
                        r,
                        roots[label@[k] as int],
                        k,
                    ) && k >= roots[label@[k] as int] by {
                        assert(roots[label@[k] as int] == roots.drop_last()[label@[k] as int]);
                    }
                }
            }
            spread(req_ids, &mut label, i, c, Ghost(roots));
            proof {
                assert forall|k: int| 0 <= k < n && #[trigger] label@[k] == c implies k >= i by {
                    assert(label0[k] == n);
                    if k < i {
                        assert(label0[k] != n);
                    }
                }
            }
            let members = collect_label(&label, c, i);
            let ghost groups0 = groups@;
            groups.push(members);
            proof {
                assert forall|a: int| 0 <= a < groups.len() implies group_of(label@, #[trigger] groups@[a]@, a, roots[a]) by {
                    if a < c {
                        let g = groups@[a]@;
                        assert(groups@[a] == groups0[a]);
                        assert(group_of(label0, g, a, roots[a]));
                        assert forall|b: int| 0 <= b < g.len() implies (#[trigger] g[b]) < label.len() && label@[g[b] as int]
                            == a by {
                            assert(label0[g[b] as int] == a);
                        }
                        assert forall|k: int| 0 <= k < label.len() && #[trigger] label@[k] == a implies g.contains(k as usize) by {
                            assert(label0[k] == a);
                        }
                    }
                }
            }
        }
        i = i + 1;
    }
    proof {
        let g = groups@;
        let c = g.len() as int;
        assert forall|k: int| 0 <= k < n implies #[trigger] label@[k] < c by {
            assert(label@[k] != n);
        }
        assert forall|a: int, b: int| 0 <= a < g.len() && 0 <= b < g[a].len() implies (#[trigger] g[a]@[b]) < r.len() by {
            assert(group_of(label@, g[a]@, a, roots[a]));
        }
        assert forall|a: int, b1: int, b2: int|
            0 <= a < g.len() && 0 <= b1 < b2 < g[a].len() implies #[trigger] g[a]@[b1] < #[trigger] g[a]@[b2] by {
            assert(group_of(label@, g[a]@, a, roots[a]));
        }
        assert forall|a1: int, a2: int| 0 <= a1 < a2 < g.len() implies (#[trigger] g[a1])@[0] < (#[trigger] g[a2])@[0] by {
            assert(group_of(label@, g[a1]@, a1, roots[a1]));
            assert(group_of(label@, g[a2]@, a2, roots[a2]));
        }
        assert forall|k: int| 0 <= k < r.len() implies #[trigger] in_some_group(g, k) by {
            let a = label@[k] as int;
            assert(label@[k] < c);
            assert(group_of(label@, g[a]@, a, roots[a]));
            assert(g[a]@.contains(k as usize));
            let b = choose|b: int| 0 <= b < g[a]@.len() && g[a]@[b] == k as usize;
            assert(g[a]@[b] == k);
        }
        assert forall|a: int, b1: int, b2: int|
            0 <= a < g.len() && 0 <= b1 < g[a].len() && 0 <= b2 < g[a].len() implies joined(
                r,
                #[trigger] g[a]@[b1] as int,
                #[trigger] g[a]@[b2] as int,
            ) by {
            assert(group_of(label@, g[a]@, a, roots[a]));
            let (x, y) = (g[a]@[b1] as int, g[a]@[b2] as int);
            assert(label@[x] == a && label@[y] == a);
            assert(joined(r, roots[a], x));
            assert(joined(r, roots[a], y));
            lemma_joined_sym(r, roots[a], x);
            lemma_joined_trans(r, x, roots[a], y);
        }
        assert forall|a1: int, a2: int, b1: int, b2: int|
            0 <= a1 < g.len() && 0 <= a2 < g.len() && a1 != a2 && 0 <= b1 < g[a1].len() && 0 <= b2 < g[a2].len()
                implies !joined(r, #[trigger] g[a1]@[b1] as int, #[trigger] g[a2]@[b2] as int) by {
            assert(group_of(label@, g[a1]@, a1, roots[a1]));
            assert(group_of(label@, g[a2]@, a2, roots[a2]));
            let (x, y) = (g[a1]@[b1] as int, g[a2]@[b2] as int);
            assert(label@[x] == a1 && label@[y] == a2);
            if joined(r, x, y) {
                let p = choose|p: Seq<int>| is_walk(r, p) && p[0] == x && #[trigger] p.last() == y;
                lemma_walk_keeps_label(r, label@, c, p);
            }
        }
    }
    groups
}

} // verus!

verus! {

/// How a cascade's origin is told by level: ERROR and worse 2, WARNING 1,
/// the rest 0.
pub open spec fn level_class(level: Seq<char>) -> int {
    if level == "CRITICAL"@ || level == "FATAL"@ || level == "ERROR"@ {
        2
    } else if level == "WARNING"@ || level == "WARN"@ {
        1
    } else {
        0
    }
}

fn level_class_exec(level: &str) -> (r: u8)
    ensures
        r as int == level_class(level@),
{
    if str_eq(level, "CRITICAL") || str_eq(level, "FATAL") || str_eq(level, "ERROR") {
        2
    } else if str_eq(level, "WARNING") || str_eq(level, "WARN") {
        1
    } else {
        0
    }
}

/// `None` first, then by instant.
pub open spec fn opt_lt(a: Option<i64>, b: Option<i64>) -> bool {
    match (a, b) {
        (None, Some(_)) => true,
        (Some(x), Some(y)) => x < y,
        _ => false,
    }
}

/// Template `x` comes before template `y` in a cascade: first seen
/// earlier, then with a stack trace, then more severe, then by position.
pub open spec fn origin_before(first: Seq<Option<i64>>, stack: Seq<bool>, level: Seq<Seq<char>>, x: int, y: int) -> bool {
    ||| opt_lt(first[x], first[y])
    ||| (first[x] == first[y] && stack[x] && !stack[y])
    ||| (first[x] == first[y] && stack[x] == stack[y] && level_class(level[x]) > level_class(level[y]))
    ||| (first[x] == first[y] && stack[x] == stack[y] && level_class(level[x]) == level_class(level[y]) && x < y)
}

proof fn lemma_origin_trans(first: Seq<Option<i64>>, stack: Seq<bool>, level: Seq<Seq<char>>, x: int, y: int, z: int)
    requires
        origin_before(first, stack, level, x, y),
        origin_before(first, stack, level, y, z),
    ensures
        origin_before(first, stack, level, x, z),
{
}

proof fn lemma_origin_total(first: Seq<Option<i64>>, stack: Seq<bool>, level: Seq<Seq<char>>, x: int, y: int)
    requires
        x != y,
    ensures
        origin_before(first, stack, level, x, y) || origin_before(first, stack, level, y, x),
{
}

fn origin_before_exec(first: &Vec<Option<i64>>, stack: &Vec<bool>, level: &Vec<String>, x: usize, y: usize) -> (b: bool)
    requires
        x < first.len() && x < stack.len() && x < level.len(),
        y < first.len() && y < stack.len() && y < level.len(),
    ensures
        b == origin_before(first@, stack@, views(level@), x as int, y as int),
{
    let (fx, fy) = (first[x], first[y]);
    let lt = match (fx, fy) {
        (None, Some(_)) => true,
        (Some(a), Some(b)) => a < b,
        _ => false,
    };
    let same = match (fx, fy) {
        (None, None) => true,
        (Some(a), Some(b)) => a == b,
        _ => false,
    };
    let (cx, cy) = (level_class_exec(level[x].as_str()), level_class_exec(level[y].as_str()));
    proof {
        assert(views(level@)[x as int] == level@[x as int]@);
        assert(views(level@)[y as int] == level@[y as int]@);
    }
    lt || (same && stack[x] && !stack[y]) || (same && stack[x] == stack[y] && cx > cy) || (same && stack[x]
        == stack[y] && cx == cy && x < y)
}

/// A cascade's templates in origin order: the origin first (earliest first
/// seen, then one with a stack trace, then the most severe), the rest
/// after it in the same order. `first`, `stack` and `level` are indexed by
/// template.
pub fn origin_order(
    members: &Vec<usize>,
    first: &Vec<Option<i64>>,
    stack: &Vec<bool>,
    level: &Vec<String>,
) -> (r: Vec<usize>)
    requires
        forall|a: int| 0 <= a < members.len() ==> (#[trigger] members@[a]) < first.len() && members@[a] < stack.len()
            && members@[a] < level.len(),
        forall|a: int, b: int| 0 <= a < b < members.len() ==> #[trigger] members@[a] != #[trigger] members@[b],
    ensures
        r.len() == members.len(),
        forall|a: int| 0 <= a < r.len() ==> members@.contains(#[trigger] r@[a]),
        forall|a: int| 0 <= a < members.len() ==> r@.contains(#[trigger] members@[a]),
        forall|a: int, b: int|
            0 <= a < b < r.len() ==> origin_before(first@, stack@, views(level@), #[trigger] r@[a] as int, #[trigger] r@[b] as int),
        forall|a: int, b: int|
            #![trigger r@[a], r@[b]]
            0 <= a < b < r.len() ==> (first@[r@[a] as int] == first@[r@[b] as int] || first@[r@[a] as int] is None
                || (first@[r@[a] as int] is Some && first@[r@[b] as int] is Some && first@[r@[a] as int]->0
                < first@[r@[b] as int]->0)) && (first@[r@[a] as int] == first@[r@[b] as int] ==> stack@[r@[a] as int]
                || !stack@[r@[b] as int]),
        forall|a: int, b: int|
            #![trigger r@[a], r@[b]]
            0 <= a < b < r.len() && first@[r@[a] as int] == first@[r@[b] as int] && stack@[r@[a] as int]
                == stack@[r@[b] as int] && (level@[r@[a] as int]@ == "WARN"@ || level@[r@[a] as int]@
                == "WARNING"@) ==> !(level@[r@[b] as int]@ == "ERROR"@ || level@[r@[b] as int]@
                == "CRITICAL"@ || level@[r@[b] as int]@ == "FATAL"@),
        forall|a: int, b: int|
            #![trigger r@[a], r@[b]]
            0 <= a < b < r.len() && first@[r@[a] as int] == first@[r@[b] as int] && stack@[r@[a] as int]
                == stack@[r@[b] as int] && (level@[r@[a] as int]@ == "ERROR"@ || level@[r@[a] as int]@
                == "CRITICAL"@ || level@[r@[a] as int]@ == "FATAL"@) && (level@[r@[b] as int]@ == "ERROR"@
                || level@[r@[b] as int]@ == "CRITICAL"@ || level@[r@[b] as int]@ == "FATAL"@) ==> r@[a] < r@[b],
{
    let ghost (f, s, l) = (first@, stack@, views(level@));
    let mut out: Vec<usize> = Vec::new();
    let mut i: usize = 0;
    while i < members.len()
        invariant
            i <= members.len(),
            f == first@ && s == stack@ && l == views(level@),
            forall|a: int| 0 <= a < members.len() ==> (#[trigger] members@[a]) < first.len() && members@[a] < stack.len()
                && members@[a] < level.len(),
            forall|a: int, b: int| 0 <= a < b < members.len() ==> #[trigger] members@[a] != #[trigger] members@[b],
            out.len() == i,
            forall|a: int| 0 <= a < out.len() ==> members@.take(i as int).contains(#[trigger] out@[a]),
            forall|a: int| 0 <= a < i ==> out@.contains(#[trigger] members@[a]),
            forall|a: int, b: int| 0 <= a < b < out.len() ==> origin_before(f, s, l, #[trigger] out@[a] as int, #[trigger] out@[b] as int),
        decreases members.len() - i,
    {
        let m = members[i];
        let mut q: usize = 0;
        while q < out.len() && !origin_before_exec(first, stack, level, m, out[q])
            invariant
                q <= out.len(),
                out.len() == i,
                i < members.len(),
                m == members@[i as int],
                f == first@ && s == stack@ && l == views(level@),
                forall|a: int| 0 <= a < members.len() ==> (#[trigger] members@[a]) < first.len() && members@[a] < stack.len()
                    && members@[a] < level.len(),
                forall|a: int, b: int| 0 <= a < b < members.len() ==> #[trigger] members@[a] != #[trigger] members@[b],
                forall|a: int| 0 <= a < out.len() ==> members@.take(i as int).contains(#[trigger] out@[a]),
                forall|a: int| 0 <= a < q ==> origin_before(f, s, l, #[trigger] out@[a] as int, m as int),
            decreases out.len() - q,
        {
            proof {
                let k = choose|k: int| 0 <= k < i && members@.take(i as int)[k] == out@[q as int];
                assert(members@[k] == out@[q as int]);
                assert(members@[k] != members@[i as int]);
                lemma_origin_total(f, s, l, m as int, out@[q as int] as int);
            }
            q = q + 1;
        }
        let ghost before = out@;
        proof {
            assert forall|a: int| q <= a < before.len() implies origin_before(f, s, l, m as int, #[trigger] before[a] as int) by {
                assert(origin_before(f, s, l, m as int, before[q as int] as int));
                if a > q {
                    assert(origin_before(f, s, l, before[q as int] as int, before[a] as int));
                    lemma_origin_trans(f, s, l, m as int, before[q as int] as int, before[a] as int);
                }
            }
        }
        out.insert(q, m);
        proof {
            assert forall|a: int, b: int| 0 <= a < b < out.len() implies origin_before(
                f,
                s,
                l,
                #[trigger] out@[a] as int,
                #[trigger] out@[b] as int,
            ) by {
                if b < q {
                    assert(out@[a] == before[a] && out@[b] == before[b]);
                } else if b == q {
                    assert(out@[a] == before[a]);
                } else if a == q {
                    assert(out@[b] == before[b - 1]);
                } else if a < q {
                    assert(out@[a] == before[a] && out@[b] == before[b - 1]);
                } else {
                    assert(out@[a] == before[a - 1] && out@[b] == before[b - 1]);
                }
            }
            assert forall|a: int| 0 <= a < out.len() implies members@.take(i + 1).contains(#[trigger] out@[a]) by {
                if a == q {
                    assert(members@.take(i + 1)[i as int] == m);
                } else {
                    let x = if a < q { before[a] } else { before[a - 1] };
                    assert(out@[a] == x);
                    assert(members@.take(i as int).contains(x));
                    let k = choose|k: int| 0 <= k < i && members@.take(i as int)[k] == x;
                    assert(members@.take(i + 1)[k] == x);
                }
            }
            assert forall|a: int| 0 <= a < i + 1 implies out@.contains(#[trigger] members@[a]) by {
                if a == i {
                    assert(out@[q as int] == m);
                } else {
                    let k = choose|k: int| 0 <= k < before.len() && before[k] == members@[a];
                    if k < q {
                        assert(out@[k] == before[k]);
                    } else {
                        assert(out@[k + 1] == before[k]);
                    }
                }
            }
        }
        i = i + 1;
    }
    proof {
        assert(members@.take(members.len() as int) =~= members@);
        assert forall|a: int, b: int|
            #![trigger out@[a], out@[b]]
            0 <= a < b < out.len() && first@[out@[a] as int] == first@[out@[b] as int] && stack@[out@[a] as int]
                == stack@[out@[b] as int] && (level@[out@[a] as int]@ == "WARN"@ || level@[out@[a] as int]@
                == "WARNING"@) implies !(level@[out@[b] as int]@ == "ERROR"@ || level@[out@[b] as int]@
                == "CRITICAL"@ || level@[out@[b] as int]@ == "FATAL"@) by {
            let (x, y) = (out@[a] as int, out@[b] as int);
            assert(l[x] == level@[x]@ && l[y] == level@[y]@);
            assert(origin_before(f, s, l, x, y));
            if level@[y]@ == "ERROR"@ || level@[y]@ == "CRITICAL"@ || level@[y]@ == "FATAL"@ {
                law_errors_come_before_warnings(f, s, l, y, x);
            }
        }
        assert forall|a: int, b: int|
            #![trigger out@[a], out@[b]]
            0 <= a < b < out.len() && first@[out@[a] as int] == first@[out@[b] as int] && stack@[out@[a] as int]
                == stack@[out@[b] as int] && (level@[out@[a] as int]@ == "ERROR"@ || level@[out@[a] as int]@
                == "CRITICAL"@ || level@[out@[a] as int]@ == "FATAL"@) && (level@[out@[b] as int]@ == "ERROR"@
                || level@[out@[b] as int]@ == "CRITICAL"@ || level@[out@[b] as int]@ == "FATAL"@) implies out@[a]
                < out@[b] by {
            let (x, y) = (out@[a] as int, out@[b] as int);
            assert(l[x] == level@[x]@ && l[y] == level@[y]@);
            assert(origin_before(f, s, l, x, y));
            law_severe_levels_rank_alike(f, s, l, x, y);
        }
    }
    out
}

} // verus!

verus! {

// ------------------------------------------------------------------ the bundle's order

/// Position `p` holds the first fact of its kind.
pub open spec fn first_of_kind(k: Seq<Kind>, p: int) -> bool {
    forall|q: int| 0 <= q < p ==> k[q] != k[p]
}

pub open spec fn head_at(k: Seq<Kind>) -> spec_fn(int) -> bool {
    |p: int| first_of_kind(k, p)
}

pub open spec fn rest_at(k: Seq<Kind>) -> spec_fn(int) -> bool {
    |p: int| !first_of_kind(k, p)
}

/// The order of a bundle, given the kinds of its facts in score order: the
/// best fact of each kind first (a kind-diverse head, still in score
/// order), then the others in score order. Positions index the score order.
pub fn kind_diverse_order(kinds: &Vec<Kind>) -> (r: Vec<usize>)
    ensures
        ints(r@) == indices_where(kinds.len() as nat, head_at(kinds@)) + indices_where(
            kinds.len() as nat,
            rest_at(kinds@),
        ),
{
    let ghost k = kinds@;
    let mut head: Vec<usize> = Vec::new();
    let mut rest: Vec<usize> = Vec::new();
    let mut seen_t = false;
    let mut seen_c = false;
    let mut seen_d = false;
    let mut p: usize = 0;
    while p < kinds.len()
        invariant
            p <= kinds.len(),
            k == kinds@,
            seen_t == exists|q: int| 0 <= q < p && k[q] == Kind::Template,
            seen_c == exists|q: int| 0 <= q < p && k[q] == Kind::Changepoint,
            seen_d == exists|q: int| 0 <= q < p && k[q] == Kind::Deploy,
            ints(head@) == indices_where(p as nat, head_at(k)),
            ints(rest@) == indices_where(p as nat, rest_at(k)),
        decreases kinds.len() - p,
    {
        let kp = kinds[p];
        let first = match kp {
            Kind::Template => !seen_t,
            Kind::Changepoint => !seen_c,
            Kind::Deploy => !seen_d,
        };
        proof {
            if first {
                assert forall|q: int| 0 <= q < p implies k[q] != k[p as int] by {
                    assert(kp == k[p as int]);
                }
            } else {
                let q = choose|q: int| 0 <= q < p && k[q] == kp;
                assert(k[q] == k[p as int]);
            }
            assert(first == head_at(k)(p as int));
        }
        if first {
            proof {
                assert(ints(head@.push(p)) =~= ints(head@).push(p as int));
            }
            head.push(p);
        } else {
            proof {
                assert(ints(rest@.push(p)) =~= ints(rest@).push(p as int));
            }
            rest.push(p);
        }
        match kp {
            Kind::Template => {
                seen_t = true;
            },
            Kind::Changepoint => {
                seen_c = true;
            },
            Kind::Deploy => {
                seen_d = true;
            },
        }
        p = p + 1;
    }
    let ghost h = head@;
    let mut out = head;
    let mut j: usize = 0;
    while j < rest.len()
        invariant
            j <= rest.len(),
            out@ == h + rest@.take(j as int),
        decreases rest.len() - j,
    {
        proof {
            assert(rest@.take(j + 1) =~= rest@.take(j as int).push(rest@[j as int]));
            assert(h + rest@.take(j + 1) =~= (h + rest@.take(j as int)).push(rest@[j as int]));
        }
        out.push(rest[j]);
        j = j + 1;
    }
    proof {
        assert(rest@.take(rest.len() as int) =~= rest@);
        assert(ints(h + rest@) =~= ints(h) + ints(rest@));
    }
    out
}

} // verus!

verus! {

// ------------------------------------------------------------------ the onset estimate

/// A changepoint as the onset estimate reads it.
pub struct OnsetChange {
    pub metric: String,
    pub direction: String,
    /// When the run began, if its time reads.
    pub at: Option<i64>,
}

/// A novel template as the onset estimate reads it.
pub struct OnsetTemplate {
    pub dominant_level: String,
    /// When it was first seen in the window, if its time reads.
    pub first_seen: Option<i64>,
}

/// Where the onset estimate came from.
#[derive(Clone, Copy, Debug, PartialEq, Eq, Structural)]
pub enum OnsetSource {
    EarliestErrorChangepoint,
    EarliestNovelErrorTemplate,
    WindowEnd,
}

impl OnsetSource {
    pub fn as_str(self) -> (s: &'static str)
        ensures
            s@ == match self {
                OnsetSource::EarliestErrorChangepoint => "earliest_error_changepoint"@,
                OnsetSource::EarliestNovelErrorTemplate => "earliest_novel_error_template"@,
                OnsetSource::WindowEnd => "window_end"@,
            },
    {
        match self {
            OnsetSource::EarliestErrorChangepoint => "earliest_error_changepoint",
            OnsetSource::EarliestNovelErrorTemplate => "earliest_novel_error_template",
            OnsetSource::WindowEnd => "window_end",
        }
    }
}

/// An upward step in an error series.
pub open spec fn error_step(c: OnsetChange) -> bool {
    (c.metric@ == "error_rate"@ || c.metric@ == "errors_total"@) && c.direction@ == "up"@
}

/// The earlier of a time and an optional time.
pub open spec fn earlier_of(t: i64, best: Option<i64>) -> Option<i64> {
    match best {
        Some(b) => Some(if t < b {
            t
        } else {
            b
        }),
        None => Some(t),
    }
}

/// The earliest start among the first `n` error steps whose time reads.
pub open spec fn earliest_error_step(cps: Seq<OnsetChange>, n: int) -> Option<i64>
    decreases n,
{
    if n <= 0 || n > cps.len() {
        None
    } else {
        let r = earliest_error_step(cps, n - 1);
        if error_step(cps[n - 1]) && cps[n - 1].at is Some {
            earlier_of(cps[n - 1].at->0, r)
        } else {
            r
        }
    }
}

/// The earliest first sighting among the first `n` templates at error
/// severity or above whose time reads.
pub open spec fn earliest_error_template(ts: Seq<OnsetTemplate>, n: int) -> Option<i64>
    decreases n,
{
    if n <= 0 || n > ts.len() {
        None
    } else {
        let r = earliest_error_template(ts, n - 1);
        if severity_of(ts[n - 1].dominant_level@) >= 3 && ts[n - 1].first_seen is Some {
            earlier_of(ts[n - 1].first_seen->0, r)
        } else {
            r
        }
    }
}

/// The onset estimate T0: the earliest error step among the changepoints,
/// else the earliest novel template at error severity, else the window's
/// end.
pub open spec fn onset(cps: Seq<OnsetChange>, ts: Seq<OnsetTemplate>, window_end: i64) -> (i64, OnsetSource) {
    match earliest_error_step(cps, cps.len() as int) {
        Some(t) => (t, OnsetSource::EarliestErrorChangepoint),
        None => match earliest_error_template(ts, ts.len() as int) {
            Some(t) => (t, OnsetSource::EarliestNovelErrorTemplate),
            None => (window_end, OnsetSource::WindowEnd),
        },
    }
}

/// The bundle's onset estimate (see `onset`).
pub fn incident_onset(cps: &Vec<OnsetChange>, templates: &Vec<OnsetTemplate>, window_end: i64) -> (r: (i64, OnsetSource))
    ensures
        r == onset(cps@, templates@, window_end),
        r.1 == OnsetSource::WindowEnd ==> r.0 == window_end,
        (r.1 == OnsetSource::EarliestErrorChangepoint) <==> exists|i: int|
            0 <= i < cps.len() && (#[trigger] cps@[i]).direction@ == "up"@ && (cps@[i].metric@ == "error_rate"@
                || cps@[i].metric@ == "errors_total"@) && cps@[i].at is Some,
        r.1 == OnsetSource::EarliestErrorChangepoint ==> exists|i: int|
            0 <= i < cps.len() && (#[trigger] cps@[i]).direction@ == "up"@ && (cps@[i].metric@ == "error_rate"@
                || cps@[i].metric@ == "errors_total"@) && cps@[i].at == Some(r.0),
        r.1 == OnsetSource::EarliestErrorChangepoint ==> forall|i: int|
            0 <= i < cps.len() && (#[trigger] cps@[i]).direction@ == "up"@ && (cps@[i].metric@ == "error_rate"@
                || cps@[i].metric@ == "errors_total"@) && cps@[i].at is Some ==> r.0 <= cps@[i].at->0,
{
    proof {
        law_onset_is_the_earliest_upward_error_step(cps@, templates@, window_end);
    }
    let mut best: Option<i64> = None;
    let mut i: usize = 0;
    while i < cps.len()
        invariant
            i <= cps.len(),
            best == earliest_error_step(cps@, i as int),
        decreases cps.len() - i,
    {
        let c = &cps[i];
        let err = (str_eq(c.metric.as_str(), "error_rate") || str_eq(c.metric.as_str(), "errors_total")) && str_eq(
            c.direction.as_str(),
            "up",
        );
        if err {
            if let Some(t) = c.at {
                best = match best {
                    Some(b) => Some(if t < b {
                        t
                    } else {
                        b
                    }),
                    None => Some(t),
                };
            }
        }
        i = i + 1;
    }
    if let Some(t) = best {
        return (t, OnsetSource::EarliestErrorChangepoint);
    }
    let mut k: usize = 0;
    while k < templates.len()
        invariant
            k <= templates.len(),
            best == earliest_error_template(templates@, k as int),
        decreases templates.len() - k,
    {
        let x = &templates[k];
        if severity_rank(x.dominant_level.as_str()) >= 3 {
            if let Some(t) = x.first_seen {
                best = match best {
                    Some(b) => Some(if t < b {
                        t
                    } else {
                        b
                    }),
                    None => Some(t),
                };
            }
        }
        k = k + 1;
    }
    match best {
        Some(t) => (t, OnsetSource::EarliestNovelErrorTemplate),
        None => (window_end, OnsetSource::WindowEnd),
    }
}

} // verus!

verus! {

// ------------------------------------------------------------------ changepoint cascades

/// A changepoint as the cascade grouping reads it.
pub struct CascadePoint {
    /// When its run began, if its time reads.
    pub at: Option<i64>,
    /// An upward step in an error series.
    pub error_step: bool,
    /// The logical service whose series it is.
    pub service: String,
}

/// The sort key of a changepoint's start: one whose time does not read
/// sorts first.
pub open spec fn start_key(p: CascadePoint) -> int {
    match p.at {
        Some(t) => t as int,
        None => i64::MIN - 1,
    }
}

/// Position `a` comes before `b` by start, equal starts in position order.
pub open spec fn starts_before(pts: Seq<CascadePoint>, a: int, b: int) -> bool {
    start_key(pts[a]) < start_key(pts[b]) || (start_key(pts[a]) == start_key(pts[b]) && a < b)
}

/// `o` lists the positions `s` lists, ordered by start, equal starts in
/// position order.
pub open spec fn ordered_by_start(pts: Seq<CascadePoint>, s: Seq<int>, o: Seq<int>) -> bool {
    &&& o.len() == s.len()
    &&& forall|x: int| #![trigger o.contains(x)] #![trigger s.contains(x)] o.contains(x) <==> s.contains(x)
    &&& forall|i: int, j: int| #![trigger o[i], o[j]] 0 <= i < j < o.len() ==> starts_before(pts, o[i], o[j])
}

/// Every position of `pts`, in position order.
pub open spec fn positions(n: nat) -> Seq<int> {
    Seq::new(n, |i: int| i)
}

proof fn lemma_positions(n: nat, y: int)
    ensures
        positions(n).contains(y) <==> 0 <= y < n,
{
    if 0 <= y < n {
        assert(positions(n)[y] == y);
    }
}

/// The positions of `pts` ordered by start: a stable sort.
pub open spec fn start_order(pts: Seq<CascadePoint>) -> Seq<int> {
    choose|o: Seq<int>| ordered_by_start(pts, positions(pts.len()), o)
}

proof fn lemma_start_distinct(pts: Seq<CascadePoint>, o: Seq<int>, i: int, j: int)
    requires
        forall|i: int, j: int| #![trigger o[i], o[j]] 0 <= i < j < o.len() ==> starts_before(pts, o[i], o[j]),
        0 <= i < o.len(),
        0 <= j < o.len(),
        i != j,
    ensures
        o[i] != o[j],
{
    if i < j {
        assert(starts_before(pts, o[i], o[j]));
    } else {
        assert(starts_before(pts, o[j], o[i]));
    }
}

proof fn lemma_start_order_unique(pts: Seq<CascadePoint>, s: Seq<int>, o1: Seq<int>, o2: Seq<int>)
    requires
        ordered_by_start(pts, s, o1),
        ordered_by_start(pts, s, o2),
    ensures
        o1 == o2,
    decreases o1.len(),
{
    if o1.len() == 0 {
        assert(o1 =~= o2);
    } else {
        let a = o1[0];
        let b = o2[0];
        assert(o2.contains(b));
        assert(s.contains(b));
        assert(o1.contains(b));
        let j = choose|j: int| 0 <= j < o1.len() && o1[j] == b;
        assert(o1.contains(a));
        assert(s.contains(a));
        assert(o2.contains(a));
        let k = choose|k: int| 0 <= k < o2.len() && o2[k] == a;
        if a != b {
            assert(starts_before(pts, o1[0], o1[j]));
            assert(starts_before(pts, o2[0], o2[k]));
        }
        let r1 = o1.drop_first();
        let r2 = o2.drop_first();
        assert forall|x: int| #![trigger r2.contains(x)] #![trigger r1.contains(x)] r2.contains(x) <==> r1.contains(x) by {
            if r2.contains(x) {
                let i = choose|i: int| 0 <= i < r2.len() && r2[i] == x;
                lemma_start_distinct(pts, o2, 0, i + 1);
                assert(o2.contains(x));
                assert(o1.contains(x));
                let i1 = choose|i1: int| 0 <= i1 < o1.len() && o1[i1] == x;
                assert(i1 != 0);
                assert(r1[i1 - 1] == x);
            }
            if r1.contains(x) {
                let i = choose|i: int| 0 <= i < r1.len() && r1[i] == x;
                lemma_start_distinct(pts, o1, 0, i + 1);
                assert(o1.contains(x));
                assert(o2.contains(x));
                let i2 = choose|i2: int| 0 <= i2 < o2.len() && o2[i2] == x;
                assert(i2 != 0);
                assert(r2[i2 - 1] == x);
            }
        }
        assert forall|i: int, j: int| #![trigger r1[i], r1[j]] 0 <= i < j < r1.len() implies starts_before(pts, r1[i], r1[j]) by {
            assert(starts_before(pts, o1[i + 1], o1[j + 1]));
        }
        assert forall|i: int, j: int| #![trigger r2[i], r2[j]] 0 <= i < j < r2.len() implies starts_before(pts, r2[i], r2[j]) by {
            assert(starts_before(pts, o2[i + 1], o2[j + 1]));
        }
        assert(ordered_by_start(pts, r1, r1));
        assert(ordered_by_start(pts, r1, r2));
        lemma_start_order_unique(pts, r1, r1, r2);
        assert forall|i: int| 0 <= i < o1.len() implies o1[i] == o2[i] by {
            if i > 0 {
                assert(o1[i] == r1[i - 1]);
                assert(o2[i] == r2[i - 1]);
            }
        }
        assert(o1 =~= o2);
    }
}

fn start_key_exec(p: &CascadePoint) -> (k: i128)
    ensures
        k == start_key(*p),
{
    match p.at {
        Some(t) => t as i128,
        None => i64::MIN as i128 - 1,
    }
}

/// The positions of `pts` ordered by start (see `start_order`).
pub fn order_by_start(pts: &Vec<CascadePoint>) -> (o: Vec<usize>)
    ensures
        ints(o@) == start_order(pts@),
        ordered_by_start(pts@, positions(pts.len() as nat), ints(o@)),
{
    let ghost ps = pts@;
    let mut o: Vec<usize> = Vec::new();
    let mut x: usize = 0;
    proof {
        assert(ints(o@) =~= Seq::<int>::empty());
    }
    while x < pts.len()
        invariant
            ps == pts@,
            x <= pts.len(),
            o.len() == x,
            forall|i: int| 0 <= i < o.len() ==> o@[i] < x,
            ordered_by_start(ps, positions(x as nat), ints(o@)),
        decreases pts.len() - x,
    {
        let ghost o0 = o@;
        let kx = start_key_exec(&pts[x]);
        let mut p: usize = o.len();
        while p > 0 && start_key_exec(&pts[o[p - 1]]) > kx
            invariant
                o@ == o0,
                x < pts.len(),
                p <= o.len(),
                forall|i: int| 0 <= i < o.len() ==> o@[i] < x,
                kx == start_key(ps[x as int]),
                ps == pts@,
                forall|q: int| p <= q < o.len() ==> start_key(ps[#[trigger] o@[q] as int]) > kx,
            decreases p,
        {
            p = p - 1;
        }
        o.insert(p, x);
        proof {
            o0.insert_ensures(p as int, x);
            let n = o@;
            let io = ints(n);
            let i0 = ints(o0);
            assert forall|i: int, j: int| #![trigger io[i], io[j]] 0 <= i < j < io.len() implies starts_before(ps, io[i], io[j]) by {
                assert(io[i] == n[i] as int && io[j] == n[j] as int);
                if j < p {
                    assert(n[i] == o0[i] && n[j] == o0[j]);
                    assert(starts_before(ps, i0[i], i0[j]));
                } else if i > p {
                    assert(n[i] == o0[i - 1] && n[j] == o0[j - 1]);
                    assert(starts_before(ps, i0[i - 1], i0[j - 1]));
                } else if i < p && j > p {
                    assert(n[i] == o0[i] && n[j] == o0[j - 1]);
                    assert(starts_before(ps, i0[i], i0[j - 1]));
                } else if j == p {
                    assert(n[i] == o0[i] && n[j] == x);
                    if i < p - 1 {
                        assert(starts_before(ps, i0[i], i0[p - 1]));
                    }
                    assert(start_key(ps[o0[p - 1] as int]) <= kx);
                } else {
                    assert(n[i] == x && n[j] == o0[j - 1]);
                }
            }
            assert forall|y: int| #![trigger io.contains(y)] #![trigger positions((x + 1) as nat).contains(y)] io.contains(y) <==> positions(
                (x + 1) as nat,
            ).contains(y) by {
                lemma_positions(x as nat, y);
                lemma_positions((x + 1) as nat, y);
                if io.contains(y) {
                    let i = choose|i: int| 0 <= i < io.len() && io[i] == y;
                    if i < p {
                        assert(i0[i] == y);
                        assert(i0.contains(y));
                    } else if i > p {
                        assert(i0[i - 1] == y);
                        assert(i0.contains(y));
                    }
                }
                if 0 <= y < x + 1 {
                    if y < x {
                        assert(i0.contains(y));
                        let i = choose|i: int| 0 <= i < i0.len() && i0[i] == y;
                        if i < p {
                            assert(io[i] == y);
                        } else {
                            assert(io[i + 1] == y);
                        }
                    } else {
                        assert(io[p as int] == y);
                    }
                }
            }
            assert forall|i: int| 0 <= i < n.len() implies n[i] < x + 1 by {
                if i < p {
                    assert(n[i] == o0[i]);
                } else if i > p {
                    assert(n[i] == o0[i - 1]);
                }
            }
        }
        x = x + 1;
    }
    proof {
        let c = choose|c: Seq<int>| ordered_by_start(ps, positions(ps.len()), c);
        lemma_start_order_unique(ps, positions(ps.len()), c, ints(o@));
    }
    o
}


/// Services `a` and `b` are connected over the topology: the same service,
/// or one reachable from the other.
pub open spec fn connected(e: Seq<(Seq<char>, Seq<char>)>, a: Seq<char>, b: Seq<char>) -> bool {
    a == b || exists|k: nat| crate::rank::within(e, a, b, k)
}

/// Are services `a` and `b` connected over `edges` (see `connected`)?
fn connected_exec(a: &str, b: &str, edges: &Vec<(String, String)>) -> (r: bool)
    ensures
        r == connected(crate::rank::edge_views(edges@), a@, b@),
{
    if str_eq(a, b) {
        return true;
    }
    let d = crate::rank::hop_distances(a, edges);
    let found = crate::rank::position(&d, b);
    proof {
        let e = crate::rank::edge_views(edges@);
        match found {
            Some(i) => {
                assert(crate::rank::hops(e, a@, d@[i as int].0@, d@[i as int].1 as nat));
            },
            None => {
                assert forall|k: nat| !crate::rank::within(e, a@, b@, k) by {
                    if crate::rank::within(e, a@, b@, k) {
                        assert(crate::rank::names(d@).contains(b@));
                        let i = choose|i: int| 0 <= i < crate::rank::names(d@).len() && crate::rank::names(d@)[i] == b@;
                        assert(d@[i].0@ == b@);
                    }
                }
            },
        }
    }
    found.is_some()
}

/// A changepoint's start when measuring distances: the window's end when
/// its time does not read.
pub open spec fn start_or(p: CascadePoint, end: i64) -> int {
    match p.at {
        Some(t) => t as int,
        None => end as int,
    }
}

/// Changepoint `j` joins the cascade of changepoint `o`: both are error
/// steps, their starts lie within `cascade_ms` whole milliseconds of each
/// other, and their services are connected.
pub open spec fn joins(pts: Seq<CascadePoint>, e: Seq<(Seq<char>, Seq<char>)>, end: i64, cascade_ms: int, o: int, j: int) -> bool {
    let gap = crate::tools::div_toward_zero(start_or(pts[j], end) - start_or(pts[o], end), 1000);
    &&& pts[o].error_step
    &&& pts[j].error_step
    &&& (if gap < 0 {
        -gap
    } else {
        gap
    }) <= cascade_ms
    &&& connected(e, pts[o].service@, pts[j].service@)
}

/// The changepoints among the first `n` of `ord` that are not used yet and
/// join `o`'s cascade, in that order.
pub open spec fn joiners(
    pts: Seq<CascadePoint>,
    ord: Seq<int>,
    e: Seq<(Seq<char>, Seq<char>)>,
    end: i64,
    c: int,
    o: int,
    used: Seq<bool>,
    n: int,
) -> Seq<int>
    decreases n,
{
    if n <= 0 || n > ord.len() {
        Seq::empty()
    } else {
        let r = joiners(pts, ord, e, end, c, o, used, n - 1);
        let j = ord[n - 1];
        if 0 <= j < used.len() && !used[j] && joins(pts, e, end, c, o, j) {
            r.push(j)
        } else {
            r
        }
    }
}

/// `u` with the positions `m` marked.
pub open spec fn mark_all(u: Seq<bool>, m: Seq<int>) -> Seq<bool>
    decreases m.len(),
{
    if m.len() == 0 {
        u
    } else {
        mark_all(u, m.drop_last()).update(m.last(), true)
    }
}

/// The cascades once the first `p` changepoints of `ord` were visited:
/// which are used, and each cascade as its origin and members. A visited
/// changepoint not used yet is an origin; the unused error steps that join
/// it become its members.
pub open spec fn cascades_upto(
    pts: Seq<CascadePoint>,
    ord: Seq<int>,
    e: Seq<(Seq<char>, Seq<char>)>,
    end: i64,
    c: int,
    p: int,
) -> (Seq<bool>, Seq<(int, Seq<int>)>)
    decreases p,
{
    if p <= 0 || p > ord.len() {
        (Seq::new(pts.len(), |i: int| false), Seq::empty())
    } else {
        let (u, gs) = cascades_upto(pts, ord, e, end, c, p - 1);
        let o = ord[p - 1];
        if u[o] {
            (u, gs)
        } else {
            let u0 = u.update(o, true);
            let m = joiners(pts, ord, e, end, c, o, u0, ord.len() as int);
            (mark_all(u0, m), gs.push((o, m)))
        }
    }
}

/// The changepoints' cascades: visited in start order, each changepoint
/// not yet taken becomes an origin, and the error steps within
/// `cascade_ms` of an error-step origin on connected services become its
/// members.
pub open spec fn cascades(pts: Seq<CascadePoint>, e: Seq<(Seq<char>, Seq<char>)>, end: i64, c: int) -> Seq<(int, Seq<int>)> {
    cascades_upto(pts, start_order(pts), e, end, c, pts.len() as int).1
}

/// Cascades by their views.
pub open spec fn cascade_views(g: Seq<(usize, Vec<usize>)>) -> Seq<(int, Seq<int>)> {
    g.map_values(|x: (usize, Vec<usize>)| (x.0 as int, ints(x.1@)))
}

proof fn lemma_mark_all(u: Seq<bool>, m: Seq<int>, x: int)
    requires
        forall|k: int| 0 <= k < m.len() ==> 0 <= #[trigger] m[k] < u.len(),
    ensures
        mark_all(u, m).len() == u.len(),
        0 <= x < u.len() ==> mark_all(u, m)[x] == (u[x] || m.contains(x)),
    decreases m.len(),
{
    if m.len() > 0 {
        lemma_mark_all(u, m.drop_last(), x);
        if 0 <= x < u.len() && m.drop_last().contains(x) {
            let k = choose|k: int| 0 <= k < m.drop_last().len() && m.drop_last()[k] == x;
            assert(m[k] == x);
        }
        if 0 <= x < u.len() && m.contains(x) && x != m.last() {
            let k = choose|k: int| 0 <= k < m.len() && m[k] == x;
            assert(m.drop_last()[k] == x);
        }
    }
}

proof fn lemma_joiners_in_range(
    pts: Seq<CascadePoint>,
    ord: Seq<int>,
    e: Seq<(Seq<char>, Seq<char>)>,
    end: i64,
    c: int,
    o: int,
    used: Seq<bool>,
    n: int,
)
    ensures
        forall|k: int| 0 <= k < joiners(pts, ord, e, end, c, o, used, n).len() ==> 0 <= #[trigger] joiners(pts, ord, e, end, c, o, used, n)[k] < used.len(),
    decreases n,
{
    if n > 0 && n <= ord.len() {
        lemma_joiners_in_range(pts, ord, e, end, c, o, used, n - 1);
        let r = joiners(pts, ord, e, end, c, o, used, n - 1);
        let all = joiners(pts, ord, e, end, c, o, used, n);
        assert forall|k: int| 0 <= k < all.len() implies 0 <= #[trigger] all[k] < used.len() by {
            if k < r.len() {
                assert(all[k] == r[k]);
            }
        }
    }
}

proof fn lemma_joiners_before(
    pts: Seq<CascadePoint>,
    ord: Seq<int>,
    e: Seq<(Seq<char>, Seq<char>)>,
    end: i64,
    c: int,
    o: int,
    used: Seq<bool>,
    n: int,
    k: int,
)
    requires
        0 <= k < joiners(pts, ord, e, end, c, o, used, n).len(),
    ensures
        exists|q: int| 0 <= q < n && ord[q] == joiners(pts, ord, e, end, c, o, used, n)[k],
    decreases n,
{
    if n > 0 && n <= ord.len() {
        let r = joiners(pts, ord, e, end, c, o, used, n - 1);
        if k < r.len() {
            lemma_joiners_before(pts, ord, e, end, c, o, used, n - 1, k);
            let q = choose|q: int| 0 <= q < n - 1 && ord[q] == r[k];
            assert(0 <= q < n && ord[q] == joiners(pts, ord, e, end, c, o, used, n)[k]);
        } else {
            assert(ord[n - 1] == joiners(pts, ord, e, end, c, o, used, n)[k]);
        }
    }
}

proof fn lemma_joiners_empty(
    pts: Seq<CascadePoint>,
    ord: Seq<int>,
    e: Seq<(Seq<char>, Seq<char>)>,
    end: i64,
    c: int,
    o: int,
    used: Seq<bool>,
    n: int,
)
    requires
        !pts[o].error_step,
    ensures
        joiners(pts, ord, e, end, c, o, used, n) == Seq::<int>::empty(),
    decreases n,
{
    if n > 0 && n <= ord.len() {
        lemma_joiners_empty(pts, ord, e, end, c, o, used, n - 1);
    }
}

proof fn lemma_cascades_len(pts: Seq<CascadePoint>, ord: Seq<int>, e: Seq<(Seq<char>, Seq<char>)>, end: i64, c: int, p: int)
    requires
        forall|k: int| 0 <= k < ord.len() ==> 0 <= #[trigger] ord[k] < pts.len(),
    ensures
        cascades_upto(pts, ord, e, end, c, p).0.len() == pts.len(),
    decreases p,
{
    if p > 0 && p <= ord.len() {
        lemma_cascades_len(pts, ord, e, end, c, p - 1);
        let (u, gs) = cascades_upto(pts, ord, e, end, c, p - 1);
        let o = ord[p - 1];
        if !u[o] {
            let u0 = u.update(o, true);
            lemma_joiners_in_range(pts, ord, e, end, c, o, u0, ord.len() as int);
            lemma_mark_all(u0, joiners(pts, ord, e, end, c, o, u0, ord.len() as int), 0);
        }
    }
}

/// Groups the changepoints into cascades (see `cascades`). `pts` are the
/// changepoints, `edges` the topology, `window_end` the time that stands in
/// for a start that does not read, `cascade_ms` the widest gap a cascade
/// spans.
pub fn changepoint_cascades(pts: &Vec<CascadePoint>, edges: &Vec<(String, String)>, window_end: i64, cascade_ms: i64) -> (g: Vec<(usize, Vec<usize>)>)
    ensures
        cascade_views(g@) == cascades(pts@, crate::rank::edge_views(edges@), window_end, cascade_ms as int),
{
    let ghost e = crate::rank::edge_views(edges@);
    let ghost ps = pts@;
    let ord = order_by_start(pts);
    let ghost so = ints(ord@);
    proof {
        let c = choose|c: Seq<int>| ordered_by_start(ps, positions(ps.len()), c);
        assert(ordered_by_start(ps, positions(ps.len()), so));
        assert forall|k: int| 0 <= k < so.len() implies 0 <= #[trigger] so[k] < ps.len() by {
            assert(so.contains(so[k]));
            lemma_positions(ps.len(), so[k]);
        }
    }
    let n = pts.len();
    let mut used: Vec<bool> = Vec::new();
    let mut z: usize = 0;
    while z < n
        invariant
            z <= n,
            used.len() == z,
            forall|i: int| 0 <= i < z ==> !used@[i],
        decreases n - z,
    {
        used.push(false);
        z = z + 1;
    }
    proof {
        assert(used@ =~= Seq::new(ps.len(), |i: int| false));
    }
    let mut g: Vec<(usize, Vec<usize>)> = Vec::new();
    let mut p: usize = 0;
    while p < n
        invariant
            n == pts.len(),
            ps == pts@,
            e == crate::rank::edge_views(edges@),
            so == ints(ord@),
            so == start_order(ps),
            ord.len() == n,
            ordered_by_start(ps, positions(ps.len()), so),
            forall|k: int| 0 <= k < so.len() ==> 0 <= #[trigger] so[k] < ps.len(),
            p <= n,
            used@ == cascades_upto(ps, so, e, window_end, cascade_ms as int, p as int).0,
            cascade_views(g@) == cascades_upto(ps, so, e, window_end, cascade_ms as int, p as int).1,
        decreases n - p,
    {
        let o = ord[p];
        proof {
            assert(so[p as int] == o as int);
            assert(0 <= so[p as int] < ps.len());
            lemma_cascades_len(ps, so, e, window_end, cascade_ms as int, p as int);
        }
        if used[o] {
            p = p + 1;
            continue;
        }
        used.set(o, true);
        let ghost u0 = used@;
        let mut members: Vec<usize> = Vec::new();
        if pts[o].error_step {
            let mut q: usize = 0;
            while q < n
                invariant
                    n == pts.len(),
                    ps == pts@,
                    e == crate::rank::edge_views(edges@),
                    so == ints(ord@),
                    ord.len() == n,
                    ordered_by_start(ps, positions(ps.len()), so),
                    forall|k: int| 0 <= k < so.len() ==> 0 <= #[trigger] so[k] < ps.len(),
                    o < n,
                    ps[o as int].error_step,
                    u0.len() == n,
                    q <= n,
                    ints(members@) == joiners(ps, so, e, window_end, cascade_ms as int, o as int, u0, q as int),
                    used@ == mark_all(u0, ints(members@)),
                decreases n - q,
            {
                let j = ord[q];
                proof {
                    assert(so[q as int] == j as int);
                    lemma_joiners_in_range(ps, so, e, window_end, cascade_ms as int, o as int, u0, q as int);
                    lemma_mark_all(u0, ints(members@), j as int);
                    if ints(members@).contains(j as int) {
                        let k = choose|k: int| 0 <= k < ints(members@).len() && ints(members@)[k] == j as int;
                        lemma_joiners_before(ps, so, e, window_end, cascade_ms as int, o as int, u0, q as int, k);
                        let q2 = choose|q2: int| 0 <= q2 < q && so[q2] == ints(members@)[k];
                        lemma_start_distinct(ps, so, q2, q as int);
                    }
                }
                if !used[j] && pts[j].error_step {
                    let so_at = match pts[o].at {
                        Some(t) => t,
                        None => window_end,
                    };
                    let sj_at = match pts[j].at {
                        Some(t) => t,
                        None => window_end,
                    };
                    let d: i128 = sj_at as i128 - so_at as i128;
                    let gap: i128 = d / 1000;
                    let within = if gap < 0 {
                        -gap <= cascade_ms as i128
                    } else {
                        gap <= cascade_ms as i128
                    };
                    proof {
                        assert(gap == crate::tools::div_toward_zero(start_or(ps[j as int], window_end) - start_or(ps[o as int], window_end), 1000));
                    }
                    if within && connected_exec(pts[o].service.as_str(), pts[j].service.as_str(), edges) {
                        let ghost m0 = ints(members@);
                        proof {
                            assert(ints(members@.push(j)) =~= ints(members@).push(j as int));
                        }
                        members.push(j);
                        used.set(j, true);
                        proof {
                            assert(ints(members@).drop_last() =~= m0);
                            assert(ints(members@).last() == j as int);
                        }
                    }
                }
                q = q + 1;
            }
        } else {
            proof {
                lemma_joiners_empty(ps, so, e, window_end, cascade_ms as int, o as int, u0, n as int);
            }
        }
        proof {
            assert(ints(members@) == joiners(ps, so, e, window_end, cascade_ms as int, o as int, u0, n as int));
        }
        let ghost g0 = g@;
        let ghost mem = ints(members@);
        g.push((o, members));
        proof {
            assert(cascade_views(g@) =~= cascade_views(g0).push((o as int, mem)));
        }
        p = p + 1;
    }
    g
}

} // verus!

verus! {

// ------------------------------------------------------------------ the bound

/// Bytes of the bundle's budget held back for the envelope and the
/// relationships.
pub const ENVELOPE_RESERVE: usize = 1400;

/// The byte budget of the items: the bundle's `max_bytes` less the reserve,
/// or nothing.
pub fn bundle_budget(max_bytes: usize) -> (b: usize)
    ensures
        b == (if max_bytes >= ENVELOPE_RESERVE {
            max_bytes - ENVELOPE_RESERVE
        } else {
            0
        }),
{
    if max_bytes >= ENVELOPE_RESERVE {
        max_bytes - ENVELOPE_RESERVE
    } else {
        0
    }
}

/// The bytes the first `n` items take: each its size and one separator.
pub open spec fn cut_cost(sizes: Seq<usize>, n: int) -> int
    decreases n,
{
    if n <= 0 || n > sizes.len() {
        0
    } else {
        cut_cost(sizes, n - 1) + sizes[n - 1] + 1
    }
}

/// How many items the bundle keeps, counting on from `n`: items are taken
/// in order while fewer than `limit` are taken and the next one still fits
/// in `budget`.
pub open spec fn cut_from(sizes: Seq<usize>, limit: int, budget: int, n: int) -> int
    decreases sizes.len() - n,
{
    if n < 0 || n >= sizes.len() || n >= limit || cut_cost(sizes, n + 1) > budget {
        n
    } else {
        cut_from(sizes, limit, budget, n + 1)
    }
}

proof fn lemma_cut_from(sizes: Seq<usize>, limit: int, budget: int, n: int)
    requires
        0 <= n <= sizes.len(),
        n <= limit,
        cut_cost(sizes, n) <= budget,
    ensures
        n <= cut_from(sizes, limit, budget, n) <= sizes.len(),
        cut_from(sizes, limit, budget, n) <= limit,
        cut_cost(sizes, cut_from(sizes, limit, budget, n)) <= budget,
        cut_from(sizes, limit, budget, n) < sizes.len() && cut_from(sizes, limit, budget, n) < limit ==> cut_cost(
            sizes,
            cut_from(sizes, limit, budget, n) + 1,
        ) > budget,
    decreases sizes.len() - n,
{
    if !(n >= sizes.len() || n >= limit || cut_cost(sizes, n + 1) > budget) {
        lemma_cut_from(sizes, limit, budget, n + 1);
    }
}

/// How many of the ranked items a bundle returns: the longest prefix of at
/// most `limit` items whose sizes, each with a separator, fit in `budget`.
pub fn bundle_cut(sizes: &Vec<usize>, limit: usize, budget: usize) -> (n: usize)
    ensures
        n == cut_from(sizes@, limit as int, budget as int, 0),
        n <= limit,
        n <= sizes.len(),
        cut_cost(sizes@, n as int) <= budget,
        n < sizes.len() && n < limit ==> cut_cost(sizes@, n + 1) > budget,
{
    let mut n: usize = 0;
    let mut used: u128 = 0;
    let mut done = false;
    proof {
        lemma_cut_from(sizes@, limit as int, budget as int, 0);
    }
    while !done && n < sizes.len() && n < limit
        invariant
            n <= sizes.len(),
            n <= limit,
            used == cut_cost(sizes@, n as int),
            used <= budget,
            done ==> n < sizes.len() && n < limit && cut_cost(sizes@, n + 1) > budget,
            cut_from(sizes@, limit as int, budget as int, n as int) == cut_from(sizes@, limit as int, budget as int, 0),
        decreases sizes.len() - n, if done { 0int } else { 1int },
    {
        let next: u128 = used + sizes[n] as u128 + 1;
        if next > budget as u128 {
            done = true;
        } else {
            used = next;
            n = n + 1;
        }
    }
    n
}

/// The bundle's coverage totals over the cut.
#[derive(Clone, Copy, Debug)]
pub struct BundleCounts {
    /// Facts left after deduplication, ranked.
    pub facts_after_dedupe: usize,
    pub items_returned: usize,
    /// Facts were left out.
    pub truncated: bool,
}

/// The coverage totals of a bundle whose ranked facts have item sizes
/// `sizes`, cut at `limit` items and `budget` bytes.
pub fn bundle_counts(sizes: &Vec<usize>, limit: usize, budget: usize) -> (c: BundleCounts)
    ensures
        c.facts_after_dedupe == sizes.len(),
        c.items_returned == cut_from(sizes@, limit as int, budget as int, 0),
        c.truncated == (sizes.len() > c.items_returned),
{
    let n = bundle_cut(sizes, limit, budget);
    BundleCounts { facts_after_dedupe: sizes.len(), items_returned: n, truncated: sizes.len() > n }
}

// ------------------------------------------------------------------ deploy relationships

/// Whole milliseconds from `a` to `b` (microsecond instants), toward zero.
pub open spec fn offset_ms(a: i64, b: i64) -> int {
    crate::tools::div_toward_zero(b - a, 1000)
}

/// Fact `j` follows deploy `i` within the correlation window: `i` is a
/// deploy, `j` is not, and `j` comes 0 to `corr_secs` seconds after `i`.
pub open spec fn precedes(kinds: Seq<Kind>, times: Seq<i64>, corr_secs: int, i: int, j: int) -> bool {
    &&& kinds[i] == Kind::Deploy
    &&& kinds[j] != Kind::Deploy
    &&& 0 <= offset_ms(times[i], times[j]) <= corr_secs * 1000
}

/// The pairs among the first `m` chosen facts that deploy `i` precedes.
pub open spec fn relations_for(kinds: Seq<Kind>, times: Seq<i64>, chosen: Seq<usize>, corr_secs: int, i: int, m: int) -> Seq<(int, int)>
    decreases m,
{
    if m <= 0 || m > chosen.len() {
        Seq::empty()
    } else {
        let r = relations_for(kinds, times, chosen, corr_secs, i, m - 1);
        let j = chosen[m - 1] as int;
        if precedes(kinds, times, corr_secs, i, j) {
            r.push((i, j))
        } else {
            r
        }
    }
}

/// The deploy relationships among the first `n` chosen facts (as deploys),
/// each deploy paired with every chosen fact it precedes, in chosen order.
pub open spec fn relations_upto(kinds: Seq<Kind>, times: Seq<i64>, chosen: Seq<usize>, corr_secs: int, n: int) -> Seq<(int, int)>
    decreases n,
{
    if n <= 0 || n > chosen.len() {
        Seq::empty()
    } else {
        relations_upto(kinds, times, chosen, corr_secs, n - 1) + relations_for(
            kinds,
            times,
            chosen,
            corr_secs,
            chosen[n - 1] as int,
            chosen.len() as int,
        )
    }
}

/// Pairs by their plain values.
pub open spec fn pair_ints(v: Seq<(usize, usize)>) -> Seq<(int, int)> {
    v.map_values(|p: (usize, usize)| (p.0 as int, p.1 as int))
}

/// The bundle's `precedes_within` relationships among the chosen facts:
/// each chosen deploy with each chosen fact that is not a deploy and comes
/// 0 to `corr_secs` seconds after it (whole milliseconds). `times` are the
/// facts' instants in microseconds.
pub fn deploy_relations(kinds: &Vec<Kind>, times: &Vec<i64>, chosen: &Vec<usize>, corr_secs: i64) -> (rels: Vec<(usize, usize)>)
    requires
        kinds.len() == times.len(),
        forall|k: int| 0 <= k < chosen.len() ==> #[trigger] chosen@[k] < kinds.len(),
    ensures
        pair_ints(rels@) == relations_upto(kinds@, times@, chosen@, corr_secs as int, chosen.len() as int),
        forall|k: int|
            #![trigger rels@[k]]
            0 <= k < rels.len() ==> {
                &&& chosen@.contains(rels@[k].0)
                &&& chosen@.contains(rels@[k].1)
                &&& precedes(kinds@, times@, corr_secs as int, rels@[k].0 as int, rels@[k].1 as int)
            },
{
    let mut rels: Vec<(usize, usize)> = Vec::new();
    let mut a: usize = 0;
    while a < chosen.len()
        invariant
            a <= chosen.len(),
            kinds.len() == times.len(),
            forall|k: int| 0 <= k < chosen.len() ==> #[trigger] chosen@[k] < kinds.len(),
            pair_ints(rels@) == relations_upto(kinds@, times@, chosen@, corr_secs as int, a as int),
            forall|k: int|
                #![trigger rels@[k]]
                0 <= k < rels.len() ==> {
                    &&& chosen@.contains(rels@[k].0)
                    &&& chosen@.contains(rels@[k].1)
                    &&& precedes(kinds@, times@, corr_secs as int, rels@[k].0 as int, rels@[k].1 as int)
                },
        decreases chosen.len() - a,
    {
        let i = chosen[a];
        let ghost base = pair_ints(rels@);
        let mut b: usize = 0;
        while b < chosen.len()
            invariant
                a < chosen.len(),
                b <= chosen.len(),
                i == chosen@[a as int],
                kinds.len() == times.len(),
                forall|k: int| 0 <= k < chosen.len() ==> #[trigger] chosen@[k] < kinds.len(),
                base == relations_upto(kinds@, times@, chosen@, corr_secs as int, a as int),
                pair_ints(rels@) == base + relations_for(kinds@, times@, chosen@, corr_secs as int, i as int, b as int),
                forall|k: int|
                    #![trigger rels@[k]]
                    0 <= k < rels.len() ==> {
                        &&& chosen@.contains(rels@[k].0)
                        &&& chosen@.contains(rels@[k].1)
                        &&& precedes(kinds@, times@, corr_secs as int, rels@[k].0 as int, rels@[k].1 as int)
                    },
            decreases chosen.len() - b,
        {
            let j = chosen[b];
            let is_pair = match kinds[i] {
                Kind::Deploy => match kinds[j] {
                    Kind::Deploy => false,
                    _ => {
                        let off: i128 = (times[j] as i128 - times[i] as i128) / 1000;
                        proof {
                            assert(off == offset_ms(times@[i as int], times@[j as int]));
                        }
                        0 <= off && off <= corr_secs as i128 * 1000
                    },
                },
                _ => false,
            };
            proof {
                assert(is_pair == precedes(kinds@, times@, corr_secs as int, i as int, j as int));
            }
            if is_pair {
                let ghost before = rels@;
                rels.push((i, j));
                proof {
                    assert(pair_ints(rels@) =~= pair_ints(before).push((i as int, j as int)));
                    assert(chosen@[a as int] == i);
                    assert(chosen@[b as int] == j);
                    assert(chosen@.contains(i));
                    assert(chosen@.contains(j));
                    assert(rels@[before.len() as int] == (i, j));
                    assert(forall|k: int| 0 <= k < before.len() ==> rels@[k] == before[k]);
                }
            }
            b = b + 1;
        }
        proof {
            assert(relations_upto(kinds@, times@, chosen@, corr_secs as int, a + 1) == base + relations_for(
                kinds@,
                times@,
                chosen@,
                corr_secs as int,
                i as int,
                chosen.len() as int,
            ));
        }
        a = a + 1;
    }
    rels
}

} // verus!

verus! {

// ------------------------------------------------------------------ laws of the onset and of origins

proof fn lemma_earliest_error_step(cps: Seq<OnsetChange>, n: int)
    requires
        0 <= n <= cps.len(),
    ensures
        earliest_error_step(cps, n) is Some <==> exists|i: int|
            0 <= i < n && error_step(#[trigger] cps[i]) && cps[i].at is Some,
        earliest_error_step(cps, n) matches Some(t) ==> exists|i: int|
            0 <= i < n && error_step(#[trigger] cps[i]) && cps[i].at == Some(t),
        earliest_error_step(cps, n) matches Some(t) ==> forall|i: int|
            0 <= i < n && error_step(#[trigger] cps[i]) && cps[i].at is Some ==> t <= cps[i].at->0,
    decreases n,
{
    if n > 0 {
        lemma_earliest_error_step(cps, n - 1);
    }
}

/// The onset comes from the changepoints exactly when some changepoint is
/// an upward step of `error_rate` or `errors_total` whose time reads; it is
/// then the time of one such step, and no such step starts earlier. A step
/// down never sets the onset.
pub proof fn law_onset_is_the_earliest_upward_error_step(cps: Seq<OnsetChange>, ts: Seq<OnsetTemplate>, window_end: i64)
    ensures
        (onset(cps, ts, window_end).1 == OnsetSource::EarliestErrorChangepoint) <==> exists|i: int|
            0 <= i < cps.len() && (#[trigger] cps[i]).direction@ == "up"@ && (cps[i].metric@ == "error_rate"@
                || cps[i].metric@ == "errors_total"@) && cps[i].at is Some,
        onset(cps, ts, window_end).1 == OnsetSource::EarliestErrorChangepoint ==> exists|i: int|
            0 <= i < cps.len() && (#[trigger] cps[i]).direction@ == "up"@ && (cps[i].metric@ == "error_rate"@
                || cps[i].metric@ == "errors_total"@) && cps[i].at == Some(onset(cps, ts, window_end).0),
        onset(cps, ts, window_end).1 == OnsetSource::EarliestErrorChangepoint ==> forall|i: int|
            0 <= i < cps.len() && (#[trigger] cps[i]).direction@ == "up"@ && (cps[i].metric@ == "error_rate"@
                || cps[i].metric@ == "errors_total"@) && cps[i].at is Some ==> onset(cps, ts, window_end).0
                <= cps[i].at->0,
{
    lemma_earliest_error_step(cps, cps.len() as int);
}

proof fn lemma_earliest_error_template(ts: Seq<OnsetTemplate>, n: int)
    requires
        0 <= n <= ts.len(),
    ensures
        earliest_error_template(ts, n) is Some <==> exists|i: int|
            0 <= i < n && severity_of((#[trigger] ts[i]).dominant_level@) >= 3 && ts[i].first_seen is Some,
        earliest_error_template(ts, n) matches Some(t) ==> exists|i: int|
            0 <= i < n && severity_of((#[trigger] ts[i]).dominant_level@) >= 3 && ts[i].first_seen == Some(t),
        earliest_error_template(ts, n) matches Some(t) ==> forall|i: int|
            0 <= i < n && severity_of((#[trigger] ts[i]).dominant_level@) >= 3 && ts[i].first_seen is Some ==> t
                <= ts[i].first_seen->0,
    decreases n,
{
    if n > 0 {
        lemma_earliest_error_template(ts, n - 1);
    }
}

/// With no upward error step to go by, the onset is the earliest first
/// sighting of a novel template at ERROR, CRITICAL or FATAL; with none of
/// those either, it is the window's end.
pub proof fn law_onset_falls_back_to_error_templates(cps: Seq<OnsetChange>, ts: Seq<OnsetTemplate>, window_end: i64)
    requires
        forall|i: int|
            0 <= i < cps.len() ==> !((#[trigger] cps[i]).direction@ == "up"@ && (cps[i].metric@ == "error_rate"@
                || cps[i].metric@ == "errors_total"@) && cps[i].at is Some),
    ensures
        (onset(cps, ts, window_end).1 == OnsetSource::EarliestNovelErrorTemplate) <==> exists|i: int|
            0 <= i < ts.len() && ((#[trigger] ts[i]).dominant_level@ == "ERROR"@ || ts[i].dominant_level@
                == "CRITICAL"@ || ts[i].dominant_level@ == "FATAL"@) && ts[i].first_seen is Some,
        onset(cps, ts, window_end).1 == OnsetSource::EarliestNovelErrorTemplate ==> (exists|i: int|
            0 <= i < ts.len() && ((#[trigger] ts[i]).dominant_level@ == "ERROR"@ || ts[i].dominant_level@
                == "CRITICAL"@ || ts[i].dominant_level@ == "FATAL"@) && ts[i].first_seen == Some(
                onset(cps, ts, window_end).0,
            )) && forall|i: int|
            0 <= i < ts.len() && ((#[trigger] ts[i]).dominant_level@ == "ERROR"@ || ts[i].dominant_level@
                == "CRITICAL"@ || ts[i].dominant_level@ == "FATAL"@) && ts[i].first_seen is Some ==> onset(
                cps,
                ts,
                window_end,
            ).0 <= ts[i].first_seen->0,
        onset(cps, ts, window_end).1 != OnsetSource::EarliestNovelErrorTemplate ==> onset(cps, ts, window_end) == (
            window_end,
            OnsetSource::WindowEnd,
        ),
{
    lemma_earliest_error_step(cps, cps.len() as int);
    lemma_earliest_error_template(ts, ts.len() as int);
    reveal_strlit("ERROR");
    reveal_strlit("CRITICAL");
    reveal_strlit("FATAL");
    assert("ERROR"@.len() == 5 && "CRITICAL"@.len() == 8 && "FATAL"@.len() == 5);
    assert("FATAL"@[0] != "ERROR"@[0]);
    assert forall|l: Seq<char>| severity_of(l) >= 3 <==> (l == "ERROR"@ || l == "CRITICAL"@ || l == "FATAL"@) by {}
}

/// A cascade's templates come in order of first sighting (an unknown time
/// first); among those first seen together, one with a stack trace comes
/// before one without.
pub proof fn law_origins_come_first_seen_first(
    first: Seq<Option<i64>>,
    stack: Seq<bool>,
    level: Seq<Seq<char>>,
    x: int,
    y: int,
)
    requires
        origin_before(first, stack, level, x, y),
    ensures
        first[x] == first[y] || first[x] is None || (first[x] is Some && first[y] is Some && first[x]->0
            < first[y]->0),
        first[x] == first[y] ==> stack[x] || !stack[y],
{
}

/// Among templates first seen together with the same stack flag, one at
/// ERROR, CRITICAL or FATAL comes before one at WARN or WARNING, never
/// after it.
pub proof fn law_errors_come_before_warnings(
    first: Seq<Option<i64>>,
    stack: Seq<bool>,
    level: Seq<Seq<char>>,
    x: int,
    y: int,
)
    requires
        first[x] == first[y],
        stack[x] == stack[y],
        level[x] == "ERROR"@ || level[x] == "CRITICAL"@ || level[x] == "FATAL"@,
        level[y] == "WARN"@ || level[y] == "WARNING"@,
    ensures
        origin_before(first, stack, level, x, y),
        !origin_before(first, stack, level, y, x),
{
    reveal_strlit("ERROR");
    reveal_strlit("CRITICAL");
    reveal_strlit("FATAL");
    reveal_strlit("WARN");
    reveal_strlit("WARNING");
    assert(level_class(level[x]) == 2);
    assert("WARN"@.len() == 4 && "WARNING"@.len() == 7 && "ERROR"@.len() == 5 && "CRITICAL"@.len() == 8
        && "FATAL"@.len() == 5);
    assert("FATAL"@[0] != "ERROR"@[0]);
    assert(level_class(level[y]) == 1);
}

/// ERROR, CRITICAL and FATAL rank alike (as do WARN and WARNING): among
/// templates first seen together with the same stack flag and levels of one
/// rank, the earlier position comes first.
pub proof fn law_severe_levels_rank_alike(
    first: Seq<Option<i64>>,
    stack: Seq<bool>,
    level: Seq<Seq<char>>,
    x: int,
    y: int,
)
    requires
        first[x] == first[y],
        stack[x] == stack[y],
        (level[x] == "ERROR"@ || level[x] == "CRITICAL"@ || level[x] == "FATAL"@) && (level[y] == "ERROR"@
            || level[y] == "CRITICAL"@ || level[y] == "FATAL"@) || (level[x] == "WARN"@ || level[x]
            == "WARNING"@) && (level[y] == "WARN"@ || level[y] == "WARNING"@),
    ensures
        origin_before(first, stack, level, x, y) <==> x < y,
{
    reveal_strlit("ERROR");
    reveal_strlit("CRITICAL");
    reveal_strlit("FATAL");
    reveal_strlit("WARN");
    reveal_strlit("WARNING");
    assert("WARN"@.len() == 4 && "WARNING"@.len() == 7 && "ERROR"@.len() == 5 && "CRITICAL"@.len() == 8
        && "FATAL"@.len() == 5);
    assert("FATAL"@[0] != "ERROR"@[0]);
    assert(level_class(level[x]) == level_class(level[y]));
}

} // verus!
