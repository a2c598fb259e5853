//! The baseline's terminal-shaped tools: which raw lines `tail` and `grep`
//! hand back, in what order, and the text they answer with. Reading the
//! log files is left to the program around the library, which hands each
//! file over as its lines.

use vstd::prelude::*;
use vstd::utf8::encode_utf8;
use crate::deployer::opt_view;
use crate::sanitize::{capped_with, cap_with, contains_text, str_contains, utf8_width, lemma_encode_push, lemma_encode_prefix_monotone};
use crate::search::{indices_where, ints, clamped, clamp_limit};
use crate::text::{cat, chars_of, decimal, join, join_seq, lex_le, str_eq, str_le, string_of, trim, trimmed, u64_decimal, views};
use crate::body::{JsonDoc, JsonNode, doc_wf};
use crate::lines::{or_else, str_member, str_member_exec};
use crate::tools::{to_upper, uppercased};

verus! {

/// The most lines a raw tool returns.
pub const MAX_LINES: usize = 1000;

/// Lines returned when the caller names no count.
pub const DEFAULT_LINES: usize = 100;

// ------------------------------------------------------------------ timestamps

/// Byte `b` of `s` is a character boundary, `k` characters in.
pub open spec fn boundary_at(s: Seq<char>, b: int, k: int) -> bool {
    0 <= k <= s.len() && encode_utf8(s.take(k)).len() == b
}

/// Byte `b` of `s` is a character boundary.
pub open spec fn is_boundary(s: Seq<char>, b: int) -> bool {
    exists|k: int| boundary_at(s, b, k)
}

/// The timestamp field of a raw line, `line.get(7..31)`: the characters
/// between bytes 7 and 31 when both are character boundaries, else empty.
/// Every line starts `{"ts":"`, so this is the timestamp without parsing.
pub open spec fn ts_field(line: Seq<char>) -> Seq<char> {
    if is_boundary(line, 7) && is_boundary(line, 31) {
        line.subrange(choose|k: int| boundary_at(line, 7, k), choose|k: int| boundary_at(line, 31, k))
    } else {
        Seq::empty()
    }
}

proof fn lemma_prefix_grows(s: Seq<char>, a: int, b: int)
    requires
        0 <= a < b <= s.len(),
    ensures
        encode_utf8(s.take(a)).len() < encode_utf8(s.take(b)).len(),
{
    lemma_encode_push(s.take(a), s[a]);
    assert(s.take(a).push(s[a]) =~= s.take(a + 1));
    lemma_encode_prefix_monotone(s, a + 1, b);
}

proof fn lemma_boundary_unique(s: Seq<char>, b: int, k1: int, k2: int)
    requires
        boundary_at(s, b, k1),
        boundary_at(s, b, k2),
    ensures
        k1 == k2,
{
    if k1 < k2 {
        lemma_prefix_grows(s, k1, k2);
    } else if k2 < k1 {
        lemma_prefix_grows(s, k2, k1);
    }
}

/// The timestamp field of `line` (see `ts_field`).
pub fn ts_of(line: &str) -> (r: String)
    ensures
        r@ == ts_field(line@),
{
    let cs = chars_of(line);
    let mut used: usize = 0;
    let mut k: usize = 0;
    let mut at7: Option<usize> = None;
    let mut at31: Option<usize> = None;
    loop
        invariant
            cs@ == line@,
            k <= cs.len(),
            used == encode_utf8(line@.take(k as int)).len(),
            used <= 31,
            match at7 {
                Some(a) => a <= k && boundary_at(line@, 7, a as int),
                None => forall|a: int| 0 <= a < k ==> !boundary_at(line@, 7, a),
            },
            match at31 {
                Some(a) => a <= k && boundary_at(line@, 31, a as int),
                None => forall|a: int| 0 <= a < k ==> !boundary_at(line@, 31, a),
            },
        ensures
            at7 is None ==> !is_boundary(line@, 7),
            at31 is None ==> !is_boundary(line@, 31),
            at7 matches Some(a) ==> a <= cs.len() && boundary_at(line@, 7, a as int),
            at31 matches Some(a) ==> a <= cs.len() && boundary_at(line@, 31, a as int),
        decreases cs.len() - k,
    {
        if used == 7 {
            at7 = Some(k);
        }
        if used == 31 {
            at31 = Some(k);
        }
        if k == cs.len() {
            proof {
                assert forall|a: int| !boundary_at(line@, 7, a) || at7 is Some by {}
                assert forall|a: int| !boundary_at(line@, 31, a) || at31 is Some by {}
            }
            break;
        }
        let w = utf8_width(cs[k]);
        proof {
            lemma_encode_push(line@.take(k as int), line@[k as int]);
            assert(line@.take(k as int).push(line@[k as int]) =~= line@.take(k + 1));
        }
        if w > 31 - used {
            proof {
                assert forall|a: int| boundary_at(line@, 7, a) implies at7 is Some by {
                    if a > k {
                        lemma_prefix_grows(line@, k as int, a);
                        lemma_encode_prefix_monotone(line@, k + 1, a);
                    }
                }
                assert forall|a: int| boundary_at(line@, 31, a) implies at31 is Some by {
                    if a > k {
                        lemma_prefix_grows(line@, k as int, a);
                        lemma_encode_prefix_monotone(line@, k + 1, a);
                    }
                }
            }
            break;
        }
        used = used + w;
        k = k + 1;
    }
    match (at7, at31) {
        (Some(i), Some(j)) => {
            proof {
                let c7 = choose|k: int| boundary_at(line@, 7, k);
                let c31 = choose|k: int| boundary_at(line@, 31, k);
                lemma_boundary_unique(line@, 7, c7, i as int);
                lemma_boundary_unique(line@, 31, c31, j as int);
                if j < i {
                    lemma_prefix_grows(line@, j as int, i as int);
                }
            }
            string_of(&cs.as_slice()[i..j])
        },
        _ => String::new(),
    }
}

// ------------------------------------------------------------------ output

/// Lines `idx` of `lines`, each followed by a newline.
pub open spec fn line_block(lines: Seq<Seq<char>>, idx: Seq<int>) -> Seq<char>
    decreases idx.len(),
{
    if idx.len() == 0 {
        Seq::empty()
    } else {
        line_block(lines, idx.drop_last()) + lines[idx.last()] + "\n"@
    }
}

/// Lines `idx` of `lines`, each followed by a newline.
fn block(lines: &Vec<String>, idx: &Vec<usize>) -> (r: String)
    requires
        forall|k: int| 0 <= k < idx.len() ==> idx@[k] < lines.len(),
    ensures
        r@ == line_block(views(lines@), ints(idx@)),
{
    let mut out = String::new();
    let mut k: usize = 0;
    while k < idx.len()
        invariant
            k <= idx.len(),
            forall|j: int| 0 <= j < idx.len() ==> idx@[j] < lines.len(),
            out@ == line_block(views(lines@), ints(idx@.take(k as int))),
        decreases idx.len() - k,
    {
        let i = idx[k];
        out.append(lines[i].as_str());
        out.append("\n");
        proof {
            let t = ints(idx@.take(k + 1));
            assert(t.drop_last() =~= ints(idx@.take(k as int)));
            assert(t.last() == i as int);
            assert(views(lines@)[i as int] == lines@[i as int]@);
        }
        k = k + 1;
    }
    proof {
        assert(idx@.take(idx.len() as int) =~= idx@);
    }
    out
}

proof fn lemma_ints_push(s: Seq<usize>, x: usize)
    ensures
        ints(s.push(x)) == ints(s).push(x as int),
{
    assert(ints(s.push(x)) =~= ints(s).push(x as int));
}

/// The last `n` of `s` (all of `s` when it is no longer).
pub open spec fn last_n(s: Seq<int>, n: int) -> Seq<int> {
    if s.len() > n {
        s.skip(s.len() - n)
    } else {
        s
    }
}

/// The last `n` entries of `v`.
fn keep_last(v: &Vec<usize>, n: usize) -> (r: Vec<usize>)
    ensures
        ints(r@) == last_n(ints(v@), n as int),
        r.len() <= v.len(),
        forall|k: int| 0 <= k < r.len() ==> r@[k] == v@[v.len() - r.len() + k],
{
    let start: usize = if v.len() > n {
        v.len() - n
    } else {
        0
    };
    let mut r: Vec<usize> = Vec::new();
    let mut j: usize = start;
    while j < v.len()
        invariant
            start <= j <= v.len(),
            ints(r@) == ints(v@).subrange(start as int, j as int),
            forall|k: int| 0 <= k < r.len() ==> r@[k] == v@[start + k],
        decreases v.len() - j,
    {
        proof {
            lemma_ints_push(r@, v[j as int]);
            assert(ints(v@).subrange(start as int, j + 1) =~= ints(v@).subrange(start as int, j as int).push(v@[j as int] as int));
        }
        r.push(v[j]);
        j = j + 1;
    }
    proof {
        assert(ints(v@).subrange(start as int, v.len() as int) =~= last_n(ints(v@), n as int));
        assert(ints(r@).len() == r.len());
    }
    r
}

// ------------------------------------------------------------------ tail

/// The arguments of `tail_logs`.
pub struct TailArgs {
    /// Log to tail: gateway | orders | payments-v1 | payments-v2 | loadgen.
    pub instance: String,
    /// Number of most recent lines to return (default 100, at most 1000).
    pub lines: Option<usize>,
    /// Only lines at this level: INFO | WARNING | ERROR.
    pub level: Option<String>,
}

/// The field a line at `level` holds: `"level":"LEVEL"`, upper-cased.
pub open spec fn level_field(level: Seq<char>) -> Seq<char> {
    "\"level\":\""@ + uppercased(level) + "\""@
}

/// The line passes `tail_logs`' level filter.
pub open spec fn tail_passes(line: Seq<char>, level: Option<Seq<char>>) -> bool {
    match level {
        Some(l) => contains_text(line, level_field(l)),
        None => true,
    }
}

/// The count asked for, or the default.
pub open spec fn count_or_default(count: Option<usize>) -> int {
    match count {
        Some(c) => c as int,
        None => DEFAULT_LINES as int,
    }
}

/// Positions of the lines that pass the level filter.
pub open spec fn tail_hits(lines: Seq<Seq<char>>, level: Option<Seq<char>>) -> Seq<int> {
    indices_where(lines.len() as nat, |i: int| tail_passes(lines[i], level))
}

/// What `tail_logs` answers for the log at `path` whose lines are `lines`:
/// a header with how many lines are shown, how many passed the filter and
/// the count asked for (clamped to 1..=1000), then the last lines that
/// passed, oldest first.
pub open spec fn tail_text(path: Seq<char>, lines: Seq<Seq<char>>, level: Option<Seq<char>>, count: Option<usize>) -> Seq<char> {
    let n = clamped(count_or_default(count), 1, MAX_LINES as int);
    let hits = tail_hits(lines, level);
    let kept = last_n(hits, n);
    "# "@ + decimal(kept.len()) + " of "@ + decimal(hits.len()) + " lines from "@ + path + " (most recent "@
        + decimal(n as nat) + ")\n"@ + line_block(lines, kept)
}

/// `tail -n` on one log: the most recent lines, optionally only those at
/// one level. `path` is how the log file is named in the header.
pub fn tail_logs(path: &str, lines: &Vec<String>, a: &TailArgs) -> (r: String)
    ensures
        r@ == tail_text(path@, views(lines@), opt_view(a.level), a.lines),
{
    let n = clamp_limit(a.lines, DEFAULT_LINES, MAX_LINES);
    let tag: Option<String> = match &a.level {
        Some(l) => Some(cat(&cat("\"level\":\"", &to_upper(l.as_str())), "\"")),
        None => None,
    };
    let ghost lvl = opt_view(a.level);
    let ghost ls = views(lines@);
    let ghost p = |i: int| tail_passes(ls[i], lvl);
    proof {
        reveal_strlit("\"level\":\"");
        reveal_strlit("\"");
    }
    let mut hits: Vec<usize> = Vec::new();
    let mut i: usize = 0;
    while i < lines.len()
        invariant
            i <= lines.len(),
            ls == views(lines@),
            lvl == opt_view(a.level),
            p == (|i: int| tail_passes(ls[i], lvl)),
            match tag {
                Some(t) => lvl matches Some(l) && t@ == level_field(l),
                None => lvl is None,
            },
            ints(hits@) == indices_where(i as nat, p),
            forall|k: int| 0 <= k < hits.len() ==> hits@[k] < i,
        decreases lines.len() - i,
    {
        let pass = match &tag {
            Some(t) => str_contains(lines[i].as_str(), t.as_str()),
            None => true,
        };
        proof {
            assert(ls[i as int] == lines@[i as int]@);
        }
        if pass {
            proof {
                lemma_ints_push(hits@, i);
            }
            hits.push(i);
        }
        i = i + 1;
    }
    let kept = keep_last(&hits, n);
    let mut out = String::from_str("# ");
    out.append(u64_decimal(kept.len() as u64).as_str());
    out.append(" of ");
    out.append(u64_decimal(hits.len() as u64).as_str());
    out.append(" lines from ");
    out.append(path);
    out.append(" (most recent ");
    out.append(u64_decimal(n as u64).as_str());
    out.append(")\n");
    proof {
        assert forall|k: int| 0 <= k < kept.len() implies kept@[k] < lines.len() by {
            assert(kept@[k] == hits@[hits.len() - kept.len() + k]);
        }
    }
    let b = block(lines, &kept);
    out.append(b.as_str());
    proof {
        reveal_strlit("# ");
        reveal_strlit(" of ");
        reveal_strlit(" lines from ");
        reveal_strlit(" (most recent ");
        reveal_strlit(")\n");
        assert(ints(kept@).len() == kept.len());
        assert(ints(hits@).len() == hits.len());
    }
    out
}

// ------------------------------------------------------------------ order by timestamp

/// Position `a` comes before position `b` when lines are ordered by
/// timestamp: the earlier timestamp first, equal timestamps in position
/// order.
pub open spec fn ts_before(keys: Seq<Seq<char>>, a: int, b: int) -> bool {
    ||| lex_le(keys[a], keys[b]) && keys[a] != keys[b]
    ||| keys[a] == keys[b] && a < b
}

/// `o` lists the positions that `s` lists, ordered by timestamp, equal
/// timestamps in position order.
pub open spec fn ordered_by_ts(keys: Seq<Seq<char>>, s: Seq<int>, o: Seq<int>) -> bool {
    &&& o.len() == s.len()
    &&& forall|x: int| #![trigger o.contains(x)] #![trigger s.contains(x)] o.contains(x) <==> s.contains(x)
    &&& forall|i: int, j: int| #![trigger o[i], o[j]] 0 <= i < j < o.len() ==> ts_before(keys, o[i], o[j])
}

/// The positions `s` lists, ordered by timestamp: for positions listed in
/// increasing order, the stable sort by timestamp.
pub open spec fn by_ts(keys: Seq<Seq<char>>, s: Seq<int>) -> Seq<int> {
    choose|o: Seq<int>| ordered_by_ts(keys, s, o)
}

proof fn lemma_before_asymmetric(keys: Seq<Seq<char>>, a: int, b: int)
    requires
        ts_before(keys, a, b),
    ensures
        !ts_before(keys, b, a),
{
    if lex_le(keys[a], keys[b]) && keys[a] != keys[b] && lex_le(keys[b], keys[a]) {
        crate::text::lemma_lex_le_antisymmetric(keys[a], keys[b]);
    }
}

proof fn lemma_before_lex(keys: Seq<Seq<char>>, a: int, b: int)
    requires
        ts_before(keys, a, b),
    ensures
        lex_le(keys[a], keys[b]),
{
    crate::text::lemma_lex_le_reflexive(keys[a]);
}

proof fn lemma_ordered_distinct(keys: Seq<Seq<char>>, o: Seq<int>, i: int, j: int)
    requires
        forall|i: int, j: int| #![trigger o[i], o[j]] 0 <= i < j < o.len() ==> ts_before(keys, o[i], o[j]),
        0 <= i < o.len(),
        0 <= j < o.len(),
        i != j,
    ensures
        o[i] != o[j],
{
    if i < j {
        assert(ts_before(keys, o[i], o[j]));
        if o[i] == o[j] {
            lemma_before_asymmetric(keys, o[i], o[j]);
        }
    } else {
        assert(ts_before(keys, o[j], o[i]));
        if o[i] == o[j] {
            lemma_before_asymmetric(keys, o[j], o[i]);
        }
    }
}

/// Only one sequence orders the positions of `s` by timestamp.
pub proof fn lemma_ordered_unique(keys: Seq<Seq<char>>, s: Seq<int>, o1: Seq<int>, o2: Seq<int>)
    requires
        ordered_by_ts(keys, s, o1),
        ordered_by_ts(keys, s, o2),
    ensures
        o1 == o2,
    decreases o1.len(),
{
    if o1.len() == 0 {
        assert(o1 =~= o2);
    } else {
        let a = o1[0];
        let b = o2[0];
        assert(o2.contains(b));
        assert(s.contains(b));
        assert(o1.contains(b));
        let j = choose|j: int| 0 <= j < o1.len() && o1[j] == b;
        assert(o1.contains(a));
        assert(s.contains(a));
        assert(o2.contains(a));
        let k = choose|k: int| 0 <= k < o2.len() && o2[k] == a;
        if a != b {
            assert(j > 0);
            assert(k > 0);
            assert(ts_before(keys, o1[0], o1[j]));
            assert(ts_before(keys, o2[0], o2[k]));
            lemma_before_asymmetric(keys, a, b);
        }
        let r1 = o1.drop_first();
        let r2 = o2.drop_first();
        assert forall|x: int| #![trigger r2.contains(x)] #![trigger r1.contains(x)] r2.contains(x) <==> r1.contains(x) by {
            if r2.contains(x) {
                let i = choose|i: int| 0 <= i < r2.len() && r2[i] == x;
                lemma_ordered_distinct(keys, o2, 0, i + 1);
                assert(o2.contains(x));
                assert(s.contains(x));
                assert(o1.contains(x));
                let i1 = choose|i1: int| 0 <= i1 < o1.len() && o1[i1] == x;
                assert(i1 != 0);
                assert(r1[i1 - 1] == x);
            }
            if r1.contains(x) {
                let i = choose|i: int| 0 <= i < r1.len() && r1[i] == x;
                lemma_ordered_distinct(keys, o1, 0, i + 1);
                assert(o1.contains(x));
                assert(s.contains(x));
                assert(o2.contains(x));
                let i2 = choose|i2: int| 0 <= i2 < o2.len() && o2[i2] == x;
                assert(i2 != 0);
                assert(r2[i2 - 1] == x);
            }
        }
        assert forall|i: int, j: int| #![trigger r1[i], r1[j]] 0 <= i < j < r1.len() implies ts_before(keys, r1[i], r1[j]) by {
            assert(ts_before(keys, o1[i + 1], o1[j + 1]));
        }
        assert forall|i: int, j: int| #![trigger r2[i], r2[j]] 0 <= i < j < r2.len() implies ts_before(keys, r2[i], r2[j]) by {
            assert(ts_before(keys, o2[i + 1], o2[j + 1]));
        }
        assert(ordered_by_ts(keys, r1, r1));
        assert(ordered_by_ts(keys, r1, r2));
        lemma_ordered_unique(keys, r1, r1, r2);
        assert(a == b);
        assert forall|i: int| 0 <= i < o1.len() implies o1[i] == o2[i] by {
            if i > 0 {
                assert(o1[i] == r1[i - 1]);
                assert(o2[i] == r2[i - 1]);
            }
        }
        assert(o1 =~= o2);
    }
}


proof fn lemma_insert_ordered(k: Seq<Seq<char>>, o0: Seq<usize>, x: usize, p: int)
    requires
        0 <= p <= o0.len(),
        x < k.len(),
        forall|i: int| 0 <= i < o0.len() ==> o0[i] < x,
        forall|i: int, j: int| #![trigger o0[i], o0[j]] 0 <= i < j < o0.len() ==> ts_before(k, o0[i] as int, o0[j] as int),
        forall|q: int| p <= q < o0.len() ==> !lex_le(#[trigger] k[o0[q] as int], k[x as int]),
        p > 0 ==> lex_le(k[o0[p - 1] as int], k[x as int]),
    ensures
        ({
            let n = o0.insert(p, x);
            &&& n.len() == o0.len() + 1
            &&& forall|i: int| 0 <= i < n.len() ==> n[i] <= x
            &&& forall|y: usize| #![trigger n.contains(y)] n.contains(y) <==> (o0.contains(y) || y == x)
            &&& forall|i: int, j: int| #![trigger n[i], n[j]] 0 <= i < j < n.len() ==> ts_before(k, n[i] as int, n[j] as int)
        }),
{
    o0.insert_ensures(p, x);
    let n = o0.insert(p, x);
    assert forall|i: int, j: int| #![trigger n[i], n[j]] 0 <= i < j < n.len() implies ts_before(k, n[i] as int, n[j] as int) by {
        if j < p {
            assert(n[i] == o0[i] && n[j] == o0[j]);
            assert(ts_before(k, o0[i] as int, o0[j] as int));
        } else if i > p {
            assert(n[i] == o0[i - 1] && n[j] == o0[j - 1]);
            assert(ts_before(k, o0[i - 1] as int, o0[j - 1] as int));
        } else if i < p && j > p {
            assert(n[i] == o0[i] && n[j] == o0[j - 1]);
            assert(ts_before(k, o0[i] as int, o0[j - 1] as int));
        } else if j == p {
            assert(n[i] == o0[i] && n[j] == x);
            let a = o0[i] as int;
            let last = o0[p - 1] as int;
            assert(lex_le(k[last], k[x as int]));
            if i < p - 1 {
                assert(ts_before(k, o0[i] as int, o0[p - 1] as int));
                lemma_before_lex(k, a, last);
                crate::text::lemma_lex_le_transitive(k[a], k[last], k[x as int]);
            }
            assert(lex_le(k[a], k[x as int]));
            assert(a < x);
        } else {
            assert(i == p);
            assert(n[i] == x && n[j] == o0[j - 1]);
            let b = o0[j - 1] as int;
            assert(!lex_le(k[b], k[x as int]));
            crate::text::lemma_lex_le_total(k[b], k[x as int]);
            if k[b] == k[x as int] {
                crate::text::lemma_lex_le_reflexive(k[b]);
            }
        }
    }
    assert forall|y: usize| #![trigger n.contains(y)] n.contains(y) <==> (o0.contains(y) || y == x) by {
        if n.contains(y) {
            let i = choose|i: int| 0 <= i < n.len() && n[i] == y;
            if i < p {
                assert(o0[i] == y);
            } else if i > p {
                assert(o0[i - 1] == y);
            }
        }
        if o0.contains(y) {
            let i = choose|i: int| 0 <= i < o0.len() && o0[i] == y;
            if i < p {
                assert(n[i] == y);
            } else {
                assert(n[i + 1] == y);
            }
        }
        if y == x {
            assert(n[p as int] == y);
        }
    }
    assert forall|i: int| 0 <= i < n.len() implies n[i] <= x by {
        if i < p {
            assert(n[i] == o0[i]);
        } else if i > p {
            assert(n[i] == o0[i - 1]);
        }
    }
}

/// Puts position `x`, which comes after every position in `o`, into `o`
/// at its place by timestamp.
fn insert_by_ts(o: &mut Vec<usize>, keys: &Vec<String>, x: usize)
    requires
        x < keys.len(),
        forall|i: int| 0 <= i < old(o).len() ==> old(o)@[i] < x,
        forall|i: int, j: int| #![trigger old(o)@[i], old(o)@[j]] 0 <= i < j < old(o).len() ==> ts_before(views(keys@), old(o)@[i] as int, old(o)@[j] as int),
    ensures
        final(o).len() == old(o).len() + 1,
        forall|i: int| 0 <= i < final(o).len() ==> final(o)@[i] <= x,
        forall|y: usize| #![trigger final(o)@.contains(y)] final(o)@.contains(y) <==> (old(o)@.contains(y) || y == x),
        forall|i: int, j: int| #![trigger final(o)@[i], final(o)@[j]] 0 <= i < j < final(o).len() ==> ts_before(views(keys@), final(o)@[i] as int, final(o)@[j] as int),
{
    let ghost k = views(keys@);
    let ghost o0 = o@;
    let mut p: usize = o.len();
    while p > 0 && !str_le(keys[o[p - 1]].as_str(), keys[x].as_str())
        invariant
            o@ == o0,
            k == views(keys@),
            x < keys.len(),
            p <= o.len(),
            forall|i: int| 0 <= i < o.len() ==> o@[i] < x,
            forall|q: int| p <= q < o.len() ==> !lex_le(#[trigger] k[o@[q] as int], k[x as int]),
        decreases p,
    {
        proof {
            assert(k[o@[p - 1] as int] == keys@[o@[p - 1] as int]@);
            assert(k[x as int] == keys@[x as int]@);
        }
        p = p - 1;
    }
    proof {
        if p > 0 {
            assert(k[o@[p - 1] as int] == keys@[o@[p - 1] as int]@);
            assert(k[x as int] == keys@[x as int]@);
        }
    }
    o.insert(p, x);
    proof {
        lemma_insert_ordered(k, o0, x, p as int);
    }
}

// ------------------------------------------------------------------ grep

/// The arguments of `grep_logs`.
pub struct GrepArgs {
    /// Regular expression (Rust syntax) matched against each raw log line.
    pub pattern: String,
    /// Restrict to one instance's log; omit to search every log file.
    pub instance: Option<String>,
    /// Only lines with a timestamp at or after this one.
    pub since: Option<String>,
    /// Only lines with a timestamp at or before this one.
    pub until: Option<String>,
    /// Most matching lines to return, oldest first (default 100, at most 1000).
    pub limit: Option<usize>,
}

/// `regex::Regex::new`: the error message for a pattern that does not
/// compile, `None` for one that does.
pub uninterp spec fn regex_error(pattern: Seq<char>) -> Option<Seq<char>>;

/// `Regex::is_match`: the compiled `pattern` matches somewhere in `text`.
pub uninterp spec fn regex_found(pattern: Seq<char>, text: Seq<char>) -> bool;

/// Compiles `pattern` with `regex::Regex::new` and hands back the error's
/// message when it does not compile; the outcome is named `regex_error`.
#[verifier::external_body]
fn regex_check(pattern: &str) -> (r: Option<String>)
    ensures
        opt_view(r) == regex_error(pattern@),
{
    regex::Regex::new(pattern).err().map(|e| e.to_string())
}

/// Whether `pattern`, compiled with `regex::Regex::new`, matches in `text`
/// (`Regex::is_match`); the outcome is named `regex_found`. The pattern is
/// compiled at each call.
#[verifier::external_body]
fn regex_is_match(pattern: &str, text: &str) -> (r: bool)
    requires
        regex_error(pattern@) is None,
    ensures
        r == regex_found(pattern@, text@),
{
    regex::Regex::new(pattern).is_ok_and(|re| re.is_match(text))
}

/// The refusal of a pattern that does not compile.
pub open spec fn pattern_refusal(pattern: Seq<char>) -> Option<Seq<char>> {
    match regex_error(pattern) {
        Some(m) => Some("bad regex: "@ + m),
        None => None,
    }
}

/// Why `grep_logs` refuses `pattern`, if it does: it does not compile.
pub fn pattern_error(pattern: &str) -> (r: Option<String>)
    ensures
        opt_view(r) == pattern_refusal(pattern@),
{
    match regex_check(pattern) {
        Some(m) => Some(cat("bad regex: ", m.as_str())),
        None => None,
    }
}

/// The timestamp lies in the window: not before `since`, not after `until`
/// (compared as text, as RFC 3339 timestamps order).
pub open spec fn in_ts_window(ts: Seq<char>, since: Option<Seq<char>>, until: Option<Seq<char>>) -> bool {
    &&& (since matches Some(s) ==> lex_le(s, ts))
    &&& (until matches Some(u) ==> lex_le(ts, u))
}

/// The line is one `grep_logs` returns: its timestamp is in the window and
/// the pattern matches it.
pub open spec fn grep_hit(line: Seq<char>, pattern: Seq<char>, since: Option<Seq<char>>, until: Option<Seq<char>>) -> bool {
    in_ts_window(ts_field(line), since, until) && regex_found(pattern, line)
}

/// The timestamp field of each line.
pub open spec fn ts_keys(lines: Seq<Seq<char>>) -> Seq<Seq<char>> {
    lines.map_values(|l: Seq<char>| ts_field(l))
}

/// Positions of the lines `grep_logs` returns, in the order read.
pub open spec fn grep_hits(lines: Seq<Seq<char>>, pattern: Seq<char>, since: Option<Seq<char>>, until: Option<Seq<char>>) -> Seq<int> {
    indices_where(lines.len() as nat, |i: int| grep_hit(lines[i], pattern, since, until))
}

/// The note a cut-short answer carries.
pub open spec fn truncation_note() -> Seq<char> {
    " -- TRUNCATED; narrow the window or raise limit"@
}

/// What `grep_logs` answers over the lines of `files` log files (read one
/// after another): a header with how many lines are shown, how many
/// matched and across how many files, with a note when the limit cut the
/// answer short; then the matching lines oldest first, at most `limit`
/// (default 100, clamped to 1..=1000).
pub open spec fn grep_text(
    lines: Seq<Seq<char>>,
    files: nat,
    pattern: Seq<char>,
    since: Option<Seq<char>>,
    until: Option<Seq<char>>,
    limit: Option<usize>,
) -> Seq<char> {
    let n = clamped(count_or_default(limit), 1, MAX_LINES as int);
    let hits = grep_hits(lines, pattern, since, until);
    let sorted = by_ts(ts_keys(lines), hits);
    let shown = if sorted.len() > n {
        sorted.take(n)
    } else {
        sorted
    };
    "# "@ + decimal(shown.len()) + " of "@ + decimal(hits.len()) + " matching lines across "@ + decimal(files)
        + " file(s)"@ + (if hits.len() > n {
        truncation_note()
    } else {
        Seq::empty()
    }) + "\n"@ + line_block(lines, shown)
}

proof fn lemma_ints_contains(s: Seq<usize>, y: int)
    ensures
        ints(s).contains(y) <==> (0 <= y <= usize::MAX && s.contains(y as usize)),
{
    if ints(s).contains(y) {
        let i = choose|i: int| 0 <= i < ints(s).len() && ints(s)[i] == y;
        assert(s[i] as int == y);
    }
    if 0 <= y <= usize::MAX && s.contains(y as usize) {
        let i = choose|i: int| 0 <= i < s.len() && s[i] == y as usize;
        assert(ints(s)[i] == y);
    }
}

/// `grep` over raw log lines: `lines` are the lines of `files` log files,
/// read one after another.
pub fn grep_logs(a: &GrepArgs, lines: &Vec<String>, files: usize) -> (r: Result<String, String>)
    ensures
        match r {
            Err(e) => pattern_refusal(a.pattern@) == Some(e@),
            Ok(t) => pattern_refusal(a.pattern@) is None && t@ == grep_text(
                views(lines@),
                files as nat,
                a.pattern@,
                opt_view(a.since),
                opt_view(a.until),
                a.limit,
            ),
        },
{
    if let Some(e) = pattern_error(a.pattern.as_str()) {
        return Err(e);
    }
    let n = clamp_limit(a.limit, DEFAULT_LINES, MAX_LINES);
    let ghost ls = views(lines@);
    let ghost kk = ts_keys(ls);
    let mut keys: Vec<String> = Vec::new();
    let mut i: usize = 0;
    while i < lines.len()
        invariant
            i <= lines.len(),
            ls == views(lines@),
            kk == ts_keys(ls),
            keys.len() == i,
            forall|j: int| 0 <= j < i ==> #[trigger] keys@[j]@ == kk[j],
        decreases lines.len() - i,
    {
        let t = ts_of(lines[i].as_str());
        proof {
            assert(ls[i as int] == lines@[i as int]@);
        }
        keys.push(t);
        i = i + 1;
    }
    proof {
        assert(views(keys@) =~= kk);
    }
    let ghost pat = a.pattern@;
    let ghost si = opt_view(a.since);
    let ghost un = opt_view(a.until);
    let ghost p = |j: int| grep_hit(ls[j], pat, si, un);
    let mut order: Vec<usize> = Vec::new();
    let mut total: usize = 0;
    i = 0;
    while i < lines.len()
        invariant
            i <= lines.len(),
            ls == views(lines@),
            kk == ts_keys(ls),
            views(keys@) == kk,
            keys.len() == lines.len(),
            pat == a.pattern@,
            si == opt_view(a.since),
            un == opt_view(a.until),
            regex_error(pat) is None,
            p == (|j: int| grep_hit(ls[j], pat, si, un)),
            total == order.len(),
            forall|k: int| 0 <= k < order.len() ==> order@[k] < i,
            ordered_by_ts(kk, indices_where(i as nat, p), ints(order@)),
        decreases lines.len() - i,
    {
        let ghost before_h = indices_where(i as nat, p);
        let ghost before_o = order@;
        let key = keys[i].as_str();
        let after_since = match &a.since {
            Some(s) => str_le(s.as_str(), key),
            None => true,
        };
        let before_until = match &a.until {
            Some(u) => str_le(key, u.as_str()),
            None => true,
        };
        proof {
            assert(ls[i as int] == lines@[i as int]@);
            assert(kk[i as int] == ts_field(ls[i as int]));
            assert(views(keys@)[i as int] == keys@[i as int]@);
        }
        if after_since && before_until && regex_is_match(a.pattern.as_str(), lines[i].as_str()) {
            proof {
                assert forall|k: int, j: int| #![trigger order@[k], order@[j]] 0 <= k < j < order.len() implies ts_before(views(keys@), order@[k] as int, order@[j] as int) by {
                    assert(ints(order@)[k] == order@[k] as int);
                    assert(ints(order@)[j] == order@[j] as int);
                }
            }
            insert_by_ts(&mut order, &keys, i);
            total = total + 1;
            proof {
                let h = indices_where((i + 1) as nat, p);
                assert(p(i as int));
                assert(h == before_h.push(i as int));
                let o = ints(order@);
                assert forall|k: int, j: int| #![trigger o[k], o[j]] 0 <= k < j < o.len() implies ts_before(kk, o[k], o[j]) by {
                    assert(ts_before(views(keys@), order@[k] as int, order@[j] as int));
                }
                assert forall|y: int| #![trigger o.contains(y)] #![trigger h.contains(y)] o.contains(y) <==> h.contains(y) by {
                    lemma_ints_contains(order@, y);
                    lemma_ints_contains(before_o, y);
                    assert(ints(before_o).contains(y) <==> before_h.contains(y));
                    if h.contains(y) && y != i {
                        let q = choose|q: int| 0 <= q < h.len() && h[q] == y;
                        assert(q < before_h.len());
                        assert(before_h.contains(y));
                    }
                    if before_h.contains(y) {
                        let q = choose|q: int| 0 <= q < before_h.len() && before_h[q] == y;
                        assert(h[q] == y);
                    }
                    if y == i {
                        assert(h[before_h.len() as int] == y);
                    }
                }
            }
        } else {
            proof {
                assert(!p(i as int));
                assert(indices_where((i + 1) as nat, p) == before_h);
            }
        }
        i = i + 1;
    }
    let ghost hits = indices_where(lines.len() as nat, p);
    proof {
        let o = ints(order@);
        let c = choose|c: Seq<int>| ordered_by_ts(kk, hits, c);
        lemma_ordered_unique(kk, hits, c, o);
        assert(by_ts(kk, hits) == o);
        assert(hits == grep_hits(ls, pat, si, un));
    }
    let truncated = total > n;
    let mut shown = order;
    shown.truncate(n);
    let mut out = String::from_str("# ");
    out.append(u64_decimal(shown.len() as u64).as_str());
    out.append(" of ");
    out.append(u64_decimal(total as u64).as_str());
    out.append(" matching lines across ");
    out.append(u64_decimal(files as u64).as_str());
    out.append(" file(s)");
    if truncated {
        out.append(" -- TRUNCATED; narrow the window or raise limit");
    }
    out.append("\n");
    let b = block(lines, &shown);
    out.append(b.as_str());
    proof {
        reveal_strlit("# ");
        reveal_strlit(" of ");
        reveal_strlit(" matching lines across ");
        reveal_strlit(" file(s)");
        reveal_strlit(" -- TRUNCATED; narrow the window or raise limit");
        reveal_strlit("\n");
        let o = ints(order@);
        assert(ints(shown@) == (if o.len() > n { o.take(n as int) } else { o }));
        assert(hits.len() == total);
    }
    Ok(out)
}

// ------------------------------------------------------------------ lines of a text

/// A line ended by a line feed loses a carriage return before it.
pub open spec fn strip_cr(p: Seq<char>) -> Seq<char> {
    if p.len() > 0 && p.last() == '\r' {
        p.drop_last()
    } else {
        p
    }
}

/// The lines of `s` from the line that starts at `start`, read on from
/// index `i` (no line feed lies between `start` and `i`).
pub open spec fn split_lines(s: Seq<char>, start: int, i: int) -> Seq<Seq<char>>
    decreases s.len() - i,
{
    if i >= s.len() {
        if start < s.len() {
            seq![s.subrange(start, s.len() as int)]
        } else {
            Seq::empty()
        }
    } else if s[i] == '\n' {
        seq![strip_cr(s.subrange(start, i))] + split_lines(s, i + 1, i + 1)
    } else {
        split_lines(s, start, i + 1)
    }
}

/// The lines of `s` as `str::lines` splits it: at each line feed, a
/// carriage return just before it dropped too; a line feed at the very end
/// ends the last line rather than starting an empty one.
pub open spec fn lines_of(s: Seq<char>) -> Seq<Seq<char>> {
    split_lines(s, 0, 0)
}

/// The lines of `text` (see `lines_of`).
pub fn text_lines(text: &str) -> (r: Vec<String>)
    ensures
        views(r@) == lines_of(text@),
{
    let cs = chars_of(text);
    let mut out: Vec<String> = Vec::new();
    let mut start: usize = 0;
    let mut i: usize = 0;
    while i < cs.len()
        invariant
            cs@ == text@,
            start <= i <= cs.len(),
            views(out@) + split_lines(text@, start as int, i as int) == lines_of(text@),
        decreases cs.len() - i,
    {
        if cs[i] == '\n' {
            let stop = if i > start && cs[i - 1] == '\r' {
                i - 1
            } else {
                i
            };
            let piece = string_of(&cs.as_slice()[start..stop]);
            proof {
                let whole = text@.subrange(start as int, i as int);
                if whole.len() > 0 && whole.last() == '\r' {
                    assert(piece@ =~= whole.drop_last());
                } else {
                    assert(piece@ =~= whole);
                }
                lemma_views_push(out@, piece);
                assert(views(out@.push(piece)) + split_lines(text@, i + 1, i + 1) =~= views(out@) + split_lines(
                    text@,
                    start as int,
                    i as int,
                ));
            }
            out.push(piece);
            start = i + 1;
        }
        i = i + 1;
    }
    if start < cs.len() {
        let piece = string_of(&cs.as_slice()[start..cs.len()]);
        proof {
            lemma_views_push(out@, piece);
            assert(piece@ =~= text@.subrange(start as int, text@.len() as int));
            assert(views(out@.push(piece)) =~= views(out@) + split_lines(text@, start as int, i as int));
        }
        out.push(piece);
    } else {
        proof {
            assert(views(out@) + split_lines(text@, start as int, i as int) =~= views(out@));
        }
    }
    out
}

proof fn lemma_views_push(s: Seq<String>, x: String)
    ensures
        views(s.push(x)) == views(s).push(x@),
{
    assert(views(s.push(x)) =~= views(s).push(x@));
}

// ------------------------------------------------------------------ metrics

/// The arguments of `get_metric`.
pub struct MetricArgs {
    /// Service whose /metrics to fetch: gateway | orders | payments-v1 | payments-v2.
    pub instance: String,
    /// Only metric lines whose name starts with this prefix.
    pub name: Option<String>,
}

/// `s` starts with `f`.
pub open spec fn starts_with_text(s: Seq<char>, f: Seq<char>) -> bool {
    f.len() <= s.len() && s.take(f.len() as int) == f
}

/// Does `s` start with `f`?
pub fn starts_with(s: &str, f: &str) -> (r: bool)
    ensures
        r == starts_with_text(s@, f@),
{
    let sv = chars_of(s);
    let fv = chars_of(f);
    if fv.len() > sv.len() {
        return false;
    }
    let mut j: usize = 0;
    while j < fv.len()
        invariant
            sv@ == s@,
            fv@ == f@,
            fv.len() <= sv.len(),
            j <= fv.len(),
            forall|k: int| 0 <= k < j ==> sv@[k] == fv@[k],
        decreases fv.len() - j,
    {
        if sv[j] != fv[j] {
            proof {
                assert(s@.take(f@.len() as int)[j as int] != f@[j as int]);
            }
            return false;
        }
        j = j + 1;
    }
    proof {
        assert(s@.take(f@.len() as int) =~= f@);
    }
    true
}

/// A line of a /metrics answer that `get_metric` keeps: no comment, and,
/// when a name is given, one that starts with it.
pub open spec fn metric_kept(line: Seq<char>, name: Option<Seq<char>>) -> bool {
    &&& !starts_with_text(line, "#"@)
    &&& (name matches Some(n) ==> starts_with_text(line, n))
}

/// What `get_metric` answers for the /metrics text `body` fetched from
/// `url` at `fetched`: a header naming both, then the kept lines.
pub open spec fn metric_text(url: Seq<char>, fetched: Seq<char>, body: Seq<char>, name: Option<Seq<char>>) -> Seq<char> {
    let lines = lines_of(body);
    "# "@ + url + " (fetched "@ + fetched + ")\n"@ + line_block(
        lines,
        indices_where(lines.len() as nat, |i: int| metric_kept(lines[i], name)),
    )
}

/// `curl /metrics`, optionally filtered to metric names with a prefix.
pub fn get_metric(url: &str, fetched: &str, body: &str, a: &MetricArgs) -> (r: String)
    ensures
        r@ == metric_text(url@, fetched@, body@, opt_view(a.name)),
{
    let lines = text_lines(body);
    let ghost ls = views(lines@);
    let ghost nm = opt_view(a.name);
    let ghost p = |i: int| metric_kept(ls[i], nm);
    let mut kept: Vec<usize> = Vec::new();
    let mut i: usize = 0;
    proof {
        reveal_strlit("#");
    }
    while i < lines.len()
        invariant
            i <= lines.len(),
            ls == views(lines@),
            nm == opt_view(a.name),
            p == (|i: int| metric_kept(ls[i], nm)),
            ints(kept@) == indices_where(i as nat, p),
            forall|k: int| 0 <= k < kept.len() ==> kept@[k] < i,
        decreases lines.len() - i,
    {
        let line = lines[i].as_str();
        let keep = !starts_with(line, "#") && match &a.name {
            Some(n) => starts_with(line, n.as_str()),
            None => true,
        };
        proof {
            assert(ls[i as int] == lines@[i as int]@);
        }
        if keep {
            proof {
                lemma_ints_push(kept@, i);
            }
            kept.push(i);
        }
        i = i + 1;
    }
    let mut out = String::from_str("# ");
    out.append(url);
    out.append(" (fetched ");
    out.append(fetched);
    out.append(")\n");
    let b = block(&lines, &kept);
    out.append(b.as_str());
    proof {
        reveal_strlit("# ");
        reveal_strlit(" (fetched ");
        reveal_strlit(")\n");
    }
    out
}

// ------------------------------------------------------------------ one request

/// The arguments of `http_request`.
pub struct HttpArgs {
    /// Instance to call: gateway | orders | payments-v1 | payments-v2.
    pub instance: String,
    /// GET | POST (default GET).
    pub method: Option<String>,
    /// Path on the instance, such as "/health" or "/charge".
    pub path: String,
    /// Request body, sent as it is.
    pub body: Option<String>,
    /// Headers as "Name: value" strings.
    pub headers: Vec<String>,
}

/// The two methods `http_request` sends.
#[derive(Clone, Copy, Debug, PartialEq, Eq, Structural)]
pub enum HttpMethod {
    Get,
    Post,
}

/// The request `http_request` sends.
#[derive(Debug)]
pub struct HttpPlan {
    pub url: String,
    pub method: HttpMethod,
    /// Header names and values, trimmed.
    pub headers: Vec<(String, String)>,
    pub body: Option<String>,
}

/// Index of the first colon in `s`, if any.
pub open spec fn first_colon(s: Seq<char>) -> Option<int> {
    if exists|i: int| 0 <= i < s.len() && s[i] == ':' {
        Some(choose|i: int| 0 <= i < s.len() && s[i] == ':' && forall|j: int| 0 <= j < i ==> s[j] != ':')
    } else {
        None
    }
}

/// The header a "Name: value" string gives: split at its first colon, both
/// sides trimmed; none for a string without a colon.
pub open spec fn header_of(h: Seq<char>) -> Option<(Seq<char>, Seq<char>)> {
    match first_colon(h) {
        Some(i) => Some((trimmed(h.take(i)), trimmed(h.skip(i + 1)))),
        None => None,
    }
}

/// The headers the strings give, in order.
pub open spec fn headers_of(hs: Seq<Seq<char>>, n: int) -> Seq<(Seq<char>, Seq<char>)>
    decreases n,
{
    if n <= 0 || n > hs.len() {
        Seq::empty()
    } else {
        match header_of(hs[n - 1]) {
            Some(p) => headers_of(hs, n - 1).push(p),
            None => headers_of(hs, n - 1),
        }
    }
}

/// Header pairs by their views.
pub open spec fn pair_views(h: Seq<(String, String)>) -> Seq<(Seq<char>, Seq<char>)> {
    h.map_values(|p: (String, String)| (p.0@, p.1@))
}

/// Where `http_request` refuses, and why: no published port, a path
/// without a leading slash, a method other than GET or POST.
pub open spec fn http_refusal(base: Option<Seq<char>>, instance: Seq<char>, path: Seq<char>, method: Option<Seq<char>>) -> Option<Seq<char>> {
    if base is None {
        Some("no published port for '"@ + instance + "'"@)
    } else if !starts_with_text(path, "/"@) {
        Some("path must start with '/'"@)
    } else {
        match method {
            Some(m) => if uppercased(m) == "GET"@ || uppercased(m) == "POST"@ {
                None
            } else {
                Some("method "@ + uppercased(m) + " not allowed (GET | POST)"@)
            },
            None => None,
        }
    }
}

fn split_header(h: &str) -> (r: Option<(String, String)>)
    ensures
        match r {
            Some(p) => header_of(h@) == Some((p.0@, p.1@)),
            None => header_of(h@) is None,
        },
{
    let cs = chars_of(h);
    let mut i: usize = 0;
    while i < cs.len() && cs[i] != ':'
        invariant
            cs@ == h@,
            i <= cs.len(),
            forall|j: int| 0 <= j < i ==> h@[j] != ':',
        decreases cs.len() - i,
    {
        i = i + 1;
    }
    if i == cs.len() {
        return None;
    }
    proof {
        let c = choose|c: int| 0 <= c < h@.len() && h@[c] == ':' && forall|j: int| 0 <= j < c ==> h@[j] != ':';
        assert(c == i) by {
            if c < i {
            } else if c > i {
            }
        }
    }
    let name = string_of(&cs.as_slice()[0..i]);
    let value = string_of(&cs.as_slice()[i + 1..cs.len()]);
    proof {
        assert(name@ =~= h@.take(i as int));
        assert(value@ =~= h@.skip(i + 1));
    }
    Some((trim(name.as_str()), trim(value.as_str())))
}

/// The request `http_request` sends to the instance published at `base`
/// (none: the instance has no published port), or why it sends none.
pub fn http_plan(base: Option<String>, a: &HttpArgs) -> (r: Result<HttpPlan, String>)
    ensures
        match r {
            Err(e) => http_refusal(opt_view(base), a.instance@, a.path@, opt_view(a.method)) == Some(e@),
            Ok(p) => {
                &&& http_refusal(opt_view(base), a.instance@, a.path@, opt_view(a.method)) is None
                &&& p.url@ == base->0@ + a.path@
                &&& p.method == (if a.method matches Some(m) && uppercased(m@) == "POST"@ {
                    HttpMethod::Post
                } else {
                    HttpMethod::Get
                })
                &&& pair_views(p.headers@) == headers_of(views(a.headers@), a.headers.len() as int)
                &&& opt_view(p.body) == opt_view(a.body)
            },
        },
{
    proof {
        reveal_strlit("/");
        reveal_strlit("GET");
        reveal_strlit("POST");
        assert("GET"@[0] != "POST"@[0]);
    }
    let b = match base {
        Some(b) => b,
        None => {
            let e = cat(&cat("no published port for '", a.instance.as_str()), "'");
            return Err(e);
        },
    };
    if !starts_with(a.path.as_str(), "/") {
        return Err(String::from_str("path must start with '/'"));
    }
    let method = match &a.method {
        None => HttpMethod::Get,
        Some(m) => {
            let up = to_upper(m.as_str());
            if str_eq(up.as_str(), "GET") {
                HttpMethod::Get
            } else if str_eq(up.as_str(), "POST") {
                HttpMethod::Post
            } else {
                let e = cat(&cat("method ", up.as_str()), " not allowed (GET | POST)");
                return Err(e);
            }
        },
    };
    let mut headers: Vec<(String, String)> = Vec::new();
    let mut k: usize = 0;
    while k < a.headers.len()
        invariant
            k <= a.headers.len(),
            pair_views(headers@) == headers_of(views(a.headers@), k as int),
        decreases a.headers.len() - k,
    {
        let h = split_header(a.headers[k].as_str());
        proof {
            assert(views(a.headers@)[k as int] == a.headers@[k as int]@);
        }
        match h {
            Some(p) => {
                proof {
                    assert(pair_views(headers@.push(p)) =~= pair_views(headers@).push((p.0@, p.1@)));
                }
                headers.push(p);
            },
            None => {},
        }
        k = k + 1;
    }
    let body = match &a.body {
        Some(x) => Some(x.clone()),
        None => None,
    };
    Ok(HttpPlan { url: cat(b.as_str(), a.path.as_str()), method, headers, body })
}

/// The marker a capped response body ends with.
pub open spec fn response_cap_marker() -> Seq<char> {
    "…[capped at 2 kB]"@
}

/// What `http_request` shows of the instance's answer: status, latency
/// (already written to one decimal), content type, request id, and the
/// body capped at 2 kB.
pub open spec fn response_text(status: u16, ms: Seq<char>, ctype: Seq<char>, rid: Seq<char>, body: Seq<char>) -> Seq<char> {
    "HTTP "@ + decimal(status as nat) + " ("@ + ms + " ms)\ncontent-type: "@ + ctype + "\nx-request-id: "@ + rid + "\n\n"@
        + capped_with(body, 2048, response_cap_marker()) + "\n"@
}

/// The answer `http_request` gives for a response (see `response_text`).
pub fn response(status: u16, ms: &str, ctype: &str, rid: &str, body: &str) -> (r: String)
    ensures
        r@ == response_text(status, ms@, ctype@, rid@, body@),
{
    let mut out = String::from_str("HTTP ");
    out.append(u64_decimal(status as u64).as_str());
    out.append(" (");
    out.append(ms);
    out.append(" ms)\ncontent-type: ");
    out.append(ctype);
    out.append("\nx-request-id: ");
    out.append(rid);
    out.append("\n\n");
    let capped = cap_with(body, 2048, "…[capped at 2 kB]");
    out.append(capped.as_str());
    out.append("\n");
    proof {
        reveal_strlit("HTTP ");
        reveal_strlit(" (");
        reveal_strlit(" ms)\ncontent-type: ");
        reveal_strlit("\nx-request-id: ");
        reveal_strlit("\n\n");
        reveal_strlit("\n");
    }
    out
}

// ------------------------------------------------------------------ the deploy journal

/// The arguments of `deploy_events`.
pub struct DeployArgs {
    /// Only entries with a timestamp at or after this one.
    pub since: Option<String>,
    /// Only entries for this service.
    pub service: Option<String>,
}

/// The nodes of a parsed line, if it parsed.
pub open spec fn doc_nodes(d: Option<JsonDoc>) -> Option<Seq<JsonNode>> {
    match d {
        Some(x) => Some(x.nodes@),
        None => None,
    }
}

/// A journal line `deploy_events` keeps, given its parse (none: it is no
/// JSON): its `ts`, or empty text when it has no text there, is at or after
/// `since`; its `service` is the one asked for.
pub open spec fn journal_kept(d: Option<Seq<JsonNode>>, since: Option<Seq<char>>, service: Option<Seq<char>>) -> bool {
    let ts = match d {
        Some(n) => or_else(str_member(n, "ts"@), Seq::empty()),
        None => Seq::empty(),
    };
    let svc = match d {
        Some(n) => str_member(n, "service"@),
        None => None,
    };
    &&& (since matches Some(s) ==> lex_le(s, ts))
    &&& (service matches Some(v) ==> svc == Some(v))
}

/// The lines at positions `idx`.
pub open spec fn picked(lines: Seq<Seq<char>>, idx: Seq<int>) -> Seq<Seq<char>> {
    idx.map_values(|i: int| lines[i])
}

/// What `deploy_events` answers for the journal at `path` whose text is
/// `body`, each line parsed as `docs` says: a header with how many entries
/// are kept, then the kept lines as they stand, oldest first.
pub open spec fn journal_text(path: Seq<char>, body: Seq<char>, docs: Seq<Option<JsonDoc>>, since: Option<Seq<char>>, service: Option<Seq<char>>) -> Seq<char> {
    let lines = lines_of(body);
    let kept = indices_where(lines.len() as nat, |i: int| journal_kept(doc_nodes(docs[i]), since, service));
    "# "@ + decimal(kept.len()) + " journal entries from "@ + path + "\n"@ + join_seq(picked(lines, kept), "\n"@) + "\n"@
}

/// The deployer's journal, verbatim, optionally only entries from a time on
/// or of one service. `docs` holds the parse of each line of `body`.
pub fn deploy_events(path: &str, body: &str, docs: &Vec<Option<JsonDoc>>, a: &DeployArgs) -> (r: String)
    requires
        docs.len() == lines_of(body@).len(),
        forall|i: int| 0 <= i < docs.len() ==> (#[trigger] docs@[i] matches Some(d) ==> doc_wf(d.nodes@)),
    ensures
        r@ == journal_text(path@, body@, docs@, opt_view(a.since), opt_view(a.service)),
{
    let lines = text_lines(body);
    let ghost ls = views(lines@);
    let ghost si = opt_view(a.since);
    let ghost sv = opt_view(a.service);
    let ghost p = |i: int| journal_kept(doc_nodes(docs@[i]), si, sv);
    let mut kept: Vec<String> = Vec::new();
    let mut i: usize = 0;
    while i < lines.len()
        invariant
            i <= lines.len(),
            ls == views(lines@),
            ls == lines_of(body@),
            docs.len() == lines.len(),
            forall|i: int| 0 <= i < docs.len() ==> (#[trigger] docs@[i] matches Some(d) ==> doc_wf(d.nodes@)),
            si == opt_view(a.since),
            sv == opt_view(a.service),
            p == (|i: int| journal_kept(doc_nodes(docs@[i]), si, sv)),
            views(kept@) == picked(ls, indices_where(i as nat, p)),
        decreases lines.len() - i,
    {
        let (ts, svc) = match &docs[i] {
            Some(d) => {
                let t = match str_member_exec(d, "ts") {
                    Some(t) => t,
                    None => String::new(),
                };
                (t, str_member_exec(d, "service"))
            },
            None => (String::new(), None),
        };
        let keep = match &a.since {
            Some(s) => str_le(s.as_str(), ts.as_str()),
            None => true,
        } && match &a.service {
            Some(v) => match &svc {
                Some(x) => str_eq(x.as_str(), v.as_str()),
                None => false,
            },
            None => true,
        };
        proof {
            assert(ls[i as int] == lines@[i as int]@);
            reveal_strlit("ts");
            reveal_strlit("service");
            assert(keep == p(i as int));
        }
        let ghost prev = indices_where(i as nat, p);
        if keep {
            proof {
                lemma_views_push(kept@, lines@[i as int]);
                assert(indices_where((i + 1) as nat, p) == prev.push(i as int));
                assert(picked(ls, prev.push(i as int)) =~= picked(ls, prev).push(ls[i as int]));
            }
            kept.push(lines[i].clone());
        }
        i = i + 1;
    }
    let n = kept.len();
    let mut out = String::from_str("# ");
    out.append(u64_decimal(n as u64).as_str());
    out.append(" journal entries from ");
    out.append(path);
    out.append("\n");
    let joined = join(&kept, "\n");
    out.append(joined.as_str());
    out.append("\n");
    proof {
        reveal_strlit("# ");
        reveal_strlit(" journal entries from ");
        reveal_strlit("\n");
        assert(views(kept@).len() == n);
    }
    out
}

} // verus!
