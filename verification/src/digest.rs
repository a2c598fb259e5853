//! The canonical digest of a tool's result: the result written as compact
//! JSON with every `eid` member left out, hashed with SHA-256. Evidence ids
//! are assigned per investigation, so leaving them out keeps the digest of
//! one query over one state of the data the same in every investigation.

use vstd::prelude::*;
use vstd::utf8::encode_utf8;
use crate::body::{JsonDoc, JsonNode, child, child_count, doc_wf, push_quoted, quoted};
use crate::identity::{hex_of, sha256_hex, sha256_of};
use crate::text::{join_seq, lemma_join_push, str_eq};
use crate::investigation::{Investigation, eid_text};
use crate::sanitize::{cap_str, capped};

verus! {

/// Node `i` written as compact JSON, as `serde_json::to_string` writes
/// it; when `strip`, members named `eid` are left out.
pub open spec fn written(d: Seq<JsonNode>, i: int, strip: bool) -> Seq<char>
    decreases d.len() - i, child_count(d[i]) + 1,
{
    if !(0 <= i < d.len()) {
        Seq::empty()
    } else {
        match d[i] {
            JsonNode::Null => "null"@,
            JsonNode::Bool(b) => if b {
                "true"@
            } else {
                "false"@
            },
            JsonNode::Number(t) => t@,
            JsonNode::Str(s) => quoted(s@),
            JsonNode::Array(v) => "["@ + join_seq(written_items(d, i, v.len() as nat, strip), ","@) + "]"@,
            JsonNode::Object(m) => "{"@ + join_seq(written_items(d, i, m.len() as nat, strip), ","@) + "}"@,
        }
    }
}

/// The texts of the first `k` children of node `i` that are written:
/// elements as they are, members as `"key":value`; when `strip`, `eid`
/// members left out.
pub open spec fn written_items(d: Seq<JsonNode>, i: int, k: nat, strip: bool) -> Seq<Seq<char>>
    decreases d.len() - i, k,
{
    if k == 0 || !(0 <= i < d.len()) {
        Seq::empty()
    } else {
        let r = written_items(d, i, (k - 1) as nat, strip);
        let c = child(d[i], k - 1);
        match d[i] {
            JsonNode::Array(v) => if i < c < d.len() {
                r.push(written(d, c, strip))
            } else {
                r
            },
            JsonNode::Object(m) => {
                let key = m@[k - 1].0@;
                if (strip && key == "eid"@) || !(i < c < d.len()) {
                    r
                } else {
                    r.push(quoted(key) + ":"@ + written(d, c, strip))
                }
            },
            _ => r,
        }
    }
}

/// The canonical text of node `i`: compact JSON, members named `eid` left
/// out.
pub open spec fn canon(d: Seq<JsonNode>, i: int) -> Seq<char> {
    written(d, i, true)
}

/// The canonical texts of the first `k` children of node `i`.
pub open spec fn canon_items(d: Seq<JsonNode>, i: int, k: nat) -> Seq<Seq<char>> {
    written_items(d, i, k, true)
}

/// Writes node `i` after `out` (see `written`).
fn write_json(d: &JsonDoc, i: usize, strip: bool, out: &mut String)
    requires
        doc_wf(d.nodes@),
        i < d.nodes.len(),
    ensures
        final(out)@ == old(out)@ + written(d.nodes@, i as int, strip),
    decreases d.nodes.len() - i,
{
    let ghost dn = d.nodes@;
    proof {
        reveal_strlit("eid");
    }
    match &d.nodes[i] {
        JsonNode::Null => {
            out.append("null");
        },
        JsonNode::Bool(b) => {
            if *b {
                out.append("true");
            } else {
                out.append("false");
            }
        },
        JsonNode::Number(t) => {
            out.append(t.as_str());
        },
        JsonNode::Str(s) => {
            push_quoted(out, s.as_str());
        },
        JsonNode::Array(v) => {
            out.append("[");
            let ghost out1 = out@;
            let mut k: usize = 0;
            let mut n: usize = 0;
            proof {
                assert(out@ =~= out1 + join_seq(written_items(dn, i as int, 0, strip), ","@));
            }
            while k < v.len()
                invariant
                    dn == d.nodes@,
                    doc_wf(dn),
                    i < dn.len(),
                    dn[i as int] == JsonNode::Array(*v),
                    k <= v.len(),
                    n == written_items(dn, i as int, k as nat, strip).len(),
                    n <= k,
                    out@ == out1 + join_seq(written_items(dn, i as int, k as nat, strip), ","@),
                decreases v.len() - k,
            {
                let c = v[k];
                proof {
                    assert(child(dn[i as int], k as int) == c as int);
                    assert(i < c && c < dn.len());
                    lemma_join_push(written_items(dn, i as int, k as nat, strip), written(dn, c as int, strip), ","@);
                }
                if n > 0 {
                    out.append(",");
                }
                write_json(d, c, strip, out);
                n = n + 1;
                k = k + 1;
            }
            out.append("]");
            proof {
                assert(out@ =~= old(out)@ + written(dn, i as int, strip));
            }
        },
        JsonNode::Object(m) => {
            out.append("{");
            let ghost out1 = out@;
            let mut k: usize = 0;
            let mut n: usize = 0;
            proof {
                assert(out@ =~= out1 + join_seq(written_items(dn, i as int, 0, strip), ","@));
            }
            while k < m.len()
                invariant
                    dn == d.nodes@,
                    doc_wf(dn),
                    i < dn.len(),
                    dn[i as int] == JsonNode::Object(*m),
                    k <= m.len(),
                    n == written_items(dn, i as int, k as nat, strip).len(),
                    n <= k,
                    out@ == out1 + join_seq(written_items(dn, i as int, k as nat, strip), ","@),
                decreases m.len() - k,
            {
                let key = &m[k].0;
                let c = m[k].1;
                proof {
                    assert(child(dn[i as int], k as int) == c as int);
                    assert(i < c && c < dn.len());
                }
                if !(strip && str_eq(key.as_str(), "eid")) {
                    let ghost item = quoted(key@) + ":"@ + written(dn, c as int, strip);
                    proof {
                        lemma_join_push(written_items(dn, i as int, k as nat, strip), item, ","@);
                    }
                    if n > 0 {
                        out.append(",");
                    }
                    push_quoted(out, key.as_str());
                    out.append(":");
                    write_json(d, c, strip, out);
                    n = n + 1;
                    proof {
                        assert(out@ =~= out1 + join_seq(written_items(dn, i as int, (k + 1) as nat, strip), ","@));
                    }
                }
                k = k + 1;
            }
            out.append("}");
            proof {
                assert(out@ =~= old(out)@ + written(dn, i as int, strip));
            }
        },
    }
}

/// The canonical text of a document (see `canon`).
pub fn canonical(d: &JsonDoc) -> (r: String)
    requires
        doc_wf(d.nodes@),
    ensures
        r@ == canon(d.nodes@, 0),
{
    let mut out = String::new();
    write_json(d, 0, true, &mut out);
    proof {
        assert(out@ =~= canon(d.nodes@, 0));
    }
    out
}

/// The digest of a result: the SHA-256, in lower-case hex, of its canonical
/// text's UTF-8 bytes.
pub open spec fn result_digest(d: Seq<JsonNode>) -> Seq<char> {
    hex_of(sha256_of(encode_utf8(canon(d, 0))))
}

/// The canonical digest of a result (see `result_digest`).
pub fn digest_json(d: &JsonDoc) -> (r: String)
    requires
        doc_wf(d.nodes@),
    ensures
        r@ == result_digest(d.nodes@),
{
    let t = canonical(d);
    sha256_hex(t.as_str().as_bytes())
}

// ------------------------------------------------------------------ evidence ids

/// Index of the first member named `eid` from `k` on, or the number of
/// members when there is none.
pub open spec fn eid_at(m: Seq<(String, usize)>, k: int) -> int
    decreases m.len() - k,
{
    if k < 0 || k >= m.len() {
        m.len() as int
    } else if m[k].0@ == "eid"@ {
        k
    } else {
        eid_at(m, k + 1)
    }
}

proof fn lemma_eid_at(m: Seq<(String, usize)>, k: int)
    requires
        0 <= k <= m.len(),
    ensures
        k <= eid_at(m, k) <= m.len(),
        eid_at(m, k) < m.len() ==> m[eid_at(m, k)].0@ == "eid"@,
    decreases m.len() - k,
{
    if k < m.len() && m[k].0@ != "eid"@ {
        lemma_eid_at(m, k + 1);
    }
}

/// `s` is `d` with evidence id `eid` stamped on node `p`: when that node is
/// an object, the id is a new text node at the end and the object's `eid`
/// member (its first one, else a new last one) holds it; any other node is
/// left as it is.
pub open spec fn stamped(d: Seq<JsonNode>, s: Seq<JsonNode>, p: int, eid: Seq<char>) -> bool {
    match d[p] {
        JsonNode::Object(m) => {
            let at = eid_at(m@, 0);
            &&& s.len() == d.len() + 1
            &&& forall|j: int| 0 <= j < d.len() && j != p ==> s[j] == d[j]
            &&& (s[d.len() as int] matches JsonNode::Str(x) && x@ == eid)
            &&& (s[p] matches JsonNode::Object(m2) && {
                &&& m2@.len() == (if at < m@.len() {
                    m@.len() as int
                } else {
                    m@.len() + 1 as int
                })
                &&& forall|k: int| 0 <= k < m@.len() && k != at ==> m2@[k].0@ == m@[k].0@ && m2@[k].1 == m@[k].1
                &&& m2@[at].0@ == "eid"@
                &&& m2@[at].1 == d.len()
            })
        },
        _ => s == d,
    }
}

/// Stamps evidence id `eid` on the item at node `p` (see `stamped`).
pub fn stamp_eid(d: &mut JsonDoc, p: usize, eid: String)
    requires
        doc_wf(old(d).nodes@),
        p < old(d).nodes.len(),
        old(d).nodes.len() < usize::MAX,
    ensures
        doc_wf(final(d).nodes@),
        stamped(old(d).nodes@, final(d).nodes@, p as int, eid@),
{
    let n = d.nodes.len();
    let ghost d0 = d.nodes@;
    let m = match &d.nodes[p] {
        JsonNode::Object(m) => m,
        _ => {
            return;
        },
    };
    let mut m2: Vec<(String, usize)> = Vec::new();
    let mut k: usize = 0;
    let mut found = false;
    proof {
        reveal_strlit("eid");
        lemma_eid_at(m@, 0);
    }
    while k < m.len()
        invariant
            p < d0.len(),
            d0[p as int] == JsonNode::Object(*m),
            k <= m.len(),
            m2.len() == k,
            0 <= eid_at(m@, 0) <= m.len(),
            eid_at(m@, 0) < m.len() ==> m@[eid_at(m@, 0)].0@ == "eid"@,
            found <==> eid_at(m@, 0) < k,
            !found ==> eid_at(m@, 0) == eid_at(m@, k as int),
            forall|j: int| 0 <= j < k && j != eid_at(m@, 0) ==> m2@[j].0@ == m@[j].0@ && m2@[j].1 == m@[j].1,
            found ==> m2@[eid_at(m@, 0)].0@ == "eid"@ && m2@[eid_at(m@, 0)].1 == n,
        decreases m.len() - k,
    {
        proof {
            lemma_eid_at(m@, k as int);
        }
        let ghost before = m2@;
        if !found && str_eq(m[k].0.as_str(), "eid") {
            m2.push((String::from_str("eid"), n));
            found = true;
            proof {
                assert(eid_at(m@, k as int) == k);
                assert(m2@[k as int].0@ == "eid"@);
            }
        } else {
            let x = m[k].0.clone();
            m2.push((x, m[k].1));
            proof {
                if found {
                    assert(eid_at(m@, 0) < before.len());
                    assert(m2@ == before.push((x, m@[k as int].1)));
                    assert(m2@[eid_at(m@, 0)] == before[eid_at(m@, 0)]);
                } else {
                    assert(eid_at(m@, k as int) == eid_at(m@, k + 1));
                }
            }
        }
        k = k + 1;
    }
    if !found {
        m2.push((String::from_str("eid"), n));
    }
    proof {
        lemma_eid_at(m@, 0);
    }
    d.nodes.set(p, JsonNode::Object(m2));
    d.nodes.push(JsonNode::Str(eid));
    proof {
        let s = d.nodes@;
        assert forall|i: int, c: int| 0 <= i < s.len() && 0 <= c < child_count(s[i]) implies i < #[trigger] child(s[i], c) < s.len() by {
            if i != p && i < n {
                assert(s[i] == d0[i]);
                assert(child(d0[i], c) < d0.len());
            } else if i == p {
                if c != eid_at(m@, 0) {
                    assert(child(d0[i], c) == child(s[i], c));
                }
            }
        }
    }
}

proof fn lemma_canon_kept(d: Seq<JsonNode>, s: Seq<JsonNode>, p: int, eid: Seq<char>, i: int)
    requires
        doc_wf(d),
        0 <= p < d.len(),
        stamped(d, s, p, eid),
        0 <= i < d.len(),
    ensures
        canon(s, i) == canon(d, i),
    decreases d.len() - i, child_count(d[i]) + 1,
{
    if i == p && d[p] is Object {
        let m = d[p]->Object_0;
        let m2 = s[p]->Object_0;
        lemma_eid_at(m@, 0);
        lemma_items_at_p(d, s, p, eid, m@.len() as nat);
        if eid_at(m@, 0) == m@.len() {
            assert(canon_items(s, p, (m@.len() + 1) as nat) == canon_items(s, p, m@.len() as nat));
        }
    } else {
        if !(d[p] is Object) {
            assert(s == d);
        }
        assert(s[i] == d[i]);
        match d[i] {
            JsonNode::Array(v) => {
                lemma_items_kept(d, s, p, eid, i, v.len() as nat);
            },
            JsonNode::Object(m) => {
                lemma_items_kept(d, s, p, eid, i, m.len() as nat);
            },
            _ => {},
        }
    }
}

proof fn lemma_items_kept(d: Seq<JsonNode>, s: Seq<JsonNode>, p: int, eid: Seq<char>, i: int, k: nat)
    requires
        doc_wf(d),
        0 <= p < d.len(),
        stamped(d, s, p, eid),
        0 <= i < d.len(),
        !(i == p && d[p] is Object),
        k <= child_count(d[i]),
    ensures
        canon_items(s, i, k) == canon_items(d, i, k),
    decreases d.len() - i, k,
{
    if k > 0 {
        if !(d[p] is Object) {
            assert(s == d);
        }
        assert(s[i] == d[i]);
        lemma_items_kept(d, s, p, eid, i, (k - 1) as nat);
        let c = child(d[i], k - 1);
        assert(i < c < d.len());
        lemma_canon_kept(d, s, p, eid, c);
    }
}

proof fn lemma_items_at_p(d: Seq<JsonNode>, s: Seq<JsonNode>, p: int, eid: Seq<char>, k: nat)
    requires
        doc_wf(d),
        0 <= p < d.len(),
        d[p] is Object,
        stamped(d, s, p, eid),
        k <= child_count(d[p]),
    ensures
        canon_items(s, p, k) == canon_items(d, p, k),
    decreases d.len() - p, k,
{
    if k > 0 {
        let m = d[p]->Object_0;
        let m2 = s[p]->Object_0;
        lemma_eid_at(m@, 0);
        lemma_items_at_p(d, s, p, eid, (k - 1) as nat);
        if k - 1 != eid_at(m@, 0) {
            let c = child(d[p], k - 1);
            assert(child(s[p], k - 1) == c);
            assert(p < c < d.len());
            lemma_canon_kept(d, s, p, eid, c);
        }
    }
}

/// Stamping an evidence id leaves the digest as it was: the digest of a
/// result is the same whichever ids an investigation gives its items.
pub proof fn law_stamping_keeps_the_digest(d: Seq<JsonNode>, s: Seq<JsonNode>, p: int, eid: Seq<char>)
    requires
        doc_wf(d),
        0 <= p < d.len(),
        stamped(d, s, p, eid),
    ensures
        result_digest(s) == result_digest(d),
{
    lemma_canon_kept(d, s, p, eid, 0);
}

// ------------------------------------------------------------------ documents alike but for eids

/// The members of an object that the digest reads, in order: key and
/// child, `eid` members left out.
pub open spec fn kept_members(m: Seq<(String, usize)>) -> Seq<(Seq<char>, usize)>
    decreases m.len(),
{
    if m.len() == 0 {
        Seq::empty()
    } else {
        let r = kept_members(m.drop_last());
        if m.last().0@ == "eid"@ {
            r
        } else {
            r.push((m.last().0@, m.last().1))
        }
    }
}

/// The keys of the members an object keeps in its digest.
pub open spec fn kept_keys(m: Seq<(String, usize)>) -> Seq<Seq<char>> {
    kept_members(m).map_values(|e: (Seq<char>, usize)| e.0)
}

/// Two nodes that are the same apart from their `eid` members and their
/// children (which `alike_but_eids` pairs up).
pub open spec fn node_alike(a: JsonNode, b: JsonNode) -> bool {
    match a {
        JsonNode::Null => b is Null,
        JsonNode::Bool(x) => b matches JsonNode::Bool(y) && x == y,
        JsonNode::Number(x) => b matches JsonNode::Number(y) && x@ == y@,
        JsonNode::Str(x) => b matches JsonNode::Str(y) && x@ == y@,
        JsonNode::Array(v) => b matches JsonNode::Array(w) && v@.len() == w@.len(),
        JsonNode::Object(m) => b matches JsonNode::Object(n) && kept_keys(m@) == kept_keys(n@),
    }
}

/// The child of `b` paired with child `x` of `a` (`a`'s member `x`, not an
/// `eid` member, pairs with the member of `b` that `b` keeps at the same
/// place).
pub open spec fn paired_child(a: JsonNode, b: JsonNode, x: int) -> int {
    match a {
        JsonNode::Object(m) => match b {
            JsonNode::Object(n) => kept_members(n@)[kept_members(m@.take(x)).len() as int].1 as int,
            _ => -1,
        },
        _ => child(b, x),
    }
}

/// Node `i1` of `d1` and node `i2` of `d2` hold the same JSON once every
/// `eid` member is left out of both: the nodes are alike, and so are their
/// children that are not `eid` members, taken in order.
pub open spec fn alike_but_eids(d1: Seq<JsonNode>, i1: int, d2: Seq<JsonNode>, i2: int) -> bool
    decreases d1.len() - i1, child_count(d1[i1]) + 1,
{
    if !(0 <= i1 < d1.len()) {
        false
    } else {
        &&& 0 <= i2 < d2.len()
        &&& node_alike(d1[i1], d2[i2])
        &&& alike_children(d1, i1, d2, i2, child_count(d1[i1]))
    }
}

/// The first `k` children of node `i1` that are not `eid` members are alike
/// with the children of node `i2` they pair with.
pub open spec fn alike_children(d1: Seq<JsonNode>, i1: int, d2: Seq<JsonNode>, i2: int, k: nat) -> bool
    decreases d1.len() - i1, k,
{
    if k == 0 || !(0 <= i1 < d1.len()) {
        true
    } else if !alike_children(d1, i1, d2, i2, (k - 1) as nat) {
        false
    } else {
        let c = child(d1[i1], k - 1);
        let skipped = match d1[i1] {
            JsonNode::Object(m) => m@[k - 1].0@ == "eid"@,
            _ => false,
        };
        if skipped || !(i1 < c < d1.len()) {
            true
        } else {
            alike_but_eids(d1, c, d2, paired_child(d1[i1], d2[i2], k - 1))
        }
    }
}

/// The texts of members (key and child) as the digest writes them.
spec fn member_texts(d: Seq<JsonNode>, ms: Seq<(Seq<char>, usize)>) -> Seq<Seq<char>> {
    Seq::new(ms.len(), |x: int| quoted(ms[x].0) + ":"@ + canon(d, ms[x].1 as int))
}

proof fn lemma_object_items(d: Seq<JsonNode>, i: int, k: nat)
    requires
        doc_wf(d),
        0 <= i < d.len(),
        d[i] is Object,
        k <= child_count(d[i]),
    ensures
        canon_items(d, i, k) == member_texts(d, kept_members(d[i]->Object_0@.take(k as int))),
    decreases k,
{
    let m = d[i]->Object_0@;
    if k == 0 {
        assert(m.take(0) =~= Seq::<(String, usize)>::empty());
        assert(member_texts(d, Seq::empty()) =~= Seq::<Seq<char>>::empty());
    } else {
        lemma_object_items(d, i, (k - 1) as nat);
        assert(m.take(k as int).drop_last() =~= m.take(k - 1));
        assert(m.take(k as int).last() == m[k - 1]);
        assert(i < child(d[i], k - 1) < d.len());
        let r = kept_members(m.take(k - 1));
        if m[k - 1].0@ != "eid"@ {
            let e = (m[k - 1].0@, m[k - 1].1);
            assert(member_texts(d, r.push(e)) =~= member_texts(d, r).push(
                quoted(e.0) + ":"@ + canon(d, e.1 as int),
            ));
        }
    }
}

proof fn lemma_array_items(d: Seq<JsonNode>, i: int, k: nat)
    requires
        doc_wf(d),
        0 <= i < d.len(),
        d[i] is Array,
        k <= child_count(d[i]),
    ensures
        canon_items(d, i, k) == Seq::new(k, |x: int| canon(d, d[i]->Array_0@[x] as int)),
    decreases k,
{
    if k > 0 {
        lemma_array_items(d, i, (k - 1) as nat);
        assert(i < child(d[i], k - 1) < d.len());
        assert(canon_items(d, i, k) =~= Seq::new(k, |x: int| canon(d, d[i]->Array_0@[x] as int)));
    } else {
        assert(canon_items(d, i, 0) =~= Seq::new(0, |x: int| canon(d, d[i]->Array_0@[x] as int)));
    }
}

proof fn lemma_alike_children(d1: Seq<JsonNode>, i1: int, d2: Seq<JsonNode>, i2: int, k: nat)
    requires
        doc_wf(d1),
        0 <= i1 < d1.len(),
        k <= child_count(d1[i1]),
        alike_children(d1, i1, d2, i2, k),
    ensures
        forall|x: int|
            0 <= x < k && !(d1[i1] matches JsonNode::Object(m) && m@[x].0@ == "eid"@) ==> alike_but_eids(
                d1,
                #[trigger] child(d1[i1], x),
                d2,
                paired_child(d1[i1], d2[i2], x),
            ),
    decreases k,
{
    if k > 0 {
        lemma_alike_children(d1, i1, d2, i2, (k - 1) as nat);
        assert(i1 < child(d1[i1], k - 1) < d1.len());
    }
}

proof fn lemma_kept_origin(m: Seq<(String, usize)>)
    ensures
        forall|y: int|
            0 <= y < kept_members(m).len() ==> exists|x: int|
                0 <= x < m.len() && m[x].0@ != "eid"@ && #[trigger] kept_members(m)[y] == (m[x].0@, m[x].1)
                    && y == kept_members(m.take(x)).len(),
    decreases m.len(),
{
    if m.len() > 0 {
        let t = m.drop_last();
        lemma_kept_origin(t);
        assert forall|y: int| 0 <= y < kept_members(m).len() implies exists|x: int|
            0 <= x < m.len() && m[x].0@ != "eid"@ && #[trigger] kept_members(m)[y] == (m[x].0@, m[x].1)
                && y == kept_members(m.take(x)).len() by {
            if y < kept_members(t).len() {
                let x = choose|x: int|
                    0 <= x < t.len() && t[x].0@ != "eid"@ && #[trigger] kept_members(t)[y] == (t[x].0@, t[x].1)
                        && y == kept_members(t.take(x)).len();
                assert(t[x] == m[x]);
                assert(t.take(x) =~= m.take(x));
                assert(kept_members(m)[y] == kept_members(t)[y]);
            } else {
                assert(m[m.len() - 1] == m.last());
                assert(m.take(m.len() - 1) =~= t);
            }
        }
    }
}

proof fn lemma_alike_canon(d1: Seq<JsonNode>, i1: int, d2: Seq<JsonNode>, i2: int)
    requires
        doc_wf(d1),
        doc_wf(d2),
        alike_but_eids(d1, i1, d2, i2),
    ensures
        canon(d1, i1) == canon(d2, i2),
    decreases d1.len() - i1,
{
    lemma_alike_children(d1, i1, d2, i2, child_count(d1[i1]));
    match d1[i1] {
        JsonNode::Array(v) => {
            let w = d2[i2]->Array_0;
            lemma_array_items(d1, i1, v@.len() as nat);
            lemma_array_items(d2, i2, w@.len() as nat);
            assert forall|x: int| 0 <= x < v@.len() implies canon(d1, v@[x] as int) == canon(d2, w@[x] as int) by {
                assert(child(d1[i1], x) == v@[x]);
                assert(paired_child(d1[i1], d2[i2], x) == w@[x]);
                lemma_alike_canon(d1, v@[x] as int, d2, w@[x] as int);
            }
            assert(canon_items(d1, i1, v@.len() as nat) =~= canon_items(d2, i2, w@.len() as nat));
        },
        JsonNode::Object(m) => {
            let n = d2[i2]->Object_0;
            lemma_object_items(d1, i1, m@.len() as nat);
            lemma_object_items(d2, i2, n@.len() as nat);
            assert(m@.take(m@.len() as int) =~= m@);
            assert(n@.take(n@.len() as int) =~= n@);
            let k1 = kept_members(m@);
            let k2 = kept_members(n@);
            assert(k1.len() == kept_keys(m@).len());
            assert(k2.len() == kept_keys(n@).len());
            lemma_kept_origin(m@);
            assert forall|y: int| 0 <= y < k1.len() implies k1[y].0 == k2[y].0 && canon(d1, k1[y].1 as int) == canon(
                d2,
                k2[y].1 as int,
            ) by {
                let x = choose|x: int|
                    0 <= x < m@.len() && m@[x].0@ != "eid"@ && #[trigger] kept_members(m@)[y] == (m@[x].0@, m@[x].1)
                        && y == kept_members(m@.take(x)).len();
                assert(kept_keys(m@)[y] == k1[y].0);
                assert(kept_keys(n@)[y] == k2[y].0);
                assert(child(d1[i1], x) == m@[x].1);
                assert(i1 < child(d1[i1], x) < d1.len());
                assert(paired_child(d1[i1], d2[i2], x) == k2[y].1);
                lemma_alike_canon(d1, m@[x].1 as int, d2, k2[y].1 as int);
            }
            assert(member_texts(d1, k1) =~= member_texts(d2, k2));
        },
        _ => {},
    }
}

/// Evidence ids never reach a digest: two results that hold the same JSON
/// once every `eid` member is left out of both have the same digest.
pub proof fn law_digest_ignores_eids(d1: Seq<JsonNode>, d2: Seq<JsonNode>)
    requires
        doc_wf(d1),
        doc_wf(d2),
        alike_but_eids(d1, 0, d2, 0),
    ensures
        result_digest(d1) == result_digest(d2),
{
    lemma_alike_canon(d1, 0, d2, 0);
}

/// Gives each item of a result, at nodes `items`, the next evidence id of
/// the investigation and stamps it on the item; returns the ids in order.
/// The result's digest stays what it was.
pub fn stamp_items(d: &mut JsonDoc, items: &Vec<usize>, inv: &mut Investigation) -> (eids: Vec<String>)
    requires
        doc_wf(old(d).nodes@),
        forall|k: int| 0 <= k < items.len() ==> items@[k] < old(d).nodes.len(),
        old(d).nodes.len() + items.len() < usize::MAX,
        old(inv).next_eid + items.len() < u64::MAX,
    ensures
        doc_wf(final(d).nodes@),
        result_digest(final(d).nodes@) == result_digest(old(d).nodes@),
        eids.len() == items.len(),
        forall|k: int| 0 <= k < eids.len() ==> (#[trigger] eids@[k])@ == eid_text((old(inv).next_eid + k) as nat),
        final(inv).next_eid == old(inv).next_eid + items.len(),
        final(inv).next_n == old(inv).next_n,
        final(inv).calls_total == old(inv).calls_total,
        final(inv).recent_calls@ == old(inv).recent_calls@,
        final(inv).id == old(inv).id,
{
    let mut eids: Vec<String> = Vec::new();
    let mut k: usize = 0;
    while k < items.len()
        invariant
            k <= items.len(),
            doc_wf(d.nodes@),
            old(d).nodes.len() <= d.nodes.len() <= old(d).nodes.len() + k,
            forall|j: int| 0 <= j < items.len() ==> items@[j] < old(d).nodes.len(),
            old(d).nodes.len() + items.len() < usize::MAX,
            result_digest(d.nodes@) == result_digest(old(d).nodes@),
            eids.len() == k,
            forall|j: int| 0 <= j < k ==> (#[trigger] eids@[j])@ == eid_text((old(inv).next_eid + j) as nat),
            inv.next_eid == old(inv).next_eid + k,
            old(inv).next_eid + items.len() < u64::MAX,
            inv.next_n == old(inv).next_n,
            inv.calls_total == old(inv).calls_total,
            inv.recent_calls@ == old(inv).recent_calls@,
            inv.id == old(inv).id,
        decreases items.len() - k,
    {
        let e = inv.issue_eid();
        let ghost before = d.nodes@;
        stamp_eid(d, items[k], e.clone());
        proof {
            law_stamping_keeps_the_digest(before, d.nodes@, items@[k as int] as int, e@);
            if !(before[items@[k as int] as int] is Object) {
                assert(d.nodes@ == before);
            }
        }
        eids.push(e);
        k = k + 1;
    }
    eids
}

// ------------------------------------------------------------------ capping an item

/// The byte length of a text, as `str::len` gives it.
pub open spec fn byte_len(s: Seq<char>) -> usize {
    encode_utf8(s).len() as usize
}

/// The byte size of a document written as compact JSON.
pub open spec fn json_size(d: Seq<JsonNode>) -> usize {
    byte_len(written(d, 0, false))
}

/// The byte length of node `c` when it is a string, else -1.
pub open spec fn str_bytes(d: Seq<JsonNode>, c: int) -> int {
    if 0 <= c < d.len() {
        match d[c] {
            JsonNode::Str(s) => byte_len(s@) as int,
            _ => -1,
        }
    } else {
        -1
    }
}

/// Among the first `k` members of `m`, the position of the one holding the
/// longest string (the last of the longest), if any holds a string.
pub open spec fn longest_upto(d: Seq<JsonNode>, m: Seq<(String, usize)>, k: nat) -> Option<int>
    decreases k,
{
    if k == 0 {
        None
    } else {
        let r = longest_upto(d, m, (k - 1) as nat);
        let b = str_bytes(d, m[k - 1].1 as int);
        if b < 0 {
            r
        } else {
            match r {
                None => Some(k - 1),
                Some(x) => if b >= str_bytes(d, m[x].1 as int) {
                    Some(k - 1)
                } else {
                    r
                },
            }
        }
    }
}

/// The string node one round of capping halves: when the document is an
/// object over `max_bytes` whose longest string member holds 64 bytes or
/// more, that member's string.
pub open spec fn cap_target(d: Seq<JsonNode>, max_bytes: nat) -> Option<int> {
    if json_size(d) <= max_bytes {
        None
    } else {
        match d[0] {
            JsonNode::Object(m) => match longest_upto(d, m@, m@.len()) {
                Some(x) => if str_bytes(d, m@[x].1 as int) < 64 {
                    None
                } else {
                    Some(m@[x].1 as int)
                },
                None => None,
            },
            _ => None,
        }
    }
}

/// `d2` is `d` after one round of capping: the target string is cut back
/// to half its bytes (on a character boundary) and marked `…[capped]`.
pub open spec fn cap_round(d: Seq<JsonNode>, d2: Seq<JsonNode>, max_bytes: nat) -> bool {
    let c = cap_target(d, max_bytes)->0;
    &&& cap_target(d, max_bytes) is Some
    &&& d2.len() == d.len()
    &&& forall|j: int| 0 <= j < d.len() && j != c ==> d2[j] == d[j]
    &&& d2[c] matches JsonNode::Str(s2) && s2@ == capped(d[c]->Str_0@, (str_bytes(d, c) / 2) as nat)
}

/// `ds` is a run of capping rounds from its first document to its last:
/// each step one round, at most eight, stopping early only where no round
/// applies.
pub open spec fn cap_run(ds: Seq<Seq<JsonNode>>, max_bytes: nat) -> bool {
    &&& 1 <= ds.len() <= 9
    &&& forall|i: int| 0 <= i < ds.len() - 1 ==> cap_round(#[trigger] ds[i], ds[i + 1], max_bytes)
    &&& ds.len() < 9 ==> cap_target(ds.last(), max_bytes) is None
}

/// The item written as compact JSON (as `serde_json::to_string` writes it).
pub fn compact_json(d: &JsonDoc) -> (r: String)
    requires
        doc_wf(d.nodes@),
    ensures
        r@ == written(d.nodes@, 0, false),
{
    let mut out = String::new();
    write_json(d, 0, false, &mut out);
    proof {
        assert(out@ =~= written(d.nodes@, 0, false));
    }
    out
}

fn cap_target_exec(d: &JsonDoc, max_bytes: usize) -> (r: Option<usize>)
    requires
        doc_wf(d.nodes@),
    ensures
        match r {
            Some(c) => cap_target(d.nodes@, max_bytes as nat) == Some(c as int) && c < d.nodes.len(),
            None => cap_target(d.nodes@, max_bytes as nat) is None,
        },
{
    let text = compact_json(d);
    if text.as_str().len() <= max_bytes {
        return None;
    }
    let m = match &d.nodes[0] {
        JsonNode::Object(m) => m,
        _ => {
            return None;
        },
    };
    let ghost dn = d.nodes@;
    let mut best: Option<usize> = None;
    let mut best_len: usize = 0;
    let mut k: usize = 0;
    while k < m.len()
        invariant
            dn == d.nodes@,
            doc_wf(dn),
            dn[0] == JsonNode::Object(*m),
            k <= m.len(),
            match best {
                Some(x) => longest_upto(dn, m@, k as nat) == Some(x as int) && x < k && best_len == str_bytes(
                    dn,
                    m@[x as int].1 as int,
                ),
                None => longest_upto(dn, m@, k as nat) is None,
            },
        decreases m.len() - k,
    {
        let c = m[k].1;
        assert(child(dn[0], k as int) == c);
        assert(0 < c < dn.len());
        match &d.nodes[c] {
            JsonNode::Str(s) => {
                let b = s.as_str().len();
                match best {
                    None => {
                        best = Some(k);
                        best_len = b;
                    },
                    Some(_) => {
                        if b >= best_len {
                            best = Some(k);
                            best_len = b;
                        }
                    },
                }
            },
            _ => {},
        }
        k = k + 1;
    }
    match best {
        Some(x) => {
            if best_len < 64 {
                None
            } else {
                assert(child(dn[0], x as int) == m@[x as int].1);
                Some(m[x].1)
            }
        },
        None => None,
    }
}

/// Caps an evidence item at `max_bytes` written as compact JSON: while it
/// is over, and for at most eight rounds, its longest string member (of 64
/// bytes or more) is cut back to half its bytes and marked `…[capped]`.
pub fn cap_item(d: &mut JsonDoc, max_bytes: usize)
    requires
        doc_wf(old(d).nodes@),
    ensures
        doc_wf(final(d).nodes@),
        exists|ds: Seq<Seq<JsonNode>>|
            cap_run(ds, max_bytes as nat) && ds[0] == old(d).nodes@ && #[trigger] ds.last() == final(d).nodes@,
{
    let ghost mut ds: Seq<Seq<JsonNode>> = seq![d.nodes@];
    let mut round: usize = 0;
    let mut done = false;
    while round < 8 && !done
        invariant
            doc_wf(d.nodes@),
            round <= 8,
            ds.len() == round + 1,
            ds[0] == old(d).nodes@,
            ds.last() == d.nodes@,
            forall|i: int| 0 <= i < ds.len() - 1 ==> cap_round(#[trigger] ds[i], ds[i + 1], max_bytes as nat),
            done ==> cap_target(d.nodes@, max_bytes as nat) is None,
        decreases 8 - round + (if done { 0int } else { 1int }),
    {
        match cap_target_exec(d, max_bytes) {
            None => {
                done = true;
            },
            Some(c) => {
                let ghost before = d.nodes@;
                proof {
                    assert(str_bytes(before, c as int) >= 0);
                }
                let s = match &d.nodes[c] {
                    JsonNode::Str(s) => cap_str(s.as_str(), s.as_str().len() / 2),
                    _ => String::new(),
                };
                proof {
                    assert(s@ == capped(before[c as int]->Str_0@, (str_bytes(before, c as int) / 2) as nat));
                }
                d.nodes.set(c, JsonNode::Str(s));
                proof {
                    let after = d.nodes@;
                    assert forall|i: int, k: int|
                        0 <= i < after.len() && 0 <= k < child_count(after[i]) implies i < #[trigger] child(
                            after[i],
                            k,
                        ) < after.len() by {
                        if i != c {
                            assert(after[i] == before[i]);
                        }
                    }
                    assert(cap_round(before, after, max_bytes as nat));
                    let ds0 = ds;
                    ds = ds.push(after);
                    assert forall|i: int| 0 <= i < ds.len() - 1 implies cap_round(#[trigger] ds[i], ds[i + 1], max_bytes as nat) by {
                        if i < ds0.len() - 1 {
                            assert(ds[i] == ds0[i] && ds[i + 1] == ds0[i + 1]);
                        }
                    }
                }
                round = round + 1;
            },
        }
    }
    proof {
        assert(cap_run(ds, max_bytes as nat));
    }
}

} // verus!
