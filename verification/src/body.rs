//! Sanitizing a captured request body before it is shown or replayed:
//! secret-shaped JSON keys and card-like digit runs are redacted, by JSON
//! path, and the body is capped. A body with nothing to redact is returned
//! byte-identical (up to the cap), so a replay sends what was captured.
//!
//! A JSON body arrives parsed, as a `JsonDoc`: its nodes in an arena, the
//! root first and every child after its parent, object members in the
//! order the parser keeps them (sorted by key), numbers as the parser
//! writes them. A redacted body is written back in compact JSON.

use vstd::prelude::*;
use vstd::utf8::encode_utf8;
use crate::identity::{regex_replace_all, regex_replaced};
use crate::sanitize::{SanitizedBody, cap_str, capped, key_is_secret, key_secret};
use crate::text::{cat, chars_of, decimal, hex_char, hex_digit, push_char, str_eq, u64_decimal, views};

verus! {

/// One node of a parsed JSON document.
#[derive(Debug)]
pub enum JsonNode {
    Null,
    Bool(bool),
    /// A number, as the parser writes it.
    Number(String),
    Str(String),
    /// The elements, as node indices.
    Array(Vec<usize>),
    /// The members: key and node index.
    Object(Vec<(String, usize)>),
}

/// A parsed JSON document; the root is node 0.
#[derive(Debug)]
pub struct JsonDoc {
    pub nodes: Vec<JsonNode>,
}

/// How many children node `n` has.
pub open spec fn child_count(n: JsonNode) -> nat {
    match n {
        JsonNode::Array(v) => v.len() as nat,
        JsonNode::Object(m) => m.len() as nat,
        _ => 0,
    }
}

/// Child `k` of node `n`.
pub open spec fn child(n: JsonNode, k: int) -> int {
    match n {
        JsonNode::Array(v) => v@[k] as int,
        JsonNode::Object(m) => m@[k].1 as int,
        _ => 0,
    }
}

/// A root exists and every child comes after its parent.
pub open spec fn doc_wf(d: Seq<JsonNode>) -> bool {
    &&& d.len() >= 1
    &&& forall|i: int, k: int| 0 <= i < d.len() && 0 <= k < child_count(d[i]) ==> i < #[trigger] child(d[i], k) < d.len()
}

// ------------------------------------------------------------------ card numbers

/// A card-like digit run: 13 to 19 digits, single spaces or dashes between.
pub open spec fn pan_pattern() -> Seq<char> {
    r"\b(?:\d[ -]?){12,18}\d\b"@
}

/// `s` with every card-like run replaced by `[redacted:pan]`.
pub open spec fn pan_scrubbed(s: Seq<char>) -> Seq<char> {
    regex_replaced(pan_pattern(), s, "[redacted:pan]"@)
}

/// `s` holds a card-like run: scrubbing changes it.
pub open spec fn has_pan(s: Seq<char>) -> bool {
    pan_scrubbed(s) != s
}

fn scrub_pan(s: &str) -> (r: String)
    ensures
        r@ == pan_scrubbed(s@),
{
    regex_replace_all(r"\b(?:\d[ -]?){12,18}\d\b", s, "[redacted:pan]")
}

// ------------------------------------------------------------------ compact JSON

/// How a character is written inside a JSON string: quote and backslash
/// escaped, the five short control escapes, other control characters as
/// `\u00xx`, everything else as itself.
pub open spec fn esc_char(c: char) -> Seq<char> {
    if c == '"' {
        seq!['\\', '"']
    } else if c == '\\' {
        seq!['\\', '\\']
    } else if c == '\x08' {
        seq!['\\', 'b']
    } else if c == '\t' {
        seq!['\\', 't']
    } else if c == '\n' {
        seq!['\\', 'n']
    } else if c == '\x0c' {
        seq!['\\', 'f']
    } else if c == '\r' {
        seq!['\\', 'r']
    } else if (c as u32) < 0x20 {
        seq!['\\', 'u', '0', '0', hex_digit((c as u32 / 16) as nat), hex_digit((c as u32 % 16) as nat)]
    } else {
        seq![c]
    }
}

pub open spec fn escaped(s: Seq<char>) -> Seq<char>
    decreases s.len(),
{
    if s.len() == 0 {
        Seq::empty()
    } else {
        escaped(s.drop_last()) + esc_char(s.last())
    }
}

/// A JSON string literal.
pub open spec fn quoted(s: Seq<char>) -> Seq<char> {
    seq!['"'] + escaped(s) + seq!['"']
}

fn push_escaped(out: &mut String, s: &str)
    ensures
        final(out)@ == old(out)@ + escaped(s@),
{
    let cs = chars_of(s);
    let mut i: usize = 0;
    proof {
        assert(cs@.take(0) =~= Seq::<char>::empty());
        assert(old(out)@ + escaped(Seq::<char>::empty()) =~= old(out)@);
    }
    while i < cs.len()
        invariant
            cs@ == s@,
            i <= cs.len(),
            out@ == old(out)@ + escaped(cs@.take(i as int)),
        decreases cs.len() - i,
    {
        let c = cs[i];
        let ghost before = out@;
        if c == '"' {
            out.append("\\\"");
        } else if c == '\\' {
            out.append("\\\\");
        } else if c == '\x08' {
            out.append("\\b");
        } else if c == '\t' {
            out.append("\\t");
        } else if c == '\n' {
            out.append("\\n");
        } else if c == '\x0c' {
            out.append("\\f");
        } else if c == '\r' {
            out.append("\\r");
        } else if (c as u32) < 0x20 {
            out.append("\\u00");
            let v = c as u32;
            push_char(out, hex_char((v / 16) as u8));
            push_char(out, hex_char((v % 16) as u8));
        } else {
            push_char(out, c);
        }
        proof {
            reveal_strlit("\\\"");
            reveal_strlit("\\\\");
            reveal_strlit("\\b");
            reveal_strlit("\\t");
            reveal_strlit("\\n");
            reveal_strlit("\\f");
            reveal_strlit("\\r");
            reveal_strlit("\\u00");
            assert(out@ =~= before + esc_char(c));
            assert(cs@.take(i + 1).drop_last() =~= cs@.take(i as int));
            assert(cs@.take(i + 1).last() == c);
            assert(out@ =~= old(out)@ + escaped(cs@.take(i + 1)));
        }
        i = i + 1;
    }
    proof {
        assert(cs@.take(cs.len() as int) =~= cs@);
    }
}

pub(crate) fn push_quoted(out: &mut String, s: &str)
    ensures
        final(out)@ == old(out)@ + quoted(s@),
{
    push_char(out, '"');
    push_escaped(out, s);
    push_char(out, '"');
    proof {
        assert(final(out)@ =~= old(out)@ + quoted(s@));
    }
}

// ------------------------------------------------------------------ redaction

/// The path of member `key` under `path`.
pub open spec fn member_path(path: Seq<char>, key: Seq<char>) -> Seq<char> {
    if path.len() == 0 {
        key
    } else {
        path + "."@ + key
    }
}

/// The path of element `k` under `path`.
pub open spec fn element_path(path: Seq<char>, k: nat) -> Seq<char> {
    path + "["@ + decimal(k) + "]"@
}

/// Node `i` at `path`, redacted: its compact JSON text, and the paths of
/// what was redacted, in document order.
pub open spec fn node_out(d: Seq<JsonNode>, i: int, path: Seq<char>) -> (Seq<char>, Seq<Seq<char>>)
    decreases d.len() - i, child_count(d[i]) + 1,
{
    if !(0 <= i < d.len()) {
        (Seq::empty(), Seq::empty())
    } else {
        match d[i] {
            JsonNode::Null => ("null"@, Seq::empty()),
            JsonNode::Bool(b) => (if b {
                "true"@
            } else {
                "false"@
            }, Seq::empty()),
            JsonNode::Number(t) => (t@, Seq::empty()),
            JsonNode::Str(s) => if has_pan(s@) {
                (quoted(pan_scrubbed(s@)), seq![path + ":pan"@])
            } else {
                (quoted(s@), Seq::empty())
            },
            JsonNode::Array(v) => {
                let (t, r) = items_out(d, i, path, v.len() as nat);
                ("["@ + t + "]"@, r)
            },
            JsonNode::Object(m) => {
                let (t, r) = items_out(d, i, path, m.len() as nat);
                ("{"@ + t + "}"@, r)
            },
        }
    }
}

/// The first `k` children of node `i`, redacted and written, comma-separated.
pub open spec fn items_out(d: Seq<JsonNode>, i: int, path: Seq<char>, k: nat) -> (Seq<char>, Seq<Seq<char>>)
    decreases d.len() - i, k,
{
    if k == 0 || !(0 <= i < d.len()) {
        (Seq::empty(), Seq::empty())
    } else {
        let (t0, r0) = items_out(d, i, path, (k - 1) as nat);
        let sep = if k == 1 {
            Seq::<char>::empty()
        } else {
            ","@
        };
        let c = child(d[i], k - 1);
        match d[i] {
            JsonNode::Array(v) => if i < c < d.len() {
                let (t, r) = node_out(d, c, element_path(path, (k - 1) as nat));
                (t0 + sep + t, r0 + r)
            } else {
                (t0, r0)
            },
            JsonNode::Object(m) => {
                let key = m@[k - 1].0@;
                if key_secret(key) {
                    (t0 + sep + quoted(key) + ":"@ + quoted("[redacted]"@), r0.push(member_path(path, key)))
                } else if i < c < d.len() {
                    let (t, r) = node_out(d, c, member_path(path, key));
                    (t0 + sep + quoted(key) + ":"@ + t, r0 + r)
                } else {
                    (t0, r0)
                }
            },
            _ => (t0, r0),
        }
    }
}

/// Writes node `i` at `path`, redacted, after `out`, and appends what was
/// redacted to `reds`.
fn emit(d: &JsonDoc, i: usize, path: &str, out: &mut String, reds: &mut Vec<String>)
    requires
        doc_wf(d.nodes@),
        i < d.nodes.len(),
    ensures
        final(out)@ == old(out)@ + node_out(d.nodes@, i as int, path@).0,
        views(final(reds)@) == views(old(reds)@) + node_out(d.nodes@, i as int, path@).1,
    decreases d.nodes.len() - i,
{
    let ghost dn = d.nodes@;
    match &d.nodes[i] {
        JsonNode::Null => {
            out.append("null");
            proof {
                reveal_strlit("null");
                assert(views(reds@) =~= views(old(reds)@) + Seq::<Seq<char>>::empty());
            }
        },
        JsonNode::Bool(b) => {
            if *b {
                out.append("true");
            } else {
                out.append("false");
            }
            proof {
                assert(views(reds@) =~= views(old(reds)@) + Seq::<Seq<char>>::empty());
            }
        },
        JsonNode::Number(t) => {
            out.append(t.as_str());
            proof {
                assert(views(reds@) =~= views(old(reds)@) + Seq::<Seq<char>>::empty());
            }
        },
        JsonNode::Str(s) => {
            let scrubbed = scrub_pan(s.as_str());
            if !str_eq(scrubbed.as_str(), s.as_str()) {
                push_quoted(out, scrubbed.as_str());
                let p = cat(path, ":pan");
                let ghost before = reds@;
                reds.push(p);
                proof {
                    assert(views(reds@) =~= views(before).push(p@));
                    assert(views(reds@) =~= views(old(reds)@) + seq![path@ + ":pan"@]);
                }
            } else {
                push_quoted(out, s.as_str());
                proof {
                    assert(views(reds@) =~= views(old(reds)@) + Seq::<Seq<char>>::empty());
                }
            }
        },
        JsonNode::Array(v) => {
            out.append("[");
            let ghost out1 = out@;
            let mut k: usize = 0;
            proof {
                assert(out@ =~= out1 + items_out(dn, i as int, path@, 0).0);
                assert(views(reds@) =~= views(old(reds)@) + items_out(dn, i as int, path@, 0).1);
            }
            while k < v.len()
                invariant
                    dn == d.nodes@,
                    doc_wf(dn),
                    i < dn.len(),
                    dn[i as int] == JsonNode::Array(*v),
                    k <= v.len(),
                    out@ == out1 + items_out(dn, i as int, path@, k as nat).0,
                    views(reds@) == views(old(reds)@) + items_out(dn, i as int, path@, k as nat).1,
                decreases v.len() - k,
            {
                let c = v[k];
                proof {
                    assert(child(dn[i as int], k as int) == c as int);
                    assert(i < c && c < dn.len());
                }
                let ghost (t0, r0) = items_out(dn, i as int, path@, k as nat);
                if k > 0 {
                    out.append(",");
                }
                let idx = u64_decimal(k as u64);
                let p0 = cat(path, "[");
                let p1 = cat(p0.as_str(), idx.as_str());
                let p = cat(p1.as_str(), "]");
                let ghost out2 = out@;
                let ghost reds2 = reds@;
                emit(d, c, p.as_str(), out, reds);
                proof {
                    assert(p@ == element_path(path@, k as nat));
                    let (t, r) = node_out(dn, c as int, element_path(path@, k as nat));
                    let sep = if k + 1 == 1 { Seq::<char>::empty() } else { ","@ };
                    assert(out2 =~= out1 + t0 + sep);
                    assert(out@ =~= out1 + (t0 + sep + t));
                    assert(views(reds@) =~= views(old(reds)@) + (r0 + r));
                }
                k = k + 1;
            }
            out.append("]");
            proof {
                assert(out@ =~= old(out)@ + node_out(dn, i as int, path@).0);
            }
        },
        JsonNode::Object(m) => {
            out.append("{");
            let ghost out1 = out@;
            let mut k: usize = 0;
            proof {
                assert(out@ =~= out1 + items_out(dn, i as int, path@, 0).0);
                assert(views(reds@) =~= views(old(reds)@) + items_out(dn, i as int, path@, 0).1);
            }
            while k < m.len()
                invariant
                    dn == d.nodes@,
                    doc_wf(dn),
                    i < dn.len(),
                    dn[i as int] == JsonNode::Object(*m),
                    k <= m.len(),
                    out@ == out1 + items_out(dn, i as int, path@, k as nat).0,
                    views(reds@) == views(old(reds)@) + items_out(dn, i as int, path@, k as nat).1,
                decreases m.len() - k,
            {
                let key = &m[k].0;
                let c = m[k].1;
                proof {
                    assert(child(dn[i as int], k as int) == c as int);
                    assert(i < c && c < dn.len());
                }
                let ghost (t0, r0) = items_out(dn, i as int, path@, k as nat);
                let ghost sep = if k + 1 == 1 { Seq::<char>::empty() } else { ","@ };
                if k > 0 {
                    out.append(",");
                }
                push_quoted(out, key.as_str());
                out.append(":");
                let p = if path.is_empty() {
                    key.clone()
                } else {
                    let p0 = cat(path, ".");
                    cat(p0.as_str(), key.as_str())
                };
                proof {
                    reveal_strlit(".");
                    assert(p@ =~= member_path(path@, key@));
                }
                let ghost out2 = out@;
                if key_is_secret(key.as_str()) {
                    push_quoted(out, "[redacted]");
                    let ghost before = reds@;
                    reds.push(p);
                    proof {
                        assert(out@ =~= out1 + (t0 + sep + quoted(key@) + ":"@ + quoted("[redacted]"@)));
                        assert(views(reds@) =~= views(before).push(member_path(path@, key@)));
                        assert(views(reds@) =~= views(old(reds)@) + r0.push(member_path(path@, key@)));
                    }
                } else {
                    emit(d, c, p.as_str(), out, reds);
                    proof {
                        let (t, r) = node_out(dn, c as int, member_path(path@, key@));
                        assert(out@ =~= out1 + (t0 + sep + quoted(key@) + ":"@ + t));
                        assert(views(reds@) =~= views(old(reds)@) + (r0 + r));
                    }
                }
                k = k + 1;
            }
            out.append("}");
            proof {
                assert(out@ =~= old(out)@ + node_out(dn, i as int, path@).0);
            }
        },
    }
}

// ------------------------------------------------------------------ the body

/// What sanitizing does before the cap: a parsed body is written back
/// redacted when anything was redacted, else kept as it came; an
/// unparsed one loses its card-like runs. Returns the text and the
/// redactions.
pub open spec fn body_out(body: Seq<char>, doc: Option<Seq<JsonNode>>) -> (Seq<char>, Seq<Seq<char>>) {
    match doc {
        Some(d) => {
            let (t, r) = node_out(d, 0, Seq::empty());
            if r.len() == 0 {
                (body, r)
            } else {
                (t, r)
            }
        },
        None => if has_pan(body) {
            (pan_scrubbed(body), seq!["text:pan"@])
        } else {
            (body, Seq::empty())
        },
    }
}

/// Redacts secret-shaped keys and card-like runs, then caps the body at
/// `cap` bytes. `doc` is the body parsed as JSON, when it parses.
pub fn sanitize_body(body: &str, doc: Option<&JsonDoc>, cap: usize) -> (s: SanitizedBody)
    requires
        doc matches Some(d) ==> doc_wf(d.nodes@),
    ensures
        ({
            let (text, reds) = body_out(
                body@,
                match doc {
                    Some(d) => Some(d.nodes@),
                    None => None,
                },
            );
            &&& s.text@ == capped(text, cap as nat)
            &&& s.bytes == encode_utf8(text).len() as usize
            &&& s.truncated == (encode_utf8(text).len() as usize > cap)
            &&& views(s.redactions@) == reds
        }),
{
    let mut reds: Vec<String> = Vec::new();
    let text: String = match doc {
        Some(d) => {
            let mut out = String::new();
            emit(d, 0, "", &mut out, &mut reds);
            proof {
                reveal_strlit("");
                assert(""@ =~= Seq::<char>::empty());
                assert(views(reds@) =~= node_out(d.nodes@, 0, Seq::empty()).1);
            }
            if reds.len() == 0 {
                body.to_owned()
            } else {
                out
            }
        },
        None => {
            let scrubbed = scrub_pan(body);
            if !str_eq(scrubbed.as_str(), body) {
                reds.push("text:pan".to_owned());
                proof {
                    assert(views(reds@) =~= seq!["text:pan"@]);
                }
                scrubbed
            } else {
                proof {
                    assert(views(reds@) =~= Seq::<Seq<char>>::empty());
                }
                body.to_owned()
            }
        },
    };
    let bytes = text.as_str().len();
    let truncated = bytes > cap;
    SanitizedBody { text: cap_str(text.as_str(), cap), bytes, truncated, redactions: reds }
}

} // verus!

verus! {

/// A body with nothing to redact is returned as it came, up to the cap: a
/// replay sends what was captured.
pub proof fn law_clean_body_is_kept(body: Seq<char>, doc: Option<Seq<JsonNode>>)
    requires
        body_out(body, doc).1.len() == 0,
    ensures
        body_out(body, doc).0 == body,
{
}

/// Every secret-shaped key of the root object is redacted: its path is
/// reported, and its value is not written.
pub proof fn law_secret_root_keys_are_redacted(d: Seq<JsonNode>, k: int)
    requires
        doc_wf(d),
        d[0] matches JsonNode::Object(m) && 0 <= k < m.len() && key_secret(m@[k].0@),
    ensures
        ({
            let m = d[0]->Object_0;
            node_out(d, 0, Seq::empty()).1.contains(m@[k].0@)
        }),
{
    let m = d[0]->Object_0;
    lemma_items_keep_paths(d, 0, Seq::empty(), m.len() as nat, k);
}

proof fn lemma_items_keep_paths(d: Seq<JsonNode>, i: int, path: Seq<char>, n: nat, k: int)
    requires
        doc_wf(d),
        0 <= i < d.len(),
        d[i] matches JsonNode::Object(m) && 0 <= k < n <= m.len() && key_secret(m@[k].0@),
    ensures
        items_out(d, i, path, n).1.contains(member_path(path, d[i]->Object_0@[k].0@)),
    decreases n,
{
    let m = d[i]->Object_0;
    let p = member_path(path, m@[k].0@);
    let (t0, r0) = items_out(d, i, path, (n - 1) as nat);
    if k == n - 1 {
        assert(items_out(d, i, path, n).1 == r0.push(p));
        assert(r0.push(p)[r0.len() as int] == p);
    } else {
        lemma_items_keep_paths(d, i, path, (n - 1) as nat, k);
        let j = choose|j: int| 0 <= j < r0.len() && r0[j] == p;
        let c = child(d[i], n - 1);
        let key = m@[n - 1].0@;
        if key_secret(key) {
            assert(items_out(d, i, path, n).1 == r0.push(member_path(path, key)));
            assert(r0.push(member_path(path, key))[j] == p);
        } else {
            assert(i < c < d.len());
            let r = node_out(d, c, member_path(path, key)).1;
            assert(items_out(d, i, path, n).1 == r0 + r);
            assert((r0 + r)[j] == p);
        }
    }
}

} // verus!
