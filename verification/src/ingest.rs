//! Ingestion decisions: which bytes of a tailed file are consumed as lines,
//! and what becomes of each line.
//!
//! Files are tailed by byte offset; only complete lines (ending in a line
//! feed) are consumed, so a half-written line is read on the next tick,
//! never as garbage. A file shorter than the cursor means the stack was
//! reset: the caller clears the store. Reading the files, sleeping between
//! ticks and writing segment files are left to the program around the
//! library.

use vstd::prelude::*;
use vstd::utf8::{decode_utf8, valid_utf8};
use crate::text::{cat, decimal, trim, trimmed, u64_decimal};
use crate::body::{JsonDoc, JsonNode, doc_wf};
use crate::deployer::opt_view;
use crate::events::{Event, mark_of};
use crate::lines::{member, or_else, parse_event, str_member, u64_member};
use crate::rawtools::{lines_of, starts_with, starts_with_text, text_lines};
use crate::text::{chars_of, str_eq, string_of, views};
use crate::recovery::DeployEvent;
use crate::replay::REQ_ID_PREFIX;
use crate::sanitize::capped;
use crate::search::{indices_where, ints};
use crate::store::Store;
use crate::time::rfc3339_parsed;

verus! {

/// How far a tailed file has been consumed: the byte offset after the last
/// consumed line, and how many lines have been consumed.
#[derive(Clone, Copy, Debug, PartialEq, Eq, Structural)]
pub struct Cursor {
    pub offset: u64,
    pub lineno: u64,
}

impl Cursor {
    /// A file not read yet.
    pub fn start() -> (c: Cursor)
        ensures
            c.offset == 0 && c.lineno == 0,
    {
        Cursor { offset: 0, lineno: 0 }
    }
}

// ------------------------------------------------------------------ complete lines

/// The complete lines of `b` from the line that starts at `start`, read on
/// from index `i`: each piece ended by a line feed, without it; bytes after
/// the last line feed are no line yet.
pub open spec fn pieces_from(b: Seq<u8>, start: int, i: int) -> Seq<Seq<u8>>
    decreases b.len() - i,
{
    if i < 0 || i >= b.len() {
        Seq::empty()
    } else if b[i] == 10 {
        seq![b.subrange(start, i)] + pieces_from(b, i + 1, i + 1)
    } else {
        pieces_from(b, start, i + 1)
    }
}

/// The complete lines of `b`.
pub open spec fn complete_lines(b: Seq<u8>) -> Seq<Seq<u8>> {
    pieces_from(b, 0, 0)
}

/// Where the line that starts at `start`, read on from `i`, leaves off: the
/// index after the last line feed.
pub open spec fn consumed_from(b: Seq<u8>, start: int, i: int) -> int
    decreases b.len() - i,
{
    if i < 0 || i >= b.len() {
        start
    } else if b[i] == 10 {
        consumed_from(b, i + 1, i + 1)
    } else {
        consumed_from(b, start, i + 1)
    }
}

/// How many bytes of `b` its complete lines take: up to and including the
/// last line feed.
pub open spec fn consumed(b: Seq<u8>) -> int {
    consumed_from(b, 0, 0)
}

/// `String::from_utf8_lossy`: the bytes as text, each invalid sequence
/// replaced by U+FFFD.
pub uninterp spec fn utf8_lossy(b: Seq<u8>) -> Seq<char>;

/// The bytes as text (`String::from_utf8_lossy`), named `utf8_lossy`; valid
/// UTF-8 decodes as it is.
#[verifier::external_body]
fn lossy(b: &[u8]) -> (r: String)
    ensures
        r@ == utf8_lossy(b@),
        valid_utf8(b@) ==> r@ == decode_utf8(b@),
{
    String::from_utf8_lossy(b).into_owned()
}

/// The lines kept of `pieces`, numbered on from `lineno`: each as text,
/// those that are blank once trimmed skipped (their numbers are used up).
pub open spec fn kept_lines(pieces: Seq<Seq<u8>>, lineno: int) -> Seq<(int, Seq<char>)>
    decreases pieces.len(),
{
    if pieces.len() == 0 {
        Seq::empty()
    } else {
        let t = utf8_lossy(pieces[0]);
        let rest = kept_lines(pieces.drop_first(), lineno + 1);
        if trimmed(t).len() > 0 {
            seq![(lineno + 1, t)] + rest
        } else {
            rest
        }
    }
}

/// Numbered lines by their views.
pub open spec fn numbered(v: Seq<(u64, String)>) -> Seq<(int, Seq<char>)> {
    v.map_values(|p: (u64, String)| (p.0 as int, p.1@))
}

/// What one tick reads of a file `len` bytes long whose bytes from the
/// cursor on are `b`: none when the file shrank below the cursor; nothing
/// new when it did not grow; else its complete lines and the cursor after
/// them.
pub open spec fn taken(len: int, cur: Cursor, b: Seq<u8>) -> Option<(Seq<(int, Seq<char>)>, Cursor)> {
    if len < cur.offset {
        None
    } else if len == cur.offset {
        Some((Seq::empty(), cur))
    } else {
        Some(
            (
                kept_lines(complete_lines(b), cur.lineno as int),
                Cursor {
                    offset: (cur.offset + consumed(b)) as u64,
                    lineno: (cur.lineno + complete_lines(b).len()) as u64,
                },
            ),
        )
    }
}

proof fn lemma_pieces_bounds(b: Seq<u8>, start: int, i: int)
    requires
        0 <= start <= i <= b.len(),
    ensures
        start <= consumed_from(b, start, i) <= b.len(),
        pieces_from(b, start, i).len() <= b.len() - i,
        consumed_from(b, start, i) > start ==> pieces_from(b, start, i).len() >= 1,
    decreases b.len() - i,
{
    if i < b.len() {
        if b[i] == 10 {
            lemma_pieces_bounds(b, i + 1, i + 1);
        } else {
            lemma_pieces_bounds(b, start, i + 1);
        }
    }
}

proof fn lemma_kept_append(p1: Seq<Seq<u8>>, p2: Seq<Seq<u8>>, lineno: int)
    ensures
        kept_lines(p1 + p2, lineno) == kept_lines(p1, lineno) + kept_lines(p2, lineno + p1.len()),
    decreases p1.len(),
{
    if p1.len() == 0 {
        assert(p1 + p2 =~= p2);
        assert(kept_lines(p1, lineno) =~= Seq::<(int, Seq<char>)>::empty());
        assert(Seq::<(int, Seq<char>)>::empty() + kept_lines(p2, lineno) =~= kept_lines(p2, lineno));
    } else {
        lemma_kept_append(p1.drop_first(), p2, lineno + 1);
        assert((p1 + p2).drop_first() =~= p1.drop_first() + p2);
        assert((p1 + p2)[0] == p1[0]);
        let t = utf8_lossy(p1[0]);
        if trimmed(t).len() > 0 {
            assert(seq![(lineno + 1, t)] + (kept_lines(p1.drop_first(), lineno + 1) + kept_lines(p2, lineno + 1 + p1.drop_first().len()))
                =~= (seq![(lineno + 1, t)] + kept_lines(p1.drop_first(), lineno + 1)) + kept_lines(p2, lineno + p1.len()));
        }
    }
}

/// The complete lines of one tick: the cursor moves past the complete
/// lines of `bytes` (the file's bytes from the cursor on), each counted;
/// the lines that are not blank come back with their line numbers. A file
/// `len` bytes long, shorter than the cursor, was reset: none.
pub fn take_lines(len: u64, cur: Cursor, bytes: &Vec<u8>) -> (r: Option<(Vec<(u64, String)>, Cursor)>)
    requires
        cur.offset + bytes.len() <= u64::MAX,
        cur.lineno + bytes.len() <= u64::MAX,
    ensures
        match (r, taken(len as int, cur, bytes@)) {
            (None, None) => true,
            (Some((ls, c)), Some((t, tc))) => numbered(ls@) == t && c == tc,
            _ => false,
        },
{
    if len < cur.offset {
        return None;
    }
    if len == cur.offset {
        proof {
            assert(numbered(Seq::<(u64, String)>::empty()) =~= Seq::<(int, Seq<char>)>::empty());
        }
        return Some((Vec::new(), cur));
    }
    let ghost b = bytes@;
    let mut out: Vec<(u64, String)> = Vec::new();
    let mut start: usize = 0;
    let mut i: usize = 0;
    let mut lineno: u64 = cur.lineno;
    let ghost mut done: Seq<Seq<u8>> = Seq::empty();
    proof {
        lemma_pieces_bounds(b, 0, 0);
    }
    while i < bytes.len()
        invariant
            b == bytes@,
            start <= i <= bytes.len(),
            cur.lineno + bytes.len() <= u64::MAX,
            done + pieces_from(b, start as int, i as int) == complete_lines(b),
            consumed_from(b, start as int, i as int) == consumed(b),
            lineno == cur.lineno + done.len(),
            done.len() <= start,
            numbered(out@) == kept_lines(done, cur.lineno as int),
        decreases bytes.len() - i,
    {
        if bytes[i] == 10u8 {
            let piece = lossy(&bytes.as_slice()[start..i]);
            let t = trim(piece.as_str());
            proof {
                assert(bytes@.subrange(start as int, i as int) == b.subrange(start as int, i as int));
                lemma_kept_append(done, seq![b.subrange(start as int, i as int)], cur.lineno as int);
                assert(kept_lines(seq![b.subrange(start as int, i as int)], cur.lineno + done.len()) =~= (if trimmed(
                    piece@,
                ).len() > 0 {
                    seq![(cur.lineno + done.len() + 1, piece@)]
                } else {
                    Seq::empty()
                })) by {
                    let one = seq![b.subrange(start as int, i as int)];
                    assert(one.drop_first() =~= Seq::<Seq<u8>>::empty());
                    assert(one[0] == b.subrange(start as int, i as int));
                    assert(piece@ == utf8_lossy(b.subrange(start as int, i as int)));
                    assert(kept_lines(one.drop_first(), cur.lineno + done.len() + 1) =~= Seq::<(int, Seq<char>)>::empty());
                }
                assert(done.push(b.subrange(start as int, i as int)) + pieces_from(b, i + 1, i + 1) =~= done + pieces_from(
                    b,
                    start as int,
                    i as int,
                ));
                assert(seq![b.subrange(start as int, i as int)] =~= seq![b.subrange(start as int, i as int)]);
                assert(done + seq![b.subrange(start as int, i as int)] =~= done.push(b.subrange(start as int, i as int)));
            }
            lineno = lineno + 1;
            if !t.as_str().is_empty() {
                proof {
                    assert(numbered(out@.push((lineno, piece))) =~= numbered(out@).push((lineno as int, piece@)));
                    assert(kept_lines(done, cur.lineno as int) + seq![(cur.lineno + done.len() + 1, piece@)] =~= kept_lines(
                        done,
                        cur.lineno as int,
                    ).push((lineno as int, piece@)));
                }
                out.push((lineno, piece));
            } else {
                proof {
                    assert(kept_lines(done, cur.lineno as int) + Seq::<(int, Seq<char>)>::empty() =~= kept_lines(
                        done,
                        cur.lineno as int,
                    ));
                }
            }
            proof {
                done = done.push(b.subrange(start as int, i as int));
            }
            start = i + 1;
        }
        i = i + 1;
    }
    proof {
        assert(done + Seq::<Seq<u8>>::empty() =~= done);
    }
    Some((out, Cursor { offset: cur.offset + start as u64, lineno }))
}

// ------------------------------------------------------------------ laws of tailing

proof fn lemma_shift(x: Seq<u8>, k: int, s: int, i: int)
    requires
        0 <= k <= s <= i <= x.len(),
    ensures
        pieces_from(x, s, i) == pieces_from(x.skip(k), s - k, i - k),
        consumed_from(x, s, i) == k + consumed_from(x.skip(k), s - k, i - k),
    decreases x.len() - i,
{
    let y = x.skip(k);
    if i < x.len() {
        assert(y[i - k] == x[i]);
        if x[i] == 10 {
            lemma_shift(x, k, i + 1, i + 1);
            assert(y.subrange(s - k, i - k) =~= x.subrange(s, i));
        } else {
            lemma_shift(x, k, s, i + 1);
        }
    }
}

proof fn lemma_through(b1: Seq<u8>, b2: Seq<u8>, s: int, i: int)
    requires
        0 <= s <= i <= b1.len(),
    ensures
        pieces_from(b1 + b2, s, i) == pieces_from(b1, s, i) + pieces_from(b1 + b2, consumed_from(b1, s, i), b1.len() as int),
        consumed_from(b1 + b2, s, i) == consumed_from(b1 + b2, consumed_from(b1, s, i), b1.len() as int),
    decreases b1.len() - i,
{
    let b = b1 + b2;
    if i == b1.len() {
        assert(pieces_from(b1, s, i) =~= Seq::<Seq<u8>>::empty());
        assert(Seq::<Seq<u8>>::empty() + pieces_from(b, s, i) =~= pieces_from(b, s, i));
    } else {
        assert(b[i] == b1[i]);
        if b1[i] == 10 {
            lemma_through(b1, b2, i + 1, i + 1);
            assert(b.subrange(s, i) =~= b1.subrange(s, i));
            let c = consumed_from(b1, i + 1, i + 1);
            assert(seq![b1.subrange(s, i)] + (pieces_from(b1, i + 1, i + 1) + pieces_from(b, c, b1.len() as int)) =~= (seq![
                b1.subrange(s, i),
            ] + pieces_from(b1, i + 1, i + 1)) + pieces_from(b, c, b1.len() as int));
        } else {
            lemma_through(b1, b2, s, i + 1);
        }
    }
}

proof fn lemma_no_feed(y: Seq<u8>, j: int)
    requires
        0 <= j <= y.len(),
        forall|q: int| 0 <= q < j ==> y[q] != 10,
    ensures
        pieces_from(y, 0, 0) == pieces_from(y, 0, j),
        consumed_from(y, 0, 0) == consumed_from(y, 0, j),
    decreases j,
{
    if j > 0 {
        lemma_no_feed(y, j - 1);
    }
}

proof fn lemma_tail_has_no_feed(b: Seq<u8>, s: int, i: int)
    requires
        0 <= s <= i <= b.len(),
    ensures
        s <= consumed_from(b, s, i),
        forall|q: int| consumed_from(b, s, i) <= q < b.len() && i <= q ==> b[q] != 10,
        consumed_from(b, s, i) == s || (consumed_from(b, s, i) >= i + 1 && b[consumed_from(b, s, i) - 1] == 10),
    decreases b.len() - i,
{
    if i < b.len() {
        if b[i] == 10 {
            lemma_tail_has_no_feed(b, i + 1, i + 1);
        } else {
            lemma_tail_has_no_feed(b, s, i + 1);
        }
    }
}

/// Only complete lines are consumed: what a tick consumes of the new bytes
/// is empty or ends with a line feed, and no line feed follows it, so the
/// rest is one half-written line, left for the next tick.
pub proof fn law_only_complete_lines_are_consumed(b: Seq<u8>)
    ensures
        0 <= consumed(b) <= b.len(),
        consumed(b) == 0 || b[consumed(b) - 1] == 10,
        forall|q: int| consumed(b) <= q < b.len() ==> b[q] != 10,
{
    lemma_tail_has_no_feed(b, 0, 0);
    lemma_pieces_bounds(b, 0, 0);
}

/// Reading in two ticks is reading in one: the lines of `b1`, then those
/// of its unconsumed rest followed by `b2`, numbered on, with the cursor
/// that leaves, are the lines and the cursor of `b1 + b2` read at once. A
/// line cut short by the first tick is read whole by the second.
pub proof fn law_two_ticks_read_as_one(len1: int, len2: int, cur: Cursor, b1: Seq<u8>, b2: Seq<u8>)
    requires
        len1 > cur.offset,
        len2 > cur.offset + consumed(b1),
        cur.offset + b1.len() + b2.len() <= u64::MAX,
        cur.lineno + b1.len() + b2.len() <= u64::MAX,
    ensures
        ({
            let first = taken(len1, cur, b1)->0;
            let second = taken(len2, first.1, b1.skip(consumed(b1)) + b2)->0;
            let once = taken(len2, cur, b1 + b2)->0;
            &&& once.0 == first.0 + second.0
            &&& once.1 == second.1
        }),
{
    let b = b1 + b2;
    let c = consumed(b1);
    let rest = b1.skip(c);
    let y = rest + b2;
    lemma_pieces_bounds(b1, 0, 0);
    lemma_tail_has_no_feed(b1, 0, 0);
    lemma_through(b1, b2, 0, 0);
    lemma_shift(b, c, c, b1.len() as int);
    assert(b.skip(c) =~= y);
    assert forall|q: int| 0 <= q < b1.len() - c implies y[q] != 10 by {
        assert(y[q] == b1[c + q]);
    }
    lemma_no_feed(y, b1.len() - c);
    assert(complete_lines(b) == complete_lines(b1) + complete_lines(y));
    assert(consumed(b) == c + consumed(y));
    lemma_pieces_bounds(y, 0, 0);
    lemma_pieces_bounds(b, 0, 0);
    lemma_kept_append(complete_lines(b1), complete_lines(y), cur.lineno as int);
}

// ------------------------------------------------------------------ what becomes of a line

/// The most bytes of a raw line an event keeps.
pub const RAW_CAP: usize = 4096;

/// What becomes of a log line.
#[derive(Clone, Copy, Debug, PartialEq, Eq, Structural)]
pub enum Fate {
    /// An event: stored.
    Stored,
    /// The engine's own replay traffic: an experiment, not evidence; it is
    /// counted and never stored, so it moves no count, rate or watermark.
    Replay,
    /// No JSON, or no timestamp or message: counted as malformed.
    Malformed,
}

/// What becomes of a line whose parse as JSON is `d` (none: it is no JSON).
pub open spec fn fate_of(d: Option<Seq<JsonNode>>) -> Fate {
    match d {
        None => Fate::Malformed,
        Some(n) => if !(str_member(n, "ts"@) matches Some(t) && rfc3339_parsed(t) is Ok && str_member(n, "msg"@) is Some) {
            Fate::Malformed
        } else if str_member(n, "req_id"@) matches Some(r) && starts_with_text(r, REQ_ID_PREFIX@) {
            Fate::Replay
        } else {
            Fate::Stored
        },
    }
}

/// The nodes of a parse, if there is one.
pub open spec fn nodes_of(d: Option<JsonDoc>) -> Option<Seq<JsonNode>> {
    match d {
        Some(x) => Some(x.nodes@),
        None => None,
    }
}

/// The event id of line `lineno` of `instance`'s log: `instance:lineno`.
pub open spec fn line_event_id(instance: Seq<char>, lineno: nat) -> Seq<char> {
    instance + ":"@ + decimal(lineno)
}

/// `x` holds what line `raw` (parsed as `d`) of `hint`'s log says, with event
/// id `id`; its template id and pattern are the store's to give.
pub open spec fn holds_line(x: Event, d: Seq<JsonNode>, raw: Seq<char>, hint: Seq<char>, id: Seq<char>) -> bool {
    let msg = str_member(d, "msg"@)->0;
    &&& x.event_id@ == id
    &&& x.ts == rfc3339_parsed(str_member(d, "ts"@)->0)->Ok_0
    &&& x.service@ == or_else(str_member(d, "service"@), hint)
    &&& x.instance@ == or_else(str_member(d, "instance"@), hint)
    &&& x.version@ == or_else(str_member(d, "version"@), Seq::empty())
    &&& x.level@ == or_else(str_member(d, "level"@), "INFO"@)
    &&& opt_view(x.req_id) == str_member(d, "req_id"@)
    &&& x.msg@ == msg
    &&& opt_view(x.route) == str_member(d, "route"@)
    &&& x.status == (match u64_member(d, "status"@) {
        Some(v) => Some((v % 65536) as u16),
        None => None,
    })
    &&& opt_view(x.deploy_id) == str_member(d, "deploy_id"@)
    &&& opt_view(x.upstream) == str_member(d, "upstream"@)
    &&& opt_view(x.kind) == str_member(d, "kind"@)
    &&& x.has_stack == member(d, "stack"@) is Some
    &&& x.raw@ == capped(raw, RAW_CAP as nat)
}

/// How many of the first `n` lines meet a fate.
pub open spec fn with_fate(docs: Seq<Option<JsonDoc>>, n: nat, f: Fate) -> Seq<int> {
    indices_where(n, |i: int| fate_of(nodes_of(docs[i])) == f)
}

/// Takes one tick's new lines of `instance`'s log into the store, in
/// order: `lines` are the numbered lines, `docs` their parses as JSON. Each
/// event is stored, replay traffic and malformed lines only counted.
/// Returns the positions of the lines stored, whose raw text the caller
/// also writes to the segment files.
pub fn absorb_lines(store: &mut Store, instance: &str, lines: &Vec<(u64, String)>, docs: &Vec<Option<JsonDoc>>) -> (r: Vec<usize>)
    requires
        old(store).wf(),
        docs.len() == lines.len(),
        old(store).drain.inserted() + lines.len() < u64::MAX,
        old(store).ingested + lines.len() < u64::MAX,
        old(store).malformed + lines.len() <= u64::MAX,
        old(store).replay_lines_excluded + lines.len() <= u64::MAX,
        forall|i: int| 0 <= i < docs.len() ==> (#[trigger] docs@[i] matches Some(d) ==> doc_wf(d.nodes@)),
    ensures
        final(store).wf(),
        ints(r@) == with_fate(docs@, lines.len() as nat, Fate::Stored),
        final(store).malformed == old(store).malformed + with_fate(docs@, lines.len() as nat, Fate::Malformed).len(),
        final(store).replay_lines_excluded == old(store).replay_lines_excluded + with_fate(
            docs@,
            lines.len() as nat,
            Fate::Replay,
        ).len(),
        final(store).events.len() == old(store).events.len() + r.len(),
        forall|i: int| 0 <= i < old(store).events.len() ==> #[trigger] final(store).events@[i] == old(store).events@[i],
        forall|k: int|
            0 <= k < r.len() ==> {
                let i = r@[k] as int;
                holds_line(
                    #[trigger] final(store).events@[old(store).events.len() + k],
                    docs@[i]->0.nodes@,
                    lines@[i].1@,
                    instance@,
                    line_event_id(instance@, lines@[i].0 as nat),
                )
            },
        final(store).drain.inserted() == old(store).drain.inserted() + r.len(),
        final(store).ingested == old(store).ingested + r.len(),
        final(store).deploys@ == old(store).deploys@,
        final(store).epoch == old(store).epoch,
        final(store).drain_cfg == old(store).drain_cfg,
{
    let ghost s0 = *store;
    let ghost stored = |i: int| fate_of(nodes_of(docs@[i])) == Fate::Stored;
    let ghost bad = |i: int| fate_of(nodes_of(docs@[i])) == Fate::Malformed;
    let ghost replay = |i: int| fate_of(nodes_of(docs@[i])) == Fate::Replay;
    let mut out: Vec<usize> = Vec::new();
    let mut i: usize = 0;
    proof {
        reveal_strlit("ts");
        reveal_strlit("msg");
        reveal_strlit("req_id");
    }
    while i < lines.len()
        invariant
            i <= lines.len(),
            docs.len() == lines.len(),
            forall|i: int| 0 <= i < docs.len() ==> (#[trigger] docs@[i] matches Some(d) ==> doc_wf(d.nodes@)),
                stored == (|i: int| fate_of(nodes_of(docs@[i])) == Fate::Stored),
            bad == (|i: int| fate_of(nodes_of(docs@[i])) == Fate::Malformed),
            replay == (|i: int| fate_of(nodes_of(docs@[i])) == Fate::Replay),
            store.wf(),
            ints(out@) == indices_where(i as nat, stored),
            forall|k: int| 0 <= k < out.len() ==> out@[k] < i,
            store.malformed == s0.malformed + indices_where(i as nat, bad).len(),
            store.replay_lines_excluded == s0.replay_lines_excluded + indices_where(i as nat, replay).len(),
            indices_where(i as nat, stored).len() + indices_where(i as nat, bad).len() + indices_where(i as nat, replay).len() == i,
            s0.drain.inserted() + lines.len() < u64::MAX,
            s0.ingested + lines.len() < u64::MAX,
            s0.malformed + lines.len() <= u64::MAX,
            s0.replay_lines_excluded + lines.len() <= u64::MAX,
            store.events.len() == s0.events.len() + out.len(),
            forall|j: int| 0 <= j < s0.events.len() ==> #[trigger] store.events@[j] == s0.events@[j],
            forall|k: int|
                0 <= k < out.len() ==> {
                    let j = out@[k] as int;
                    holds_line(
                        #[trigger] store.events@[s0.events.len() + k],
                        docs@[j]->0.nodes@,
                        lines@[j].1@,
                        instance@,
                        line_event_id(instance@, lines@[j].0 as nat),
                    )
                },
            store.drain.inserted() == s0.drain.inserted() + out.len(),
            store.ingested == s0.ingested + out.len(),
            store.deploys@ == s0.deploys@,
            store.epoch == s0.epoch,
            store.drain_cfg == s0.drain_cfg,
        decreases lines.len() - i,
    {
        let ghost n0 = store.events.len();
        let ghost out0 = out@;
        let (lineno, raw) = (&lines[i].0, &lines[i].1);
        let parsed = match &docs[i] {
            Some(d) => {
                let id = cat(&cat(instance, ":"), u64_decimal(*lineno).as_str());
                parse_event(d, raw.as_str(), instance, id, RAW_CAP)
            },
            None => None,
        };
        proof {
            reveal_strlit(":");
            assert(indices_where(i as nat, stored).len() <= i);
        }
        match parsed {
            None => {
                proof {
                    assert(bad(i as int));
                    assert(indices_where((i + 1) as nat, bad) == indices_where(i as nat, bad).push(i as int));
                    assert(indices_where((i + 1) as nat, stored) == indices_where(i as nat, stored));
                    assert(indices_where((i + 1) as nat, replay) == indices_where(i as nat, replay));
                }
                store.malformed = store.malformed + 1;
            },
            Some(e) => {
                let is_replay = match &e.req_id {
                    Some(r) => starts_with(r.as_str(), REQ_ID_PREFIX),
                    None => false,
                };
                if is_replay {
                    proof {
                        assert(replay(i as int));
                        assert(indices_where((i + 1) as nat, replay) == indices_where(i as nat, replay).push(i as int));
                        assert(indices_where((i + 1) as nat, stored) == indices_where(i as nat, stored));
                        assert(indices_where((i + 1) as nat, bad) == indices_where(i as nat, bad));
                    }
                    store.replay_lines_excluded = store.replay_lines_excluded + 1;
                } else {
                    proof {
                        assert(stored(i as int));
                        assert(indices_where((i + 1) as nat, stored) == indices_where(i as nat, stored).push(i as int));
                        assert(indices_where((i + 1) as nat, bad) == indices_where(i as nat, bad));
                        assert(indices_where((i + 1) as nat, replay) == indices_where(i as nat, replay));
                        assert(ints(out@.push(i)) =~= ints(out@).push(i as int));
                    }
                    store.append(e);
                    out.push(i);
                    proof {
                        assert forall|k: int|
                            0 <= k < out.len() implies {
                                let j = out@[k] as int;
                                holds_line(
                                    #[trigger] store.events@[s0.events.len() + k],
                                    docs@[j]->0.nodes@,
                                    lines@[j].1@,
                                    instance@,
                                    line_event_id(instance@, lines@[j].0 as nat),
                                )
                            } by {
                            if k < out0.len() {
                                assert(out@[k] == out0[k]);
                            }
                        }
                    }
                }
            },
        }
        i = i + 1;
    }
    out
}

/// Takes one deploy journal entry into the store: the journal's
/// watermark rises to its time (never falls), and it joins the deploys.
pub fn record_deploy(store: &mut Store, d: DeployEvent)
    requires
        old(store).wf(),
    ensures
        final(store).wf(),
        final(store).deploys@ == old(store).deploys@.push(d),
        mark_of(final(store).watermarks.entries@, "journal"@) == Some(
            match mark_of(old(store).watermarks.entries@, "journal"@) {
                Some(t) => if d.ts > t {
                    d.ts
                } else {
                    t
                },
                None => d.ts,
            },
        ),
        forall|k: Seq<char>| k != "journal"@ ==> #[trigger] mark_of(final(store).watermarks.entries@, k) == mark_of(
            old(store).watermarks.entries@,
            k,
        ),
        final(store).events@ == old(store).events@,
        final(store).drain == old(store).drain,
        final(store).ingested == old(store).ingested,
        final(store).malformed == old(store).malformed,
        final(store).replay_lines_excluded == old(store).replay_lines_excluded,
        final(store).earliest_ts == old(store).earliest_ts,
        final(store).epoch == old(store).epoch,
        final(store).drain_cfg == old(store).drain_cfg,
{
    store.watermarks.advance(String::from_str("journal"), d.ts);
    store.deploys.push(d);
}

// ------------------------------------------------------------------ scraped metrics

/// The counters kept of a /metrics answer.
pub open spec fn kept_metric_names() -> Seq<Seq<char>> {
    seq!["requests_total"@, "errors_total"@, "upstream_requests_total"@, "latency_ms_count"@, "latency_ms_sum"@]
}

/// Index of the first `c` in `s` at or after `i`, or the end of `s`.
pub open spec fn first_index(s: Seq<char>, c: char, i: int) -> int
    decreases s.len() - i,
{
    if i < 0 || i >= s.len() || s[i] == c {
        i
    } else {
        first_index(s, c, i + 1)
    }
}

/// Index of the last `c` among the first `n` characters of `s`, or -1.
pub open spec fn last_index(s: Seq<char>, c: char, n: int) -> int
    decreases n,
{
    if n <= 0 || n > s.len() {
        -1
    } else if s[n - 1] == c {
        n - 1
    } else {
        last_index(s, c, n - 1)
    }
}

/// A metric's name: its series up to the first `{`.
pub open spec fn metric_name(series: Seq<char>) -> Seq<char> {
    series.take(first_index(series, '{', 0))
}

/// The sample a line of `instance`'s /metrics answer gives, if it is kept:
/// not a comment; split at its last space into the series and the value;
/// a counter kept by name. The sample is keyed `instance|series`; its value
/// is the text after the space.
pub open spec fn sample_of(instance: Seq<char>, line: Seq<char>) -> Option<(Seq<char>, Seq<char>)> {
    if starts_with_text(line, "#"@) {
        None
    } else {
        let i = last_index(line, ' ', line.len() as int);
        if i >= 0 && kept_metric_names().contains(metric_name(line.take(i))) {
            Some((instance + "|"@ + line.take(i), line.skip(i + 1)))
        } else {
            None
        }
    }
}

/// The samples of the first `n` lines, in order.
pub open spec fn samples_of(instance: Seq<char>, lines: Seq<Seq<char>>, n: int) -> Seq<(Seq<char>, Seq<char>)>
    decreases n,
{
    if n <= 0 || n > lines.len() {
        Seq::empty()
    } else {
        match sample_of(instance, lines[n - 1]) {
            Some(x) => samples_of(instance, lines, n - 1).push(x),
            None => samples_of(instance, lines, n - 1),
        }
    }
}

/// Pairs of strings by their views.
pub open spec fn pair_views(v: Seq<(String, String)>) -> Seq<(Seq<char>, Seq<char>)> {
    v.map_values(|p: (String, String)| (p.0@, p.1@))
}

fn metric_name_exec(cs: &Vec<char>, end: usize) -> (r: usize)
    requires
        end <= cs.len(),
    ensures
        r == first_index(cs@.take(end as int), '{', 0),
        r <= end,
{
    let ghost s = cs@.take(end as int);
    let mut j: usize = 0;
    while j < end && cs[j] != '{'
        invariant
            end <= cs.len(),
            s == cs@.take(end as int),
            j <= end,
            first_index(s, '{', 0) == first_index(s, '{', j as int),
        decreases end - j,
    {
        j = j + 1;
    }
    j
}

fn sample_exec(instance: &str, line: &str) -> (r: Option<(String, String)>)
    ensures
        match r {
            Some(p) => sample_of(instance@, line@) == Some((p.0@, p.1@)),
            None => sample_of(instance@, line@) is None,
        },
{
    proof {
        reveal_strlit("#");
        reveal_strlit("|");
    }
    if starts_with(line, "#") {
        return None;
    }
    let cs = chars_of(line);
    let mut i: usize = cs.len();
    while i > 0 && cs[i - 1] != ' '
        invariant
            cs@ == line@,
            i <= cs.len(),
            last_index(line@, ' ', line@.len() as int) == last_index(line@, ' ', i as int),
        decreases i,
    {
        i = i - 1;
    }
    if i == 0 {
        return None;
    }
    let sp = i - 1;
    let end = metric_name_exec(&cs, sp);
    let name = string_of(&cs.as_slice()[0..end]);
    proof {
        assert(name@ =~= line@.take(sp as int).take(end as int));
        assert(name@ == metric_name(line@.take(sp as int)));
    }
    let keep = str_eq(name.as_str(), "requests_total") || str_eq(name.as_str(), "errors_total") || str_eq(
        name.as_str(),
        "upstream_requests_total",
    ) || str_eq(name.as_str(), "latency_ms_count") || str_eq(name.as_str(), "latency_ms_sum");
    proof {
        let ns = kept_metric_names();
        if keep {
            if name@ == "requests_total"@ {
                assert(ns[0] == name@);
            } else if name@ == "errors_total"@ {
                assert(ns[1] == name@);
            } else if name@ == "upstream_requests_total"@ {
                assert(ns[2] == name@);
            } else if name@ == "latency_ms_count"@ {
                assert(ns[3] == name@);
            } else {
                assert(ns[4] == name@);
            }
        } else {
            assert forall|k: int| 0 <= k < ns.len() implies ns[k] != name@ by {}
        }
    }
    if !keep {
        return None;
    }
    let series = string_of(&cs.as_slice()[0..sp]);
    let value = string_of(&cs.as_slice()[sp + 1..cs.len()]);
    proof {
        assert(series@ =~= line@.take(sp as int));
        assert(value@ =~= line@.skip(sp + 1));
    }
    Some((cat(&cat(instance, "|"), series.as_str()), value))
}

/// The samples of one scrape of `instance`'s /metrics answer `text`, in
/// the order of its lines: each keyed `instance|series`, with its value as
/// text (the caller reads it as a number and keeps a ring of them).
pub fn metric_samples(instance: &str, text: &str) -> (r: Vec<(String, String)>)
    ensures
        pair_views(r@) == samples_of(instance@, lines_of(text@), lines_of(text@).len() as int),
{
    let lines = text_lines(text);
    let ghost ls = lines_of(text@);
    let mut out: Vec<(String, String)> = Vec::new();
    let mut k: usize = 0;
    while k < lines.len()
        invariant
            k <= lines.len(),
            views(lines@) == ls,
            pair_views(out@) == samples_of(instance@, ls, k as int),
        decreases lines.len() - k,
    {
        let x = sample_exec(instance, lines[k].as_str());
        proof {
            assert(ls[k as int] == lines@[k as int]@);
        }
        match x {
            Some(p) => {
                proof {
                    assert(pair_views(out@.push(p)) =~= pair_views(out@).push((p.0@, p.1@)));
                }
                out.push(p);
            },
            None => {},
        }
        k = k + 1;
    }
    out
}

} // verus!
