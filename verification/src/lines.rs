//! One JSON log line, already parsed into a `JsonDoc`, read as an event:
//! which fields it must have, what the others default to, and how its
//! message template is named.

use vstd::prelude::*;
use crate::body::{JsonDoc, JsonNode, doc_wf};
use crate::events::Event;
use crate::identity::{mask, masked, template_id, template_id_of};
use crate::sanitize::{cap_str, capped};
use crate::text::str_eq;
use crate::deployer::opt_view;
use crate::time::{parse_rfc3339_micros, rfc3339_parsed};

verus! {

/// Index of the first member of `m` from `from` on whose key is `key`.
pub open spec fn member_from(m: Seq<(String, usize)>, key: Seq<char>, from: int) -> Option<int>
    decreases m.len() - from,
{
    if from < 0 || from >= m.len() {
        None
    } else if m[from].0@ == key {
        Some(from)
    } else {
        member_from(m, key, from + 1)
    }
}

/// The value of member `key` of the root object, if the root is an object
/// that has one.
pub open spec fn member(d: Seq<JsonNode>, key: Seq<char>) -> Option<JsonNode> {
    match d[0] {
        JsonNode::Object(m) => match member_from(m@, key, 0) {
            Some(k) => Some(d[m@[k].1 as int]),
            None => None,
        },
        _ => None,
    }
}

/// Member `key`, when it is a string.
pub open spec fn str_member(d: Seq<JsonNode>, key: Seq<char>) -> Option<Seq<char>> {
    match member(d, key) {
        Some(JsonNode::Str(s)) => Some(s@),
        _ => None,
    }
}

pub open spec fn is_digit(c: char) -> bool {
    '0' <= c <= '9'
}

/// The value of a run of decimal digits.
pub open spec fn digits_value(t: Seq<char>) -> nat
    decreases t.len(),
{
    if t.len() == 0 {
        0
    } else {
        digits_value(t.drop_last()) * 10 + ((t.last() as u32 - '0' as u32) as nat)
    }
}

/// Member `key`, when it is a non-negative integer that fits in a `u64`
/// (the parser writes those as plain digits).
pub open spec fn u64_member(d: Seq<JsonNode>, key: Seq<char>) -> Option<nat> {
    match member(d, key) {
        Some(JsonNode::Number(t)) => if t@.len() > 0 && (forall|i: int| 0 <= i < t@.len() ==> is_digit(
            #[trigger] t@[i],
        )) && digits_value(t@) <= u64::MAX {
            Some(digits_value(t@))
        } else {
            None
        },
        _ => None,
    }
}

proof fn lemma_digits_grow(t: Seq<char>, i: int)
    requires
        0 <= i <= t.len(),
        forall|j: int| 0 <= j < t.len() ==> is_digit(#[trigger] t[j]),
    ensures
        digits_value(t.take(i)) <= digits_value(t),
    decreases t.len() - i,
{
    if i < t.len() {
        let u = t.take(i + 1);
        assert(u.drop_last() =~= t.take(i));
        assert(is_digit(t[i]));
        lemma_digits_grow(t, i + 1);
    } else {
        assert(t.take(i) =~= t);
    }
}

fn find_member(m: &Vec<(String, usize)>, key: &str) -> (r: Option<usize>)
    ensures
        match r {
            Some(k) => member_from(m@, key@, 0) == Some(k as int) && k < m.len(),
            None => member_from(m@, key@, 0) is None,
        },
{
    let mut k: usize = m.len();
    let mut found: Option<usize> = None;
    while k > 0
        invariant
            k <= m.len(),
            found matches Some(j) ==> j < m.len(),
            match found {
                Some(j) => member_from(m@, key@, k as int) == Some(j as int),
                None => member_from(m@, key@, k as int) is None,
            },
        decreases k,
    {
        k = k - 1;
        if str_eq(m[k].0.as_str(), key) {
            found = Some(k);
        }
    }
    found
}

fn member_exec<'a>(d: &'a JsonDoc, key: &str) -> (r: Option<&'a JsonNode>)
    requires
        doc_wf(d.nodes@),
    ensures
        match r {
            Some(n) => member(d.nodes@, key@) == Some(*n),
            None => member(d.nodes@, key@) is None,
        },
{
    match &d.nodes[0] {
        JsonNode::Object(m) => match find_member(m, key) {
            Some(k) => {
                proof {
                    assert(crate::body::child(d.nodes@[0], k as int) == m@[k as int].1 as int);
                }
                Some(&d.nodes[m[k].1])
            },
            None => None,
        },
        _ => None,
    }
}

pub(crate) fn str_member_exec(d: &JsonDoc, key: &str) -> (r: Option<String>)
    requires
        doc_wf(d.nodes@),
    ensures
        match r {
            Some(s) => str_member(d.nodes@, key@) == Some(s@),
            None => str_member(d.nodes@, key@) is None,
        },
{
    match member_exec(d, key) {
        Some(JsonNode::Str(s)) => Some(s.clone()),
        _ => None,
    }
}

fn parse_digits(t: &str) -> (r: Option<u64>)
    ensures
        match r {
            Some(v) => t@.len() > 0 && (forall|i: int| 0 <= i < t@.len() ==> is_digit(#[trigger] t@[i]))
                && v == digits_value(t@),
            None => !(t@.len() > 0 && (forall|i: int| 0 <= i < t@.len() ==> is_digit(#[trigger] t@[i]))
                && digits_value(t@) <= u64::MAX),
        },
{
    let cs = crate::text::chars_of(t);
    if cs.len() == 0 {
        return None;
    }
    let mut k: usize = 0;
    while k < cs.len()
        invariant
            cs@ == t@,
            k <= cs.len(),
            forall|i: int| 0 <= i < k ==> is_digit(#[trigger] t@[i]),
        decreases cs.len() - k,
    {
        if !(cs[k] >= '0' && cs[k] <= '9') {
            return None;
        }
        k = k + 1;
    }
    let mut v: u64 = 0;
    let mut i: usize = 0;
    proof {
        assert(t@.take(0) =~= Seq::<char>::empty());
    }
    while i < cs.len()
        invariant
            cs@ == t@,
            i <= cs.len(),
            forall|j: int| 0 <= j < t@.len() ==> is_digit(#[trigger] t@[j]),
            v == digits_value(t@.take(i as int)),
        decreases cs.len() - i,
    {
        let dgt = (cs[i] as u32 - '0' as u32) as u64;
        proof {
            assert(t@.take(i + 1).drop_last() =~= t@.take(i as int));
            assert(t@.take(i + 1).last() == cs@[i as int]);
            assert(is_digit(t@[i as int]));
        }
        match v.checked_mul(10) {
            Some(x) => match x.checked_add(dgt) {
                Some(y) => {
                    v = y;
                },
                None => {
                    proof {
                        lemma_digits_grow(t@, i + 1);
                    }
                    return None;
                },
            },
            None => {
                proof {
                    lemma_digits_grow(t@, i + 1);
                }
                return None;
            },
        }
        i = i + 1;
    }
    proof {
        assert(t@.take(cs.len() as int) =~= t@);
    }
    Some(v)
}

fn u64_member_exec(d: &JsonDoc, key: &str) -> (r: Option<u64>)
    requires
        doc_wf(d.nodes@),
    ensures
        match r {
            Some(v) => u64_member(d.nodes@, key@) == Some(v as nat),
            None => u64_member(d.nodes@, key@) is None,
        },
{
    match member_exec(d, key) {
        Some(JsonNode::Number(t)) => parse_digits(t.as_str()),
        _ => None,
    }
}

/// `s` or `fallback` when absent.
pub open spec fn or_else(s: Option<Seq<char>>, fallback: Seq<char>) -> Seq<char> {
    match s {
        Some(x) => x,
        None => fallback,
    }
}

/// `e` is the event the line `raw`, parsed as `d`, describes: a timestamp
/// and a message are required, the rest default.
pub open spec fn event_of(d: Seq<JsonNode>, raw: Seq<char>, hint: Seq<char>, id: Seq<char>, cap: nat, ts: int, e: Event) -> bool {
    let msg = str_member(d, "msg"@)->0;
    &&& e.event_id@ == id
    &&& e.ts == ts
    &&& e.service@ == or_else(str_member(d, "service"@), hint)
    &&& e.instance@ == or_else(str_member(d, "instance"@), hint)
    &&& e.version@ == or_else(str_member(d, "version"@), Seq::empty())
    &&& e.level@ == or_else(str_member(d, "level"@), "INFO"@)
    &&& opt_view(e.req_id) == str_member(d, "req_id"@)
    &&& e.msg@ == msg
    &&& opt_view(e.route) == str_member(d, "route"@)
    &&& e.status == (match u64_member(d, "status"@) {
        Some(v) => Some((v % 65536) as u16),
        None => None,
    })
    &&& opt_view(e.deploy_id) == str_member(d, "deploy_id"@)
    &&& opt_view(e.upstream) == str_member(d, "upstream"@)
    &&& opt_view(e.kind) == str_member(d, "kind"@)
    &&& e.has_stack == member(d, "stack"@) is Some
    &&& e.pattern@ == masked(msg)
    &&& e.template_id@ == template_id_of(masked(msg))
    &&& e.raw@ == capped(raw, cap)
}

fn or_default(s: Option<String>, fallback: &str) -> (r: String)
    ensures
        r@ == or_else(opt_view(s), fallback@),
{
    match s {
        Some(x) => x,
        None => fallback.to_owned(),
    }
}

/// Reads one log line as an event. None when it has no `ts` string that
/// parses as an instant, or no `msg` string; the caller counts those as
/// malformed. `doc` is the line parsed as JSON. The raw line is kept up to
/// `raw_cap` bytes, cut back to a character boundary, marked when cut.
pub fn parse_event(doc: &JsonDoc, raw: &str, instance_hint: &str, event_id: String, raw_cap: usize) -> (r: Option<Event>)
    requires
        doc_wf(doc.nodes@),
    ensures
        r is Some <==> (str_member(doc.nodes@, "ts"@) matches Some(t) && rfc3339_parsed(t) is Ok && str_member(
            doc.nodes@,
            "msg"@,
        ) is Some),
        r matches Some(e) ==> event_of(
            doc.nodes@,
            raw@,
            instance_hint@,
            event_id@,
            raw_cap as nat,
            rfc3339_parsed(str_member(doc.nodes@, "ts"@)->0)->Ok_0,
            e,
        ),
{
    let ts_text = match str_member_exec(doc, "ts") {
        Some(t) => t,
        None => {
            return None;
        },
    };
    let ts = match parse_rfc3339_micros(ts_text.as_str()) {
        Ok(t) => t,
        Err(_) => {
            return None;
        },
    };
    let msg = match str_member_exec(doc, "msg") {
        Some(m) => m,
        None => {
            return None;
        },
    };
    let pattern = mask(msg.as_str());
    let tid = template_id(pattern.as_str());
    let status = match u64_member_exec(doc, "status") {
        Some(v) => Some((v % 65536) as u16),
        None => None,
    };
    let has_stack = member_exec(doc, "stack").is_some();
    proof {
        reveal_strlit("");
        assert(""@ =~= Seq::<char>::empty());
    }
    Some(
        Event {
            event_id,
            ts,
            service: or_default(str_member_exec(doc, "service"), instance_hint),
            instance: or_default(str_member_exec(doc, "instance"), instance_hint),
            version: or_default(str_member_exec(doc, "version"), ""),
            level: or_default(str_member_exec(doc, "level"), "INFO"),
            req_id: str_member_exec(doc, "req_id"),
            msg,
            route: str_member_exec(doc, "route"),
            status,
            deploy_id: str_member_exec(doc, "deploy_id"),
            upstream: str_member_exec(doc, "upstream"),
            kind: str_member_exec(doc, "kind"),
            has_stack,
            template_id: tid,
            pattern,
            raw: cap_str(raw, raw_cap),
        },
    )
}

} // verus!
