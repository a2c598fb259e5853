//! Sanitisation of captured requests: which header names never leave the
//! capture, which JSON keys are secret-shaped, and byte caps that cut on a
//! character boundary.

use vstd::prelude::*;
use vstd::utf8::{encode_utf8, encode_scalar};
use crate::text::{chars_of, string_of, push_char, str_eq, str_le, lex_le, views, sorted_views, strictly_sorted_views, sort_strings, lemma_lex_le_antisymmetric, lemma_lex_le_transitive, lemma_lex_le_total};

verus! {

// ------------------------------------------------------------------ characters

/// ASCII lowercase of one character (`char::to_ascii_lowercase`).
pub open spec fn lower_char(c: char) -> char {
    if 65 <= (c as u32) <= 90 {
        (((c as u32) + 32) as u8) as char
    } else {
        c
    }
}

/// ASCII lowercase of a string (`str::to_ascii_lowercase`).
pub open spec fn ascii_lower(s: Seq<char>) -> Seq<char> {
    Seq::new(s.len(), |i: int| lower_char(s[i]))
}

pub fn to_ascii_lower(s: &str) -> (r: String)
    ensures
        r@ == ascii_lower(s@),
{
    let cs = chars_of(s);
    let mut out: Vec<char> = Vec::new();
    let mut i: usize = 0;
    while i < cs.len()
        invariant
            cs@ == s@,
            i <= cs.len(),
            out@ == ascii_lower(s@).take(i as int),
        decreases cs.len() - i,
    {
        let c = cs[i];
        let u = c as u32;
        let l = if 65 <= u && u <= 90 {
            ((u + 32) as u8) as char
        } else {
            c
        };
        out.push(l);
        i = i + 1;
        proof {
            assert(out@ =~= ascii_lower(s@).take(i as int));
        }
    }
    proof {
        assert(ascii_lower(s@).take(cs.len() as int) =~= ascii_lower(s@));
    }
    string_of(out.as_slice())
}

/// `f` occurs in `s` at position `i`.
pub open spec fn occurs_at(s: Seq<char>, f: Seq<char>, i: int) -> bool {
    0 <= i && i + f.len() <= s.len() && s.subrange(i, i + f.len()) == f
}

/// `f` occurs somewhere in `s` (`str::contains`).
pub open spec fn contains_text(s: Seq<char>, f: Seq<char>) -> bool {
    exists|i: int| occurs_at(s, f, i)
}

/// `s` ends with `f` (`str::ends_with`).
pub open spec fn ends_with_text(s: Seq<char>, f: Seq<char>) -> bool {
    occurs_at(s, f, s.len() - f.len())
}

fn occurs_here(s: &Vec<char>, f: &Vec<char>, i: usize) -> (r: bool)
    requires
        i + f.len() <= s.len(),
    ensures
        r == occurs_at(s@, f@, i as int),
{
    let mut j: usize = 0;
    while j < f.len()
        invariant
            i + f.len() <= s.len(),
            j <= f.len(),
            forall|k: int| 0 <= k < j ==> s@[i + k] == f@[k],
        decreases f.len() - j,
    {
        if s[i + j] != f[j] {
            proof {
                assert(s@.subrange(i as int, i + f.len())[j as int] != f@[j as int]);
            }
            return false;
        }
        j = j + 1;
    }
    proof {
        assert(s@.subrange(i as int, i + f.len()) =~= f@);
    }
    true
}

/// Does `f` occur in `s`?
pub fn str_contains(s: &str, f: &str) -> (r: bool)
    ensures
        r == contains_text(s@, f@),
{
    let sv = chars_of(s);
    let fv = chars_of(f);
    if fv.len() > sv.len() {
        proof {
            assert forall|i: int| !occurs_at(s@, f@, i) by {}
        }
        return false;
    }
    let last = sv.len() - fv.len();
    let mut i: usize = 0;
    loop
        invariant
            sv@ == s@,
            fv@ == f@,
            fv.len() <= sv.len(),
            last == sv.len() - fv.len(),
            i <= last,
            forall|k: int| 0 <= k < i ==> !occurs_at(s@, f@, k),
        ensures
            fv.len() <= sv.len(),
            last == sv.len() - fv.len(),
            i == last,
            forall|k: int| 0 <= k <= i ==> !occurs_at(s@, f@, k),
        decreases last - i,
    {
        if occurs_here(&sv, &fv, i) {
            return true;
        }
        if i == last {
            break;
        }
        i = i + 1;
    }
    proof {
        assert forall|k: int| !occurs_at(s@, f@, k) by {
            if 0 <= k && k + f@.len() <= s@.len() {
                assert(k <= i);
            }
        }
    }
    false
}

/// Does `s` end with `f`?
pub fn str_ends_with(s: &str, f: &str) -> (r: bool)
    ensures
        r == ends_with_text(s@, f@),
{
    let sv = chars_of(s);
    let fv = chars_of(f);
    if fv.len() > sv.len() {
        return false;
    }
    occurs_here(&sv, &fv, sv.len() - fv.len())
}

// ------------------------------------------------------------------ byte caps

/// The marker appended to a capped string.
pub open spec fn capped_marker() -> Seq<char> {
    "…[capped]"@
}

/// `k` characters of `s` are the longest prefix whose UTF-8 encoding fits in
/// `n` bytes, i.e. the cut at the last character boundary at or below `n`.
pub open spec fn fits_upto(s: Seq<char>, n: nat, k: int) -> bool {
    &&& 0 <= k <= s.len()
    &&& encode_utf8(s.take(k)).len() <= n
    &&& (k == s.len() || encode_utf8(s.take(k + 1)).len() > n)
}

/// `s` capped at `n` bytes: unchanged when its encoding fits, else cut at
/// the last character boundary at or below `n`, with `marker` appended.
pub open spec fn capped_with(s: Seq<char>, n: nat, marker: Seq<char>) -> Seq<char> {
    if encode_utf8(s).len() <= n {
        s
    } else {
        s.take(choose|k: int| fits_upto(s, n, k)) + marker
    }
}

/// `s` capped at `n` bytes, with the marker appended when anything was cut.
pub open spec fn capped(s: Seq<char>, n: nat) -> Seq<char> {
    capped_with(s, n, capped_marker())
}

/// UTF-8 width of a character (`char::len_utf8`).
pub fn utf8_width(c: char) -> (w: usize)
    ensures
        w == encode_scalar(c as u32).len(),
{
    let u = c as u32;
    if u <= 0x7F {
        1
    } else if u <= 0x7FF {
        2
    } else if u <= 0xFFFF {
        proof {
            vstd::utf8::char_is_scalar(c);
        }
        3
    } else {
        4
    }
}

pub proof fn lemma_encode_push(s: Seq<char>, c: char)
    ensures
        encode_utf8(s.push(c)) == encode_utf8(s) + encode_scalar(c as u32),
    decreases s.len(),
{
    if s.len() == 0 {
        assert(s.push(c).drop_first() =~= Seq::<char>::empty());
        assert(encode_utf8(Seq::<char>::empty()) =~= Seq::<u8>::empty());
        assert(encode_utf8(s) =~= Seq::<u8>::empty());
        assert(encode_scalar(c as u32) + encode_utf8(Seq::<char>::empty()) =~= encode_scalar(
            c as u32,
        ));
    } else {
        lemma_encode_push(s.drop_first(), c);
        assert(s.push(c).drop_first() =~= s.drop_first().push(c));
        assert(s.push(c)[0] == s[0]);
    }
}

proof fn lemma_fits_unique(s: Seq<char>, n: nat, k1: int, k2: int)
    requires
        fits_upto(s, n, k1),
        fits_upto(s, n, k2),
    ensures
        k1 == k2,
{
    if k1 < k2 {
        lemma_encode_prefix_monotone(s, k1 + 1, k2);
    } else if k2 < k1 {
        lemma_encode_prefix_monotone(s, k2 + 1, k1);
    }
}

pub proof fn lemma_encode_prefix_monotone(s: Seq<char>, a: int, b: int)
    requires
        0 <= a <= b <= s.len(),
    ensures
        encode_utf8(s.take(a)).len() <= encode_utf8(s.take(b)).len(),
    decreases b - a,
{
    if a < b {
        lemma_encode_prefix_monotone(s, a, b - 1);
        lemma_encode_push(s.take(b - 1), s[b - 1]);
        assert(s.take(b - 1).push(s[b - 1]) =~= s.take(b));
    }
}

/// `s` capped at `n` bytes on a character boundary, with `…[capped]`
/// appended when anything was cut.
pub fn cap_str(s: &str, n: usize) -> (r: String)
    ensures
        r@ == capped(s@, n as nat),
{
    proof {
        reveal_strlit("…[capped]");
    }
    cap_with(s, n, "…[capped]")
}

/// `s` capped at `n` bytes on a character boundary, with `marker`
/// appended when anything was cut.
pub fn cap_with(s: &str, n: usize, marker: &str) -> (r: String)
    ensures
        r@ == capped_with(s@, n as nat, marker@),
{
    let cs = chars_of(s);
    let mut used: usize = 0;
    let mut k: usize = 0;
    let mut cut = false;
    proof {
        assert(s@.take(0) =~= Seq::<char>::empty());
        assert(encode_utf8(Seq::<char>::empty()).len() == 0);
    }
    loop
        invariant_except_break
            !cut,
        invariant
            cs@ == s@,
            k <= cs.len(),
            used == encode_utf8(s@.take(k as int)).len(),
            used <= n,
        ensures
            cs@ == s@,
            k <= cs.len(),
            used == encode_utf8(s@.take(k as int)).len(),
            used <= n,
            cut ==> k < cs.len() && encode_utf8(s@.take(k + 1)).len() > n,
            !cut ==> k == cs.len(),
        decreases cs.len() - k,
    {
        if k == cs.len() {
            break;
        }
        let w = utf8_width(cs[k]);
        proof {
            lemma_encode_push(s@.take(k as int), s@[k as int]);
            assert(s@.take(k as int).push(s@[k as int]) =~= s@.take(k + 1));
        }
        if w > n - used {
            cut = true;
            break;
        }
        used = used + w;
        k = k + 1;
    }
    if !cut {
        proof {
            assert(s@.take(k as int) =~= s@);
        }
        return s.to_owned();
    }
    proof {
        assert(s@.take(cs.len() as int) =~= s@);
        lemma_encode_prefix_monotone(s@, k + 1, cs.len() as int);
        assert(fits_upto(s@, n as nat, k as int));
        let c = choose|j: int| fits_upto(s@, n as nat, j);
        lemma_fits_unique(s@, n as nat, c, k as int);
    }
    let mut out = string_of(&cs.as_slice()[0..k]);
    let mc = chars_of(marker);
    let mut i: usize = 0;
    while i < mc.len()
        invariant
            mc@ == marker@,
            i <= mc.len(),
            out@ == s@.take(k as int) + marker@.take(i as int),
        decreases mc.len() - i,
    {
        push_char(&mut out, mc[i]);
        i = i + 1;
        proof {
            assert(out@ =~= s@.take(k as int) + marker@.take(i as int));
        }
    }
    proof {
        assert(marker@.take(mc.len() as int) =~= marker@);
    }
    out
}

} // verus!

verus! {

// ------------------------------------------------------------------ headers

/// Header names dropped when equal to one of these (lowercased).
pub open spec fn drop_header_exact() -> Seq<Seq<char>> {
    seq![
        "authorization"@,
        "proxy-authorization"@,
        "cookie"@,
        "set-cookie"@,
        "x-api-key"@,
        "api-key"@,
        "x-auth-token"@,
        "x-csrf-token"@,
    ]
}

/// Header names dropped when containing one of these (lowercased).
pub open spec fn drop_header_fragments() -> Seq<Seq<char>> {
    seq![
        "auth"@,
        "token"@,
        "secret"@,
        "session"@,
        "cookie"@,
        "credential"@,
        "password"@,
        "signature"@,
    ]
}

/// An auth-shaped header name: its lowercase form is one of the exact names
/// or contains one of the fragments.
pub open spec fn header_dropped(name: Seq<char>) -> bool {
    let n = ascii_lower(name);
    ||| drop_header_exact().contains(n)
    ||| exists|i: int|
        0 <= i < drop_header_fragments().len() && contains_text(n, #[trigger] drop_header_fragments()[i])
}

fn drop_exact_at(i: usize) -> (s: &'static str)
    requires
        i < 8,
    ensures
        s@ == drop_header_exact()[i as int],
{
    match i {
        0 => "authorization",
        1 => "proxy-authorization",
        2 => "cookie",
        3 => "set-cookie",
        4 => "x-api-key",
        5 => "api-key",
        6 => "x-auth-token",
        _ => "x-csrf-token",
    }
}

fn drop_fragment_at(i: usize) -> (s: &'static str)
    requires
        i < 8,
    ensures
        s@ == drop_header_fragments()[i as int],
{
    match i {
        0 => "auth",
        1 => "token",
        2 => "secret",
        3 => "session",
        4 => "cookie",
        5 => "credential",
        6 => "password",
        _ => "signature",
    }
}

/// Is this header name auth-shaped (never forwarded)?
pub fn header_is_dropped(name: &str) -> (r: bool)
    ensures
        r == header_dropped(name@),
{
    let n = to_ascii_lower(name);
    let mut i: usize = 0;
    while i < 8
        invariant
            n@ == ascii_lower(name@),
            i <= 8,
            forall|j: int| 0 <= j < i ==> drop_header_exact()[j] != n@,
        decreases 8 - i,
    {
        if str_eq(n.as_str(), drop_exact_at(i)) {
            return true;
        }
        i = i + 1;
    }
    let mut i: usize = 0;
    while i < 8
        invariant
            n@ == ascii_lower(name@),
            i <= 8,
            forall|j: int| 0 <= j < 8 ==> drop_header_exact()[j] != n@,
            forall|j: int| 0 <= j < i ==> !contains_text(n@, #[trigger] drop_header_fragments()[j]),
        decreases 8 - i,
    {
        if str_contains(n.as_str(), drop_fragment_at(i)) {
            return true;
        }
        i = i + 1;
    }
    proof {
        assert(!drop_header_exact().contains(n@)) by {
            if drop_header_exact().contains(n@) {
                let j = choose|j: int| 0 <= j < drop_header_exact().len() && drop_header_exact()[j] == n@;
                assert(drop_header_exact()[j] != n@);
            }
        }
    }
    false
}

// ------------------------------------------------------------------ JSON keys

/// Secret-shaped JSON keys, compared after lowercasing and removing `-`,
/// `_` and spaces.
pub open spec fn redact_keys() -> Seq<Seq<char>> {
    seq![
        "password"@,
        "passwd"@,
        "pwd"@,
        "secret"@,
        "token"@,
        "accesstoken"@,
        "refreshtoken"@,
        "idtoken"@,
        "apikey"@,
        "authorization"@,
        "auth"@,
        "cvv"@,
        "cvc"@,
        "cvv2"@,
        "cardnumber"@,
        "pan"@,
        "ssn"@,
        "privatekey"@,
        "accesskey"@,
        "secretkey"@,
        "clientsecret"@,
        "otp"@,
        "pin"@,
    ]
}

/// A key that ends in one of these (and is longer) is secret-shaped too.
pub open spec fn redact_suffixes() -> Seq<Seq<char>> {
    seq!["token"@, "secret"@, "password"@, "apikey"@]
}

/// `s` without `-`, `_` and spaces.
pub open spec fn strip_separators(s: Seq<char>) -> Seq<char>
    decreases s.len(),
{
    if s.len() == 0 {
        s
    } else {
        let rest = strip_separators(s.drop_last());
        let c = s.last();
        if c == '-' || c == '_' || c == ' ' {
            rest
        } else {
            rest.push(c)
        }
    }
}

/// The form a key is compared in.
pub open spec fn key_core(key: Seq<char>) -> Seq<char> {
    strip_separators(ascii_lower(key))
}

pub open spec fn key_secret(key: Seq<char>) -> bool {
    let k = key_core(key);
    ||| redact_keys().contains(k)
    ||| exists|i: int|
        0 <= i < redact_suffixes().len() && k.len() > redact_suffixes()[i].len() && ends_with_text(
            k,
            #[trigger] redact_suffixes()[i],
        )
}

fn redact_key_at(i: usize) -> (s: &'static str)
    requires
        i < 23,
    ensures
        s@ == redact_keys()[i as int],
{
    match i {
        0 => "password",
        1 => "passwd",
        2 => "pwd",
        3 => "secret",
        4 => "token",
        5 => "accesstoken",
        6 => "refreshtoken",
        7 => "idtoken",
        8 => "apikey",
        9 => "authorization",
        10 => "auth",
        11 => "cvv",
        12 => "cvc",
        13 => "cvv2",
        14 => "cardnumber",
        15 => "pan",
        16 => "ssn",
        17 => "privatekey",
        18 => "accesskey",
        19 => "secretkey",
        20 => "clientsecret",
        21 => "otp",
        _ => "pin",
    }
}

fn redact_suffix_at(i: usize) -> (s: &'static str)
    requires
        i < 4,
    ensures
        s@ == redact_suffixes()[i as int],
{
    match i {
        0 => "token",
        1 => "secret",
        2 => "password",
        _ => "apikey",
    }
}

fn key_core_of(key: &str) -> (r: String)
    ensures
        r@ == key_core(key@),
{
    let low = to_ascii_lower(key);
    let cs = chars_of(low.as_str());
    let mut out: Vec<char> = Vec::new();
    let mut i: usize = 0;
    while i < cs.len()
        invariant
            cs@ == ascii_lower(key@),
            i <= cs.len(),
            out@ == strip_separators(cs@.take(i as int)),
        decreases cs.len() - i,
    {
        let c = cs[i];
        proof {
            assert(cs@.take(i + 1).drop_last() =~= cs@.take(i as int));
        }
        if c != '-' && c != '_' && c != ' ' {
            out.push(c);
        }
        i = i + 1;
    }
    proof {
        assert(cs@.take(cs.len() as int) =~= cs@);
    }
    string_of(out.as_slice())
}

/// Is this JSON key secret-shaped (its value is redacted)?
pub fn key_is_secret(key: &str) -> (r: bool)
    ensures
        r == key_secret(key@),
{
    let k = key_core_of(key);
    let kc = chars_of(k.as_str());
    let mut i: usize = 0;
    while i < 23
        invariant
            k@ == key_core(key@),
            i <= 23,
            forall|j: int| 0 <= j < i ==> redact_keys()[j] != k@,
        decreases 23 - i,
    {
        if str_eq(k.as_str(), redact_key_at(i)) {
            return true;
        }
        i = i + 1;
    }
    let mut i: usize = 0;
    while i < 4
        invariant
            k@ == key_core(key@),
            kc@ == k@,
            i <= 4,
            forall|j: int| 0 <= j < 23 ==> redact_keys()[j] != k@,
            forall|j: int|
                0 <= j < i ==> !(k@.len() > redact_suffixes()[j].len() && ends_with_text(
                    k@,
                    #[trigger] redact_suffixes()[j],
                )),
        decreases 4 - i,
    {
        let suf = redact_suffix_at(i);
        let sc = chars_of(suf);
        if kc.len() > sc.len() && str_ends_with(k.as_str(), suf) {
            return true;
        }
        i = i + 1;
    }
    proof {
        assert(!redact_keys().contains(k@)) by {
            if redact_keys().contains(k@) {
                let j = choose|j: int| 0 <= j < redact_keys().len() && redact_keys()[j] == k@;
                assert(redact_keys()[j] != k@);
            }
        }
    }
    false
}

} // verus!

verus! {

// ------------------------------------------------------------------ bodies

/// A request body after redaction and capping.
#[derive(Clone, Debug)]
pub struct SanitizedBody {
    pub text: String,
    /// Length of the redacted text in bytes, before the cap.
    pub bytes: usize,
    pub truncated: bool,
    /// What was redacted, by JSON path (or `text` for a non-JSON body).
    pub redactions: Vec<String>,
}

// ------------------------------------------------------------------ header maps

/// Headers as plain values: (name, value) pairs in the order given.
pub open spec fn header_views(h: Seq<(String, String)>) -> Seq<(Seq<char>, Seq<char>)> {
    Seq::new(h.len(), |i: int| (h[i].0@, h[i].1@))
}

pub open spec fn names(h: Seq<(Seq<char>, Seq<char>)>) -> Seq<Seq<char>> {
    Seq::new(h.len(), |i: int| h[i].0)
}

/// The value a list of pairs holds for a name: that of the last pair
/// with the name.
pub open spec fn lookup(h: Seq<(Seq<char>, Seq<char>)>, n: Seq<char>) -> Option<Seq<char>>
    decreases h.len(),
{
    if h.len() == 0 {
        None
    } else if h.last().0 == n {
        Some(h.last().1)
    } else {
        lookup(h.drop_last(), n)
    }
}

/// Value cap on a kept header, in bytes.
pub const HEADER_VALUE_CAP: usize = 256;

/// What survives of the headers: by lowercased name, the last value given
/// for the name, capped; auth-shaped names never.
pub open spec fn kept_headers(h: Seq<(Seq<char>, Seq<char>)>) -> Map<Seq<char>, Seq<char>>
    decreases h.len(),
{
    if h.len() == 0 {
        Map::empty()
    } else {
        let m = kept_headers(h.drop_last());
        let n = ascii_lower(h.last().0);
        if header_dropped(n) {
            m
        } else {
            m.insert(n, capped(h.last().1, HEADER_VALUE_CAP as nat))
        }
    }
}

/// The lowercased names that were dropped, in the order given.
pub open spec fn dropped_headers(h: Seq<(Seq<char>, Seq<char>)>) -> Seq<Seq<char>>
    decreases h.len(),
{
    if h.len() == 0 {
        Seq::empty()
    } else {
        let d = dropped_headers(h.drop_last());
        let n = ascii_lower(h.last().0);
        if header_dropped(n) {
            d.push(n)
        } else {
            d
        }
    }
}

proof fn lemma_lookup_at(h: Seq<(Seq<char>, Seq<char>)>, n: Seq<char>, at: int)
    requires
        strictly_sorted_views(names(h)),
        0 <= at < h.len(),
        h[at].0 == n,
    ensures
        lookup(h, n) == Some(h[at].1),
    decreases h.len(),
{
    if at < h.len() - 1 {
        let t = h.drop_last();
        assert(names(h)[at] != names(h)[h.len() - 1]);
        assert forall|a: int, b: int| 0 <= a < b < names(t).len() implies lex_le(
            #[trigger] names(t)[a],
            #[trigger] names(t)[b],
        ) && names(t)[a] != names(t)[b] by {
            assert(names(t)[a] == names(h)[a] && names(t)[b] == names(h)[b]);
        }
        assert(t[at] == h[at]);
        lemma_lookup_at(t, n, at);
    }
}

proof fn lemma_lookup_none(h: Seq<(Seq<char>, Seq<char>)>, n: Seq<char>)
    requires
        forall|i: int| 0 <= i < h.len() ==> #[trigger] h[i].0 != n,
    ensures
        lookup(h, n) is None,
    decreases h.len(),
{
    if h.len() > 0 {
        let t = h.drop_last();
        assert forall|i: int| 0 <= i < t.len() implies #[trigger] t[i].0 != n by {
            assert(t[i] == h[i]);
        }
        lemma_lookup_none(t, n);
    }
}

/// Puts `(name, val)` into a list strictly sorted by name, replacing the
/// value of an equal name.
pub(crate) fn put_sorted(kept: &mut Vec<(String, String)>, name: String, val: String)
    requires
        strictly_sorted_views(names(header_views(old(kept)@))),
    ensures
        strictly_sorted_views(names(header_views(final(kept)@))),
        forall|n: Seq<char>|
            #[trigger] lookup(header_views(final(kept)@), n) == if n == name@ {
                Some(val@)
            } else {
                lookup(header_views(old(kept)@), n)
            },
{
    let ghost h0 = header_views(kept@);
    let mut j: usize = 0;
    while j < kept.len() && !str_le(name.as_str(), kept[j].0.as_str())
        invariant
            j <= kept.len(),
            h0 == header_views(kept@),
            forall|i: int| 0 <= i < j ==> lex_le(#[trigger] h0[i].0, name@) && h0[i].0 != name@,
        decreases kept.len() - j,
    {
        proof {
            lemma_lex_le_total(name@, h0[j as int].0);
        }
        j = j + 1;
    }
    proof {
        // Everything from j on is at or above the name.
        assert forall|i: int| j <= i < h0.len() implies lex_le(name@, #[trigger] h0[i].0) by {
            assert(lex_le(name@, h0[j as int].0));
            if i > j {
                assert(lex_le(names(h0)[j as int], names(h0)[i]));
                lemma_lex_le_transitive(name@, h0[j as int].0, h0[i].0);
            }
        }
    }
    if j < kept.len() && str_eq(name.as_str(), kept[j].0.as_str()) {
        kept.set(j, (name, val));
        proof {
            let h1 = header_views(kept@);
            assert(names(h1) =~= names(h0));
            assert forall|n: Seq<char>|
                #[trigger] lookup(h1, n) == if n == name@ {
                    Some(val@)
                } else {
                    lookup(h0, n)
                } by {
                if n == name@ {
                    lemma_lookup_at(h1, n, j as int);
                } else if exists|i: int| 0 <= i < h0.len() && #[trigger] h0[i].0 == n {
                    let i = choose|i: int| 0 <= i < h0.len() && #[trigger] h0[i].0 == n;
                    lemma_lookup_at(h0, n, i);
                    assert(i != j);
                    assert(h1[i] == h0[i]);
                    lemma_lookup_at(h1, n, i);
                } else {
                    assert forall|i: int| 0 <= i < h1.len() implies #[trigger] h1[i].0 != n by {
                        if i != j {
                            assert(h1[i] == h0[i]);
                        }
                    }
                    lemma_lookup_none(h0, n);
                    lemma_lookup_none(h1, n);
                }
            }
        }
    } else {
        proof {
            if j < h0.len() {
                assert(h0[j as int].0 != name@);
            }
        }
        kept.insert(j, (name, val));
        proof {
            let h1 = header_views(kept@);
            assert(h1 =~= h0.insert(j as int, (name@, val@)));
            assert forall|a: int, b: int|
                0 <= a < b < names(h1).len() implies lex_le(
                #[trigger] names(h1)[a],
                #[trigger] names(h1)[b],
            ) && names(h1)[a] != names(h1)[b] by {
                if b < j {
                    assert(names(h0)[a] == names(h1)[a] && names(h0)[b] == names(h1)[b]);
                } else if b == j {
                    assert(names(h1)[a] == h0[a].0);
                } else if a == j {
                    assert(names(h1)[b] == h0[b - 1].0);
                    if b - 1 > j {
                        assert(lex_le(names(h0)[j as int], names(h0)[b - 1]));
                        assert(names(h0)[j as int] != names(h0)[b - 1]);
                    }
                    assert(lex_le(name@, h0[b - 1].0));
                    if name@ == h0[b - 1].0 {
                        if b - 1 > j {
                            lemma_lex_le_antisymmetric(h0[j as int].0, h0[b - 1].0);
                        }
                    }
                } else if a < j {
                    assert(names(h1)[a] == h0[a].0);
                    assert(names(h1)[b] == h0[b - 1].0);
                    assert(lex_le(h0[a].0, name@));
                    assert(lex_le(name@, h0[b - 1].0));
                    lemma_lex_le_transitive(h0[a].0, name@, h0[b - 1].0);
                    if h0[a].0 == h0[b - 1].0 {
                        lemma_lex_le_antisymmetric(h0[a].0, name@);
                    }
                } else {
                    assert(names(h1)[a] == names(h0)[a - 1]);
                    assert(names(h1)[b] == names(h0)[b - 1]);
                }
            }
            assert forall|n: Seq<char>|
                #[trigger] lookup(h1, n) == if n == name@ {
                    Some(val@)
                } else {
                    lookup(h0, n)
                } by {
                if n == name@ {
                    lemma_lookup_at(h1, n, j as int);
                } else if exists|i: int| 0 <= i < h0.len() && #[trigger] h0[i].0 == n {
                    let i = choose|i: int| 0 <= i < h0.len() && #[trigger] h0[i].0 == n;
                    lemma_lookup_at(h0, n, i);
                    if i < j {
                        assert(h1[i] == h0[i]);
                        lemma_lookup_at(h1, n, i);
                    } else {
                        assert(h1[i + 1] == h0[i]);
                        lemma_lookup_at(h1, n, i + 1);
                    }
                } else {
                    assert forall|i: int| 0 <= i < h1.len() implies #[trigger] h1[i].0 != n by {
                        if i < j {
                            assert(h1[i] == h0[i]);
                        } else if i > j {
                            assert(h1[i] == h0[i - 1]);
                        }
                    }
                    lemma_lookup_none(h0, n);
                    lemma_lookup_none(h1, n);
                }
            }
        }
    }
}

/// Keeps only headers that are not auth-shaped and caps every value at
/// `HEADER_VALUE_CAP` bytes. Returns the kept headers (names lowercased,
/// sorted, one value per name: the last given) and the dropped names
/// (lowercased, sorted).
pub fn sanitize_headers(headers: &Vec<(String, String)>) -> (r: (Vec<(String, String)>, Vec<String>))
    ensures
        strictly_sorted_views(names(header_views(r.0@))),
        forall|n: Seq<char>|
            #[trigger] lookup(header_views(r.0@), n) == if kept_headers(
                header_views(headers@),
            ).contains_key(n) {
                Some(kept_headers(header_views(headers@))[n])
            } else {
                None
            },
        sorted_views(views(r.1@)),
        views(r.1@).to_multiset() == dropped_headers(header_views(headers@)).to_multiset(),
{
    let ghost hv = header_views(headers@);
    let mut kept: Vec<(String, String)> = Vec::new();
    let mut dropped: Vec<String> = Vec::new();
    let mut i: usize = 0;
    while i < headers.len()
        invariant
            hv == header_views(headers@),
            i <= headers.len(),
            strictly_sorted_views(names(header_views(kept@))),
            forall|n: Seq<char>|
                #[trigger] lookup(header_views(kept@), n) == if kept_headers(
                    hv.take(i as int),
                ).contains_key(n) {
                    Some(kept_headers(hv.take(i as int))[n])
                } else {
                    None
                },
            views(dropped@) == dropped_headers(hv.take(i as int)),
        decreases headers.len() - i,
    {
        let name = to_ascii_lower(headers[i].0.as_str());
        proof {
            assert(hv.take(i + 1).drop_last() =~= hv.take(i as int));
            assert(hv.take(i + 1).last() == hv[i as int]);
        }
        if header_is_dropped(name.as_str()) {
            dropped.push(name);
            proof {
                assert(views(dropped@) =~= dropped_headers(hv.take(i + 1)));
            }
        } else {
            let val = cap_str(headers[i].1.as_str(), HEADER_VALUE_CAP);
            put_sorted(&mut kept, name, val);
        }
        i = i + 1;
    }
    proof {
        assert(hv.take(headers.len() as int) =~= hv);
    }
    let sorted = sort_strings(dropped);
    (kept, sorted)
}

} // verus!
