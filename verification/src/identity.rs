//! Identity of log lines: masking variable parts of a message so that lines
//! that differ only in ids, numbers, currencies or timestamps share one
//! pattern, and digests of patterns and results.

use vstd::prelude::*;
use vstd::utf8::encode_utf8;
use sha2::{Digest, Sha256};
use crate::text::{chars_of, string_of, cat, hex_char, hex_digit, push_char};

verus! {

// ------------------------------------------------------------------ digests

/// The SHA-256 digest of a byte string.
pub uninterp spec fn sha256_of(bytes: Seq<u8>) -> Seq<u8>;

/// SHA-256 of `bytes` (`sha2::Sha256::digest`); the digest is 32 bytes.
#[verifier::external_body]
fn sha256(bytes: &[u8]) -> (d: Vec<u8>)
    ensures
        d@ == sha256_of(bytes@),
        d@.len() == 32,
{
    Sha256::digest(bytes).to_vec()
}

/// Lowercase hexadecimal text of a byte string, two digits per byte.
pub open spec fn hex_of(b: Seq<u8>) -> Seq<char>
    decreases b.len(),
{
    if b.len() == 0 {
        Seq::empty()
    } else {
        hex_of(b.drop_last()) + seq![
            hex_digit((b.last() / 16) as nat),
            hex_digit((b.last() % 16) as nat),
        ]
    }
}

pub proof fn lemma_hex_len(b: Seq<u8>)
    ensures
        hex_of(b).len() == 2 * b.len(),
    decreases b.len(),
{
    if b.len() > 0 {
        lemma_hex_len(b.drop_last());
    }
}

/// Lowercase hex of `b`.
pub fn hex(b: &[u8]) -> (s: String)
    ensures
        s@ == hex_of(b@),
{
    let mut s = String::new();
    let mut i: usize = 0;
    while i < b.len()
        invariant
            i <= b.len(),
            s@ == hex_of(b@.take(i as int)),
        decreases b.len() - i,
    {
        let x = b[i];
        push_char(&mut s, hex_char(x / 16));
        push_char(&mut s, hex_char(x % 16));
        proof {
            assert(b@.take(i + 1).drop_last() =~= b@.take(i as int));
            assert(b@.take(i + 1).last() == x);
            assert(s@ =~= hex_of(b@.take(i + 1)));
        }
        i = i + 1;
    }
    proof {
        assert(b@.take(b.len() as int) =~= b@);
    }
    s
}

/// Lowercase hex of the SHA-256 digest of `bytes`.
pub fn sha256_hex(bytes: &[u8]) -> (s: String)
    ensures
        s@ == hex_of(sha256_of(bytes@)),
        s@.len() == 64,
{
    let d = sha256(bytes);
    proof {
        lemma_hex_len(d@);
    }
    hex(d.as_slice())
}

/// The template id of a masked pattern: `T-` and the first twelve hex
/// digits of the SHA-256 of its UTF-8 bytes.
pub open spec fn template_id_of(pattern: Seq<char>) -> Seq<char> {
    "T-"@ + hex_of(sha256_of(encode_utf8(pattern))).take(12)
}

pub fn template_id(pattern: &str) -> (s: String)
    ensures
        s@ == template_id_of(pattern@),
{
    let h = sha256_hex(pattern.as_bytes());
    let cs = chars_of(h.as_str());
    let head = string_of(&cs.as_slice()[0..12]);
    proof {
        assert(cs@.subrange(0, 12) =~= hex_of(sha256_of(encode_utf8(pattern@))).take(12));
    }
    cat("T-", head.as_str())
}

// ------------------------------------------------------------------ masking

/// `text` with every match of the regular expression `pattern` replaced
/// by the replacement `rep` (in `regex`'s replacement syntax, where `$`
/// names a capture group; the replacements used here hold no `$`).
pub uninterp spec fn regex_replaced(pattern: Seq<char>, text: Seq<char>, rep: Seq<char>) -> Seq<char>;

/// Compiles `pattern` (`regex::Regex::new`) and replaces every match in
/// `text` by the replacement `rep` (`Regex::replace_all`, which expands
/// `$` group references in `rep`); the result is named
/// `regex_replaced`. A pattern that does not compile leaves the text as it
/// is (the masks below all compile).
#[verifier::external_body]
pub(crate) fn regex_replace_all(pattern: &str, text: &str, rep: &str) -> (r: String)
    ensures
        r@ == regex_replaced(pattern@, text@, rep@),
{
    match regex::Regex::new(pattern) {
        Ok(re) => re.replace_all(text, rep).into_owned(),
        Err(_) => text.to_owned(),
    }
}

/// The masks, applied in this order, each replacing its matches by `<*>`:
/// UUIDs, ISO timestamps, hex runs of eight or more, prefixed hex ids,
/// numbers, three-letter upper-case codes (currencies).
pub open spec fn mask_patterns() -> Seq<Seq<char>> {
    seq![
        r"[0-9a-fA-F]{8}-[0-9a-fA-F]{4}-[0-9a-fA-F]{4}-[0-9a-fA-F]{4}-[0-9a-fA-F]{12}"@,
        r"\d{4}-\d{2}-\d{2}T[\d:.]+Z?"@,
        r"\b[0-9a-f]{8,}\b"@,
        r"\b[A-Za-z]+_[0-9a-f]{8,}\b"@,
        r"\b\d+(\.\d+)?\b"@,
        r"\b[A-Z]{3}\b"@,
    ]
}

fn mask_pattern_at(i: usize) -> (p: &'static str)
    requires
        i < 6,
    ensures
        p@ == mask_patterns()[i as int],
{
    match i {
        0 => r"[0-9a-fA-F]{8}-[0-9a-fA-F]{4}-[0-9a-fA-F]{4}-[0-9a-fA-F]{4}-[0-9a-fA-F]{12}",
        1 => r"\d{4}-\d{2}-\d{2}T[\d:.]+Z?",
        2 => r"\b[0-9a-f]{8,}\b",
        3 => r"\b[A-Za-z]+_[0-9a-f]{8,}\b",
        4 => r"\b\d+(\.\d+)?\b",
        _ => r"\b[A-Z]{3}\b",
    }
}

/// `msg` after the first `k` masks.
pub open spec fn masked_upto(msg: Seq<char>, k: nat) -> Seq<char>
    decreases k,
{
    if k == 0 {
        msg
    } else {
        regex_replaced(mask_patterns()[k - 1], masked_upto(msg, (k - 1) as nat), "<*>"@)
    }
}

/// `msg` with all six masks applied.
pub open spec fn masked(msg: Seq<char>) -> Seq<char> {
    masked_upto(msg, 6)
}

/// Replaces the variable parts of a log message with `<*>` so that lines
/// differing only in ids, numbers, currencies or timestamps share one
/// pattern.
pub fn mask(msg: &str) -> (s: String)
    ensures
        s@ == masked(msg@),
{
    let mut s = msg.to_owned();
    let mut i: usize = 0;
    while i < 6
        invariant
            i <= 6,
            s@ == masked_upto(msg@, i as nat),
        decreases 6 - i,
    {
        s = regex_replace_all(mask_pattern_at(i), s.as_str(), "<*>");
        i = i + 1;
    }
    s
}

} // verus!
