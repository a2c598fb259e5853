//! Character-level string helpers shared by every module.

use vstd::prelude::*;

verus! {

/// The characters of `s`, in order.
pub fn chars_of(s: &str) -> (v: Vec<char>)
    ensures
        v@ == s@,
{
    let mut v: Vec<char> = Vec::new();
    for c in it: s.chars()
        invariant
            v@ == it.seq().take(it.index() as int),
            it.seq() == s@,
    {
        v.push(c);
    }
    v
}

/// Appends one character (`String::push`).
#[verifier::external_body]
pub(crate) fn push_char(s: &mut String, c: char)
    ensures
        final(s)@ == old(s)@.push(c),
{
    s.push(c);
}

/// The string made of `cs`.
pub fn string_of(cs: &[char]) -> (s: String)
    ensures
        s@ == cs@,
{
    let mut s = String::new();
    let mut i: usize = 0;
    while i < cs.len()
        invariant
            i <= cs.len(),
            s@ == cs@.take(i as int),
        decreases cs.len() - i,
    {
        push_char(&mut s, cs[i]);
        i = i + 1;
        assert(s@ == cs@.take(i as int));
    }
    assert(cs@.take(cs.len() as int) == cs@);
    s
}

/// Character-wise equality of two string slices.
pub fn str_eq(a: &str, b: &str) -> (r: bool)
    ensures
        r == (a@ == b@),
{
    a.to_owned() == b.to_owned()
}

} // verus!

verus! {

// ------------------------------------------------------------------ decimal

/// The ASCII digit for `d` (0..=9).
pub open spec fn digit_char(d: nat) -> char {
    ((48 + d) as u8) as char
}

/// The decimal text of `n`, most significant digit first, no leading zeros.
pub open spec fn decimal(n: nat) -> Seq<char>
    decreases n,
{
    if n < 10 {
        seq![digit_char(n)]
    } else {
        decimal(n / 10).push(digit_char(n % 10))
    }
}

/// Decimal rendering of an unsigned integer.
pub fn u64_decimal(n: u64) -> (s: String)
    ensures
        s@ == decimal(n as nat),
    decreases n,
{
    let d: u8 = (n % 10) as u8;
    let c: char = (48u8 + d) as char;
    if n < 10 {
        let mut s = String::new();
        push_char(&mut s, c);
        assert(s@ == seq![digit_char(n as nat)]);
        s
    } else {
        let mut s = u64_decimal(n / 10);
        push_char(&mut s, c);
        s
    }
}

/// `a` followed by `b`.
pub fn cat(a: &str, b: &str) -> (s: String)
    ensures
        s@ == a@ + b@,
{
    let mut s = a.to_owned();
    s.append(b);
    s
}

// ------------------------------------------------------------------ order

/// Lexicographic order on character sequences, by code point. UTF-8
/// preserves code-point order, so this is the order of `str`'s `Ord`.
pub open spec fn lex_le(a: Seq<char>, b: Seq<char>) -> bool
    decreases a.len(),
{
    if a.len() == 0 {
        true
    } else if b.len() == 0 {
        false
    } else if a[0] == b[0] {
        lex_le(a.drop_first(), b.drop_first())
    } else {
        (a[0] as int) < (b[0] as int)
    }
}

pub proof fn lemma_lex_le_reflexive(a: Seq<char>)
    ensures
        lex_le(a, a),
    decreases a.len(),
{
    if a.len() > 0 {
        lemma_lex_le_reflexive(a.drop_first());
    }
}

pub proof fn lemma_lex_le_antisymmetric(a: Seq<char>, b: Seq<char>)
    requires
        lex_le(a, b),
        lex_le(b, a),
    ensures
        a == b,
    decreases a.len(),
{
    if a.len() > 0 && b.len() > 0 {
        if a[0] == b[0] {
            lemma_lex_le_antisymmetric(a.drop_first(), b.drop_first());
            assert(a =~= seq![a[0]] + a.drop_first());
            assert(b =~= seq![b[0]] + b.drop_first());
        } else {
            assert((a[0] as int) != (b[0] as int));
        }
    } else {
        assert(a.len() == 0 && b.len() == 0);
        assert(a =~= b);
    }
}

pub proof fn lemma_lex_le_transitive(a: Seq<char>, b: Seq<char>, c: Seq<char>)
    requires
        lex_le(a, b),
        lex_le(b, c),
    ensures
        lex_le(a, c),
    decreases a.len(),
{
    if a.len() > 0 && b.len() > 0 && c.len() > 0 {
        if a[0] == b[0] && b[0] == c[0] {
            lemma_lex_le_transitive(a.drop_first(), b.drop_first(), c.drop_first());
        }
    }
}

pub proof fn lemma_lex_le_total(a: Seq<char>, b: Seq<char>)
    ensures
        lex_le(a, b) || lex_le(b, a),
    decreases a.len(),
{
    if a.len() > 0 && b.len() > 0 && a[0] == b[0] {
        lemma_lex_le_total(a.drop_first(), b.drop_first());
    }
}

pub proof fn lemma_lex_le_total_ordering()
    ensures
        vstd::relations::total_ordering(|a: Seq<char>, b: Seq<char>| lex_le(a, b)),
{
    assert forall|a: Seq<char>| #[trigger] lex_le(a, a) by {
        lemma_lex_le_reflexive(a);
    }
    assert forall|a: Seq<char>, b: Seq<char>| #[trigger] lex_le(a, b) && #[trigger] lex_le(b, a)
        implies a == b by {
        lemma_lex_le_antisymmetric(a, b);
    }
    assert forall|a: Seq<char>, b: Seq<char>, c: Seq<char>|
        #[trigger] lex_le(a, b) && #[trigger] lex_le(b, c) implies lex_le(a, c) by {
        lemma_lex_le_transitive(a, b, c);
    }
    assert forall|a: Seq<char>, b: Seq<char>| #[trigger] lex_le(a, b) || #[trigger] lex_le(b, a) by {
        lemma_lex_le_total(a, b);
    }
}

/// Lexicographic comparison of two strings.
pub fn str_le(a: &str, b: &str) -> (r: bool)
    ensures
        r == lex_le(a@, b@),
{
    let x = chars_of(a);
    let y = chars_of(b);
    let mut i: usize = 0;
    assert(a@.skip(0) =~= a@);
    assert(b@.skip(0) =~= b@);
    while i < x.len() && i < y.len() && x[i] == y[i]
        invariant
            x@ == a@,
            y@ == b@,
            i <= x.len(),
            i <= y.len(),
            forall|k: int| 0 <= k < i ==> x@[k] == y@[k],
            lex_le(a@, b@) == lex_le(a@.skip(i as int), b@.skip(i as int)),
        decreases x.len() - i,
    {
        assert(a@.skip(i as int).drop_first() =~= a@.skip(i + 1));
        assert(b@.skip(i as int).drop_first() =~= b@.skip(i + 1));
        i = i + 1;
    }
    if i == x.len() {
        true
    } else if i == y.len() {
        false
    } else {
        x[i] < y[i]
    }
}

// ------------------------------------------------------------------ sorted string lists

/// The character views of a list of strings.
pub open spec fn views(s: Seq<String>) -> Seq<Seq<char>> {
    s.map_values(|x: String| x@)
}

pub open spec fn sorted_views(s: Seq<Seq<char>>) -> bool {
    forall|i: int, j: int| 0 <= i < j < s.len() ==> lex_le(#[trigger] s[i], #[trigger] s[j])
}

pub open spec fn strictly_sorted_views(s: Seq<Seq<char>>) -> bool {
    forall|i: int, j: int| 0 <= i < j < s.len() ==> lex_le(#[trigger] s[i], #[trigger] s[j]) && s[i] != s[j]
}

} // verus!

verus! {

broadcast use vstd::seq_lib::group_to_multiset_ensures;

proof fn lemma_views_remove(s: Seq<String>, i: int)
    requires
        0 <= i < s.len(),
    ensures
        views(s.remove(i)) == views(s).remove(i),
{
    assert(views(s.remove(i)) =~= views(s).remove(i));
}

proof fn lemma_views_push(s: Seq<String>, x: String)
    ensures
        views(s.push(x)) == views(s).push(x@),
{
    assert(views(s.push(x)) =~= views(s).push(x@));
}

/// Sorts strings into lexicographic order (the order of `String`'s `Ord`).
pub fn sort_strings(v: Vec<String>) -> (r: Vec<String>)
    ensures
        r.len() == v.len(),
        sorted_views(views(r@)),
        views(r@).to_multiset() == views(v@).to_multiset(),
{
    let mut work = v;
    let mut out: Vec<String> = Vec::new();
    proof {
        assert(views(out@) =~= Seq::<Seq<char>>::empty());
    }
    while work.len() > 0
        invariant
            views(out@).to_multiset().add(views(work@).to_multiset()) == views(v@).to_multiset(),
            out.len() + work.len() == v.len(),
            sorted_views(views(out@)),
            forall|i: int, j: int|
                0 <= i < out.len() && 0 <= j < work.len() ==> lex_le(
                    #[trigger] out@[i]@,
                    #[trigger] work@[j]@,
                ),
        decreases work.len(),
    {
        let mut m: usize = 0;
        let mut k: usize = 1;
        proof {
            lemma_lex_le_reflexive(work@[0]@);
        }
        while k < work.len()
            invariant
                0 <= m < work.len(),
                m < k <= work.len(),
                forall|j: int| 0 <= j < k ==> lex_le(work@[m as int]@, #[trigger] work@[j]@),
            decreases work.len() - k,
        {
            proof {
                lemma_lex_le_reflexive(work@[m as int]@);
            }
            if !str_le(work[m].as_str(), work[k].as_str()) {
                proof {
                    lemma_lex_le_total(work@[m as int]@, work@[k as int]@);
                    assert forall|j: int| 0 <= j <= k implies lex_le(
                        work@[k as int]@,
                        #[trigger] work@[j]@,
                    ) by {
                        if j < k {
                            lemma_lex_le_transitive(work@[k as int]@, work@[m as int]@, work@[j]@);
                        } else {
                            lemma_lex_le_reflexive(work@[k as int]@);
                        }
                    }
                }
                m = k;
            }
            k = k + 1;
        }
        proof {
            lemma_lex_le_reflexive(work@[m as int]@);
        }
        let ghost old_work = work@;
        let ghost old_out = out@;
        let x = work.remove(m);
        proof {
            lemma_views_remove(old_work, m as int);
            lemma_views_push(old_out, x);
            assert(views(old_work)[m as int] == x@);
            vstd::multiset::lemma_insert_len(views(old_out).to_multiset(), x@);
        }
        out.push(x);
        proof {
            assert(views(out@) == views(old_out).push(x@));
            assert(views(work@) == views(old_work).remove(m as int));
            assert(views(out@).to_multiset() =~= views(old_out).to_multiset().insert(x@));
            assert(views(work@).to_multiset() =~= views(old_work).to_multiset().remove(x@));
            assert(views(out@).to_multiset().add(views(work@).to_multiset()) =~= views(
                old_out,
            ).to_multiset().add(views(old_work).to_multiset()));
            assert forall|i: int, j: int|
                0 <= i < out.len() && 0 <= j < work.len() implies lex_le(
                #[trigger] out@[i]@,
                #[trigger] work@[j]@,
            ) by {
                let jj = if j < m { j } else { j + 1 };
                assert(work@[j] == old_work[jj]);
                if i < out.len() - 1 {
                    assert(out@[i] == old_out[i]);
                } else {
                    assert(out@[i] == x);
                }
            }
            assert forall|i: int, j: int| 0 <= i < j < out.len() implies lex_le(
                #[trigger] views(out@)[i],
                #[trigger] views(out@)[j],
            ) by {
                if j < out.len() - 1 {
                    assert(views(out@)[i] == views(old_out)[i]);
                    assert(views(out@)[j] == views(old_out)[j]);
                } else {
                    assert(views(out@)[i] == old_out[i]@);
                }
            }
        }
    }
    proof {
        assert(views(work@) =~= Seq::<Seq<char>>::empty());
        assert(views(out@).to_multiset().add(views(work@).to_multiset()) =~= views(
            out@,
        ).to_multiset());
    }
    out
}

/// Removes adjacent duplicates from a sorted list, leaving it strictly sorted.
pub fn dedup_sorted(v: Vec<String>) -> (r: Vec<String>)
    requires
        sorted_views(views(v@)),
    ensures
        strictly_sorted_views(views(r@)),
        views(r@).to_set() == views(v@).to_set(),
{
    let mut out: Vec<String> = Vec::new();
    let mut i: usize = 0;
    proof {
        assert(views(out@) =~= views(v@.take(0)));
    }
    while i < v.len()
        invariant
            i <= v.len(),
            sorted_views(views(v@)),
            strictly_sorted_views(views(out@)),
            views(out@).to_set() == views(v@.take(i as int)).to_set(),
            i > 0 ==> out.len() > 0 && out@[out.len() - 1]@ == v@[i - 1]@,
            i == 0 ==> out.len() == 0,
            forall|k: int| 0 <= k < out.len() ==> exists|j: int| 0 <= j < i && #[trigger] out@[k]@ == v@[j]@,
        decreases v.len() - i,
    {
        let ghost old_out = out@;
        let keep = out.len() == 0 || !(out[out.len() - 1] == v[i]);
        if keep {
            out.push(v[i].clone());
        }
        proof {
            assert(v@.take(i + 1) == v@.take(i as int).push(v@[i as int]));
            assert(views(v@.take(i + 1)) =~= views(v@.take(i as int)).push(v@[i as int]@));
            views(v@.take(i as int)).lemma_push_to_set_commute(v@[i as int]@);
            if keep {
                views(old_out).lemma_push_to_set_commute(v@[i as int]@);
                assert(out@[out.len() - 1]@ == v@[i as int]@);
                assert forall|k: int| 0 <= k < out.len() implies exists|j: int|
                    0 <= j < i + 1 && #[trigger] out@[k]@ == v@[j]@ by {
                    if k < out.len() - 1 {
                        assert(out@[k] == old_out[k]);
                    } else {
                        assert(out@[k]@ == v@[i as int]@);
                    }
                }
                assert(views(out@) =~= views(old_out).push(v@[i as int]@));
                assert forall|a: int, b: int| 0 <= a < b < out.len() implies lex_le(
                    #[trigger] views(out@)[a],
                    #[trigger] views(out@)[b],
                ) && views(out@)[a] != views(out@)[b] by {
                    if b < out.len() - 1 {
                        assert(views(out@)[a] == views(old_out)[a]);
                        assert(views(out@)[b] == views(old_out)[b]);
                    } else {
                        let j = choose|j: int| 0 <= j < i && #[trigger] old_out[a]@ == v@[j]@;
                        assert(views(v@)[j] == v@[j]@);
                        assert(views(v@)[i as int] == v@[i as int]@);
                        assert(lex_le(v@[j]@, v@[i as int]@));
                        if i > 0 {
                            let last = old_out.len() - 1;
                            if a < last {
                                assert(lex_le(views(old_out)[a], views(old_out)[last]));
                                assert(views(old_out)[a] != views(old_out)[last]);
                                assert(views(v@)[i - 1] == v@[i - 1]@);
                                assert(lex_le(v@[i - 1]@, v@[i as int]@));
                                lemma_lex_le_transitive(old_out[a]@, old_out[last]@, v@[i as int]@);
                                if old_out[a]@ == v@[i as int]@ {
                                    lemma_lex_le_antisymmetric(old_out[a]@, old_out[last]@);
                                }
                            } else {
                                assert(old_out[a]@ == v@[i - 1]@);
                            }
                        }
                    }
                }
            } else {
                assert(out@ == old_out);
                assert(views(v@.take(i + 1)).to_set() =~= views(v@.take(i as int)).to_set().insert(
                    v@[i as int]@,
                ));
                assert(views(out@)[out.len() - 1] == v@[i as int]@);
                assert(views(out@).to_set().contains(v@[i as int]@));
                assert(views(out@).to_set() =~= views(out@).to_set().insert(v@[i as int]@));
            }
        }
        i = i + 1;
    }
    proof {
        assert(v@.take(v.len() as int) =~= v@);
    }
    out
}

/// Two strictly sorted lists with the same elements are the same list.
pub proof fn lemma_strictly_sorted_unique(a: Seq<Seq<char>>, b: Seq<Seq<char>>)
    requires
        strictly_sorted_views(a),
        strictly_sorted_views(b),
        a.to_set() == b.to_set(),
    ensures
        a == b,
    decreases a.len(),
{
    if a.len() == 0 {
        if b.len() > 0 {
            assert(b.to_set().contains(b[0]));
        }
        assert(a =~= b);
    } else {
        assert(a.to_set().contains(a[0]));
        assert(b.to_set().contains(a[0]));
        assert(b.len() > 0);
        assert(b.to_set().contains(b[0]));
        assert(a.to_set().contains(b[0]));
        let i = choose|i: int| 0 <= i < a.len() && a[i] == b[0];
        let j = choose|j: int| 0 <= j < b.len() && b[j] == a[0];
        if i > 0 {
            assert(lex_le(a[0], a[i]));
        } else {
            lemma_lex_le_reflexive(a[0]);
        }
        if j > 0 {
            assert(lex_le(b[0], b[j]));
        } else {
            lemma_lex_le_reflexive(b[0]);
        }
        lemma_lex_le_antisymmetric(a[0], b[0]);
        let a1 = a.drop_first();
        let b1 = b.drop_first();
        assert forall|x: Seq<char>| a1.to_set().contains(x) <==> b1.to_set().contains(x) by {
            if a1.to_set().contains(x) {
                let k = choose|k: int| 0 <= k < a1.len() && a1[k] == x;
                assert(a[k + 1] == x);
                assert(a[0] != a[k + 1]);
                assert(b.to_set().contains(x));
                let l = choose|l: int| 0 <= l < b.len() && b[l] == x;
                assert(l != 0);
                assert(b1[l - 1] == x);
            }
            if b1.to_set().contains(x) {
                let k = choose|k: int| 0 <= k < b1.len() && b1[k] == x;
                assert(b[k + 1] == x);
                assert(b[0] != b[k + 1]);
                assert(a.to_set().contains(x));
                let l = choose|l: int| 0 <= l < a.len() && a[l] == x;
                assert(l != 0);
                assert(a1[l - 1] == x);
            }
        }
        assert(a1.to_set() =~= b1.to_set());
        lemma_strictly_sorted_unique(a1, b1);
        assert(a =~= seq![a[0]] + a1);
        assert(b =~= seq![b[0]] + b1);
    }
}

/// `char::is_whitespace`: the Unicode White_Space property.
pub uninterp spec fn whitespace(c: char) -> bool;

/// Is `c` whitespace (`char::is_whitespace`)? Named `whitespace`.
#[verifier::external_body]
pub(crate) fn is_ws(c: char) -> (b: bool)
    ensures
        b == whitespace(c),
{
    c.is_whitespace()
}

/// `s` without its leading white space.
pub open spec fn trim_start_ws(s: Seq<char>) -> Seq<char>
    decreases s.len(),
{
    if s.len() > 0 && whitespace(s[0]) {
        trim_start_ws(s.drop_first())
    } else {
        s
    }
}

/// `s` without its trailing white space.
pub open spec fn trim_end_ws(s: Seq<char>) -> Seq<char>
    decreases s.len(),
{
    if s.len() > 0 && whitespace(s.last()) {
        trim_end_ws(s.drop_last())
    } else {
        s
    }
}

/// Leading and trailing white space removed, as `str::trim` defines it
/// (white space being what `char::is_whitespace` says).
pub open spec fn trimmed(s: Seq<char>) -> Seq<char> {
    trim_end_ws(trim_start_ws(s))
}

/// The string without leading and trailing white space (`str::trim`).
pub fn trim(s: &str) -> (r: String)
    ensures
        r@ == trimmed(s@),
{
    let cs = chars_of(s);
    let n = cs.len();
    let mut a: usize = 0;
    assert(cs@.skip(0) =~= cs@);
    while a < n && is_ws(cs[a])
        invariant
            a <= n,
            n == cs@.len(),
            cs@ == s@,
            trim_start_ws(s@) == trim_start_ws(cs@.skip(a as int)),
        decreases n - a,
    {
        assert(cs@.skip(a as int).drop_first() =~= cs@.skip(a + 1));
        a = a + 1;
    }
    let ghost t = cs@.skip(a as int);
    assert(trim_start_ws(s@) == t);
    let mut b: usize = n;
    while b > a && is_ws(cs[b - 1])
        invariant
            a <= b <= n,
            n == cs@.len(),
            trim_end_ws(t) == trim_end_ws(cs@.subrange(a as int, b as int)),
            t == cs@.skip(a as int),
        decreases b - a,
    {
        assert(cs@.subrange(a as int, b as int).drop_last() =~= cs@.subrange(a as int, b - 1));
        b = b - 1;
    }
    proof {
        if a == n {
            assert(t =~= cs@.subrange(a as int, b as int));
        } else {
            assert(cs@.skip(a as int) =~= cs@.subrange(a as int, n as int));
        }
    }
    let mut r = String::new();
    let mut i: usize = a;
    while i < b
        invariant
            a <= i <= b <= n,
            n == cs@.len(),
            r@ == cs@.subrange(a as int, i as int),
        decreases b - i,
    {
        push_char(&mut r, cs[i]);
        assert(cs@.subrange(a as int, i + 1) =~= cs@.subrange(a as int, i as int).push(cs@[i as int]));
        i = i + 1;
    }
    r
}

} // verus!

verus! {

/// Element-wise equality of two string lists.
pub fn strings_eq(a: &Vec<String>, b: &Vec<String>) -> (r: bool)
    ensures
        r == (views(a@) == views(b@)),
{
    if a.len() != b.len() {
        proof {
            assert(views(a@).len() != views(b@).len());
        }
        return false;
    }
    let mut i: usize = 0;
    while i < a.len()
        invariant
            a.len() == b.len(),
            i <= a.len(),
            forall|k: int| 0 <= k < i ==> a@[k]@ == b@[k]@,
        decreases a.len() - i,
    {
        if !(a[i] == b[i]) {
            proof {
                assert(views(a@)[i as int] != views(b@)[i as int]);
            }
            return false;
        }
        i = i + 1;
    }
    proof {
        assert(views(a@) =~= views(b@));
    }
    true
}

/// `parts` joined by `sep`.
pub open spec fn join_seq(parts: Seq<Seq<char>>, sep: Seq<char>) -> Seq<char>
    decreases parts.len(),
{
    if parts.len() == 0 {
        Seq::empty()
    } else if parts.len() == 1 {
        parts[0]
    } else {
        join_seq(parts.drop_last(), sep) + sep + parts.last()
    }
}

/// Joining one more part adds the separator (unless it is the first part)
/// and the part.
pub proof fn lemma_join_push(parts: Seq<Seq<char>>, x: Seq<char>, sep: Seq<char>)
    ensures
        join_seq(parts.push(x), sep) == join_seq(parts, sep) + (if parts.len() == 0 {
            Seq::empty()
        } else {
            sep
        }) + x,
{
    if parts.len() == 0 {
        assert(join_seq(parts.push(x), sep) == parts.push(x)[0]);
        assert(join_seq(parts, sep) =~= Seq::<char>::empty());
        assert(Seq::<char>::empty() + Seq::<char>::empty() + x =~= x);
    } else {
        assert(parts.push(x).drop_last() =~= parts);
    }
}

/// Joins strings with a separator (`[String]::join`).
pub fn join(parts: &Vec<String>, sep: &str) -> (s: String)
    ensures
        s@ == join_seq(views(parts@), sep@),
{
    let mut s = String::new();
    let mut i: usize = 0;
    while i < parts.len()
        invariant
            i <= parts.len(),
            s@ == join_seq(views(parts@).take(i as int), sep@),
        decreases parts.len() - i,
    {
        proof {
            assert(views(parts@).take(i + 1).drop_last() =~= views(parts@).take(i as int));
            assert(views(parts@).take(i + 1).last() == parts@[i as int]@);
        }
        if i > 0 {
            s.append(sep);
        } else {
            assert(views(parts@).take(0) =~= Seq::<Seq<char>>::empty());
        }
        s.append(parts[i].as_str());
        i = i + 1;
    }
    proof {
        assert(views(parts@).take(parts.len() as int) =~= views(parts@));
    }
    s
}

/// What `format!("{:?}", list)` prints for a list of strings: Rust's
/// `Debug` quoting and escaping of each element, in brackets.
pub uninterp spec fn debug_strings(s: Seq<Seq<char>>) -> Seq<char>;

/// `Debug` text of a list of strings (`format!("{:?}")`).
#[verifier::external_body]
pub(crate) fn debug_list(v: &Vec<String>) -> (r: String)
    ensures
        r@ == debug_strings(views(v@)),
{
    format!("{:?}", v)
}

/// The lowercase hexadecimal digit for `d` (0..=15).
pub open spec fn hex_digit(d: nat) -> char {
    if d < 10 {
        ((48 + d) as u8) as char
    } else {
        ((87 + d) as u8) as char
    }
}

/// Lowercase hex digit of a nibble.
pub fn hex_char(d: u8) -> (c: char)
    requires
        d < 16,
    ensures
        c == hex_digit(d as nat),
{
    if d < 10 {
        (48u8 + d) as char
    } else {
        (87u8 + d) as char
    }
}

} // verus!

verus! {

/// Two sorted lists with the same elements (counting repeats) are the same list.
pub proof fn lemma_sorted_unique(a: Seq<Seq<char>>, b: Seq<Seq<char>>)
    requires
        sorted_views(a),
        sorted_views(b),
        a.to_multiset() == b.to_multiset(),
    ensures
        a == b,
    decreases a.len(),
{
    broadcast use vstd::seq_lib::group_to_multiset_ensures;

    if a.len() == 0 {
        assert(b.len() == 0);
        assert(a =~= b);
    } else {
        assert(a.to_multiset().len() == a.len());
        assert(b.to_multiset().len() == b.len());
        assert(b.len() == a.len());
        assert(a.to_multiset().count(a[0]) > 0);
        assert(b.contains(a[0]));
        assert(a.to_multiset().count(b[0]) > 0);
        assert(a.contains(b[0]));
        let i = choose|i: int| 0 <= i < a.len() && a[i] == b[0];
        let j = choose|j: int| 0 <= j < b.len() && b[j] == a[0];
        if i > 0 {
            assert(lex_le(a[0], a[i]));
        } else {
            lemma_lex_le_reflexive(a[0]);
        }
        if j > 0 {
            assert(lex_le(b[0], b[j]));
        } else {
            lemma_lex_le_reflexive(b[0]);
        }
        lemma_lex_le_antisymmetric(a[0], b[0]);
        assert(a.remove(0) =~= a.drop_first());
        assert(b.remove(0) =~= b.drop_first());
        assert(a.drop_first().to_multiset() =~= b.drop_first().to_multiset());
        lemma_sorted_unique(a.drop_first(), b.drop_first());
        assert(a =~= seq![a[0]] + a.drop_first());
        assert(b =~= seq![b[0]] + b.drop_first());
    }
}

/// The strictly sorted listing of a finite set of strings.
pub open spec fn listing(s: Set<Seq<char>>) -> Seq<Seq<char>> {
    choose|q: Seq<Seq<char>>| strictly_sorted_views(q) && q.to_set() == s
}

pub proof fn lemma_listing(q: Seq<Seq<char>>)
    requires
        strictly_sorted_views(q),
    ensures
        listing(q.to_set()) == q,
{
    let l = listing(q.to_set());
    assert(strictly_sorted_views(l) && l.to_set() == q.to_set());
    lemma_strictly_sorted_unique(l, q);
}

/// The list sorted, repeats kept.
pub open spec fn sorted_list(s: Seq<Seq<char>>) -> Seq<Seq<char>> {
    s.sort_by(|a: Seq<char>, b: Seq<char>| lex_le(a, b))
}

pub proof fn lemma_sorted_list(s: Seq<Seq<char>>, q: Seq<Seq<char>>)
    requires
        sorted_views(q),
        q.to_multiset() == s.to_multiset(),
    ensures
        sorted_list(s) == q,
{
    lemma_lex_le_total_ordering();
    s.lemma_sort_by_ensures(|a: Seq<char>, b: Seq<char>| lex_le(a, b));
    let l = sorted_list(s);
    assert forall|i: int, j: int| 0 <= i < j < l.len() implies lex_le(#[trigger] l[i], #[trigger] l[j]) by {
        assert((|a: Seq<char>, b: Seq<char>| lex_le(a, b))(l[i], l[j]));
    }
    lemma_sorted_unique(l, q);
}

} // verus!

verus! {

proof fn lemma_decimal_len(n: nat)
    ensures
        decimal(n).len() >= 1,
        n >= 10 ==> decimal(n).len() >= 2,
    decreases n,
{
    if n >= 10 {
        lemma_decimal_len(n / 10);
    }
}

/// Distinct numbers have distinct decimal renderings.
pub proof fn lemma_decimal_injective(a: nat, b: nat)
    requires
        decimal(a) == decimal(b),
    ensures
        a == b,
    decreases a,
{
    lemma_decimal_len(a);
    lemma_decimal_len(b);
    if a < 10 && b < 10 {
        assert(decimal(a) == seq![digit_char(a)]);
        assert(decimal(b) == seq![digit_char(b)]);
        assert(seq![digit_char(a)][0] == digit_char(a));
        assert(seq![digit_char(b)][0] == digit_char(b));
        assert(digit_char(a) == digit_char(b));
        assert(a == b);
    } else if a < 10 || b < 10 {
        assert(decimal(a).len() == decimal(b).len());
    } else {
        let da = decimal(a / 10);
        let db = decimal(b / 10);
        assert(decimal(a).drop_last() =~= da);
        assert(decimal(b).drop_last() =~= db);
        assert(decimal(a).last() == digit_char(a % 10));
        assert(decimal(b).last() == digit_char(b % 10));
        lemma_decimal_injective(a / 10, b / 10);
        assert(digit_char(a % 10) == digit_char(b % 10));
        assert(a % 10 == b % 10);
        assert(a == 10 * (a / 10) + a % 10);
        assert(b == 10 * (b / 10) + b % 10);
    }
}

} // verus!

verus! {

/// What `format!("{:?}", o)` prints for an optional string: `None`, or
/// `Some(..)` around the string's `Debug` quoting.
pub uninterp spec fn debug_option(o: Option<Seq<char>>) -> Seq<char>;

/// `Debug` text of an optional string (`format!("{:?}")`).
#[verifier::external_body]
pub(crate) fn debug_opt(o: &Option<String>) -> (r: String)
    ensures
        r@ == debug_option(
            match o {
                Some(s) => Some(s@),
                None => None,
            },
        ),
{
    format!("{:?}", o)
}

} // verus!
