//! Byte-level text handling shared by the message formats: searching for an
//! ASCII pattern, splitting on it, and cutting a `str` at byte offsets that
//! are proved to be character boundaries.
use vstd::prelude::*;
use vstd::utf8::*;
use vstd::string::*;

verus! {

broadcast use vstd::seq::group_seq_axioms;

/// `pat` occurs in `b` starting at byte offset `i`.
pub open spec fn matches_at(b: Seq<u8>, pat: Seq<u8>, i: int) -> bool {
    &&& 0 <= i
    &&& i + pat.len() <= b.len()
    &&& b.subrange(i, i + pat.len()) == pat
}

/// `pat` occurs somewhere in `b` (what `str::contains` answers).
pub open spec fn contains(b: Seq<u8>, pat: Seq<u8>) -> bool {
    exists|i: int| matches_at(b, pat, i)
}

/// The first offset at or after `from` where `pat` occurs in `b`, or -1.
pub open spec fn first_match_from(b: Seq<u8>, pat: Seq<u8>, from: int) -> int
    decreases b.len() - from,
{
    if from < 0 || from >= b.len() || from + pat.len() > b.len() {
        -1
    } else if matches_at(b, pat, from) {
        from
    } else {
        first_match_from(b, pat, from + 1)
    }
}

/// The pieces of `b[from..]` separated by the occurrences of `pat`, found
/// left to right (what `str::split` yields for a non-empty pattern).
pub open spec fn split_from(b: Seq<u8>, pat: Seq<u8>, from: int) -> Seq<Seq<u8>>
    decreases b.len() - from,
{
    let p = first_match_from(b, pat, from);
    if p < from || pat.len() == 0 || from < 0 || from > b.len() {
        seq![b.subrange(from, b.len() as int)]
    } else {
        proof {
            lemma_first_match(b, pat, from);
        }
        seq![b.subrange(from, p)] + split_from(b, pat, p + pat.len())
    }
}

/// The pieces of `b` separated by the occurrences of `pat`.
pub open spec fn split(b: Seq<u8>, pat: Seq<u8>) -> Seq<Seq<u8>> {
    split_from(b, pat, 0)
}

/// What `first_match_from` finds: the first occurrence at or after `from`.
pub proof fn lemma_first_match(b: Seq<u8>, pat: Seq<u8>, from: int)
    requires
        0 <= from,
        pat.len() > 0,
    ensures
        first_match_from(b, pat, from) >= 0 ==> {
            let p = first_match_from(b, pat, from);
            &&& from <= p
            &&& matches_at(b, pat, p)
            &&& forall|i: int| from <= i < p ==> !matches_at(b, pat, i)
        },
        first_match_from(b, pat, from) < 0 ==> forall|i: int|
            from <= i ==> !matches_at(b, pat, i),
    decreases b.len() - from,
{
    if from >= b.len() || from + pat.len() > b.len() {
    } else if matches_at(b, pat, from) {
    } else {
        lemma_first_match(b, pat, from + 1);
    }
}

/// The UTF-8 encoding of a concatenation is the concatenation of the encodings.
pub proof fn lemma_encode_utf8_concat(a: Seq<char>, b: Seq<char>)
    ensures
        encode_utf8(a + b) == encode_utf8(a) + encode_utf8(b),
    decreases a.len(),
{
    if a.len() == 0 {
        assert(a + b =~= b);
        assert(encode_utf8(a) =~= Seq::<u8>::empty());
        assert(encode_utf8(a) + encode_utf8(b) =~= encode_utf8(b));
    } else {
        assert((a + b).drop_first() =~= a.drop_first() + b);
        assert((a + b)[0] == a[0]);
        lemma_encode_utf8_concat(a.drop_first(), b);
        assert(encode_utf8(a + b) =~= encode_utf8(a) + encode_utf8(b));
    }
}

/// Searching `x + y` past `x` is searching `y`, shifted by `x.len()`.
pub proof fn lemma_first_match_shift(x: Seq<u8>, y: Seq<u8>, pat: Seq<u8>, j: int)
    requires
        0 <= j,
        pat.len() > 0,
    ensures
        first_match_from(x + y, pat, x.len() + j) == if first_match_from(y, pat, j) < 0 {
            -1
        } else {
            x.len() + first_match_from(y, pat, j)
        },
    decreases y.len() - j,
{
    let b = x + y;
    if j >= y.len() || j + pat.len() > y.len() {
    } else {
        assert(b.subrange(x.len() + j, x.len() + j + pat.len()) =~= y.subrange(j, j + pat.len()));
        if matches_at(y, pat, j) {
        } else {
            lemma_first_match_shift(x, y, pat, j + 1);
        }
    }
}

/// Splitting `x + y` from a point past `x` is splitting `y`.
pub proof fn lemma_split_shift(x: Seq<u8>, y: Seq<u8>, pat: Seq<u8>, j: int)
    requires
        0 <= j <= y.len(),
        pat.len() > 0,
    ensures
        split_from(x + y, pat, x.len() + j) == split_from(y, pat, j),
    decreases y.len() - j,
{
    let b = x + y;
    lemma_first_match_shift(x, y, pat, j);
    lemma_first_match(y, pat, j);
    let r = first_match_from(y, pat, j);
    if r < 0 {
        assert(b.subrange(x.len() + j, b.len() as int) =~= y.subrange(j, y.len() as int));
    } else {
        assert(b.subrange(x.len() + j, x.len() + r) =~= y.subrange(j, r));
        lemma_split_shift(x, y, pat, r + pat.len());
    }
}

/// When `pat` first occurs at `q` from `from` on, the first piece ends at `q`.
pub proof fn lemma_split_at_match(b: Seq<u8>, pat: Seq<u8>, from: int, q: int)
    requires
        0 <= from <= q,
        pat.len() > 0,
        matches_at(b, pat, q),
        forall|i: int| from <= i < q ==> !matches_at(b, pat, i),
    ensures
        split_from(b, pat, from) == seq![b.subrange(from, q)] + split_from(b, pat, q + pat.len()),
{
    lemma_first_match(b, pat, from);
}

/// When `pat` does not occur from `from` on, there is one piece left.
pub proof fn lemma_split_no_match(b: Seq<u8>, pat: Seq<u8>, from: int)
    requires
        0 <= from <= b.len(),
        pat.len() > 0,
        forall|i: int| from <= i ==> !matches_at(b, pat, i),
    ensures
        split_from(b, pat, from) == seq![b.subrange(from, b.len() as int)],
{
    lemma_first_match(b, pat, from);
}

/// Splitting `a`, a one-byte separator and `b` on that separator gives the
/// pieces of `a[from..]` followed by the pieces of `b`.
pub proof fn lemma_split_join_from(a: Seq<u8>, sep: u8, b: Seq<u8>, from: int)
    requires
        0 <= from <= a.len(),
    ensures
        split_from(a + seq![sep] + b, seq![sep], from) == split_from(a, seq![sep], from) + split(
            b,
            seq![sep],
        ),
    decreases a.len() - from,
{
    let pat = seq![sep];
    let x = a + pat;
    let c = x + b;
    assert forall|i: int| from <= i < a.len() implies matches_at(c, pat, i) == matches_at(
        a,
        pat,
        i,
    ) by {
        assert(c.subrange(i, i + 1) =~= a.subrange(i, i + 1));
    }
    lemma_first_match(a, pat, from);
    let p = first_match_from(a, pat, from);
    if p >= 0 {
        lemma_split_at_match(a, pat, from, p);
        lemma_split_at_match(c, pat, from, p);
        assert(c.subrange(from, p) =~= a.subrange(from, p));
        lemma_split_join_from(a, sep, b, p + 1);
        assert(split_from(c, pat, from) =~= split_from(a, pat, from) + split(b, pat));
    } else {
        assert(c.subrange(a.len() as int, a.len() as int + 1) =~= pat);
        lemma_split_at_match(c, pat, from, a.len() as int);
        lemma_split_no_match(a, pat, from);
        assert(c.subrange(from, a.len() as int) =~= a.subrange(from, a.len() as int));
        lemma_split_shift(x, b, pat, 0);
        assert(split_from(c, pat, from) =~= split_from(a, pat, from) + split(b, pat));
    }
}

/// `b[i]` is an ASCII byte.
pub open spec fn is_ascii_byte(x: u8) -> bool {
    x < 0x80
}

/// In valid UTF-8, an ASCII byte starts a character.
pub proof fn lemma_boundary_at_ascii(b: Seq<u8>, i: int)
    requires
        valid_utf8(b),
        0 <= i < b.len(),
        is_ascii_byte(b[i]),
    ensures
        is_char_boundary(b, i),
{
    is_char_boundary_iff_is_leading_byte(b, i);
}

/// In valid UTF-8, the byte after an ASCII byte starts a character (or is the end).
pub proof fn lemma_boundary_after_ascii(b: Seq<u8>, i: int)
    requires
        valid_utf8(b),
        0 <= i < b.len(),
        is_ascii_byte(b[i]),
    ensures
        is_char_boundary(b, i + 1),
{
    if i + 1 == b.len() {
        is_char_boundary_start_end_of_seq(b);
    } else {
        lemma_boundary_at_ascii(b, i);
        valid_utf8_split(b, i);
        let s = b.subrange(i, b.len() as int);
        assert(s[0] == b[i]);
        assert(valid_first_scalar(s));
        assert(length_of_first_scalar(s) == 1);
        let rest = pop_first_scalar(s);
        assert(valid_utf8(rest));
        assert(rest.len() > 0);
        assert(rest[0] == b[i + 1]);
        assert(valid_first_scalar(rest));
        assert(!is_continuation_byte(b[i + 1]));
        is_char_boundary_iff_not_is_continuation_byte(b, i + 1);
    }
}

/// A character boundary of `b` that lies inside `b[..c]` is one of the prefix too.
pub proof fn lemma_boundary_in_prefix(b: Seq<u8>, a: int, c: int)
    requires
        valid_utf8(b),
        0 <= a <= c <= b.len(),
        is_char_boundary(b, a),
        is_char_boundary(b, c),
    ensures
        valid_utf8(b.subrange(0, c)),
        is_char_boundary(b.subrange(0, c), a),
{
    valid_utf8_split(b, c);
    let pre = b.subrange(0, c);
    if a == c {
        is_char_boundary_start_end_of_seq(pre);
    } else {
        is_char_boundary_iff_not_is_continuation_byte(b, a);
        is_char_boundary_iff_not_is_continuation_byte(pre, a);
    }
}

/// Whether `pat` occurs in `b` at offset `i`.
pub fn matches_at_exec(b: &[u8], pat: &[u8], i: usize) -> (r: bool)
    ensures
        r == matches_at(b@, pat@, i as int),
{
    if i > b.len() || pat.len() > b.len() - i {
        return false;
    }
    let mut j: usize = 0;
    while j < pat.len()
        invariant
            i + pat@.len() <= b.len(),
            j <= pat@.len(),
            forall|k: int| 0 <= k < j ==> b@[i + k] == pat@[k],
        decreases pat@.len() - j,
    {
        if b[i + j] != pat[j] {
            assert(b@.subrange(i as int, i + pat@.len())[j as int] != pat@[j as int]);
            return false;
        }
        j += 1;
    }
    assert(b@.subrange(i as int, i + pat@.len()) =~= pat@);
    true
}

/// The first offset at or after `from` where `pat` occurs in `b`.
pub fn find_from(b: &[u8], pat: &[u8], from: usize) -> (r: Option<usize>)
    ensures
        match r {
            Some(p) => p as int == first_match_from(b@, pat@, from as int),
            None => first_match_from(b@, pat@, from as int) < 0,
        },
{
    let mut i = from;
    while i < b.len() && pat.len() <= b.len() - i
        invariant
            from <= i,
            first_match_from(b@, pat@, from as int) == first_match_from(b@, pat@, i as int),
        decreases b@.len() - i,
    {
        if matches_at_exec(b, pat, i) {
            return Some(i);
        }
        i += 1;
    }
    None
}

/// Whether `pat` occurs anywhere in `b`.
pub fn contains_bytes(b: &[u8], pat: &[u8]) -> (r: bool)
    requires
        pat@.len() > 0,
    ensures
        r == contains(b@, pat@),
{
    proof {
        lemma_first_match(b@, pat@, 0);
    }
    match find_from(b, pat, 0) {
        Some(_) => true,
        None => false,
    }
}

/// The part of `s` between byte offsets `a` and `c`, both character boundaries.
pub fn substr(s: &str, a: usize, c: usize) -> (r: &str)
    requires
        a <= c <= s.spec_bytes().len(),
        is_char_boundary(s.spec_bytes(), a as int),
        is_char_boundary(s.spec_bytes(), c as int),
    ensures
        r.spec_bytes() == s.spec_bytes().subrange(a as int, c as int),
{
    let ghost b = s.spec_bytes();
    proof {
        encode_utf8_valid_utf8(s@);
        lemma_boundary_in_prefix(b, a as int, c as int);
    }
    let (pre, _) = s.split_at(c);
    let (_, mid) = pre.split_at(a);
    assert(mid.spec_bytes() =~= b.subrange(a as int, c as int));
    mid
}

} // verus!
