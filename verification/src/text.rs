//! Byte-level text helpers shared by the parsers and the index.
//!
//! Every `&str` is looked at through its UTF-8 encoding (`spec_bytes`). The
//! patterns the log parsers look for are ASCII, so positions found in the
//! bytes always fall on character boundaries; the lemmas here prove it.
use vstd::prelude::*;
use vstd::utf8::*;
use vstd::string::StringSliceAdditionalSpecFns;

verus! {

broadcast use vstd::utf8::encode_utf8_valid_utf8;

/// `needle` occurs in `hay` starting at byte `pos`.
pub open spec fn occurs_at(hay: Seq<u8>, needle: Seq<u8>, pos: int) -> bool {
    0 <= pos && pos + needle.len() <= hay.len() && hay.subrange(pos, pos + needle.len()) == needle
}

/// First position at or after `from` where `needle` occurs in `hay`.
pub open spec fn find_from(hay: Seq<u8>, needle: Seq<u8>, from: int) -> Option<int>
    decreases hay.len() + 1 - from,
{
    if from < 0 || from + needle.len() > hay.len() {
        None
    } else if occurs_at(hay, needle, from) {
        Some(from)
    } else {
        find_from(hay, needle, from + 1)
    }
}

/// Position of the first occurrence of `needle` in `hay` (what `str::find` reports).
pub open spec fn first_occurrence(hay: Seq<u8>, needle: Seq<u8>) -> Option<int> {
    find_from(hay, needle, 0)
}

/// `needle` occurs somewhere in `hay`.
pub open spec fn contains_seq(hay: Seq<u8>, needle: Seq<u8>) -> bool {
    first_occurrence(hay, needle) is Some
}

pub proof fn lemma_find_from_sound(hay: Seq<u8>, needle: Seq<u8>, from: int)
    requires
        0 <= from,
    ensures
        find_from(hay, needle, from) matches Some(p) ==> from <= p && occurs_at(hay, needle, p)
            && forall|q: int| from <= q < p ==> !occurs_at(hay, needle, q),
        find_from(hay, needle, from) is None ==> forall|q: int| from <= q ==> !occurs_at(hay, needle, q),
    decreases hay.len() + 1 - from,
{
    if from + needle.len() > hay.len() {
    } else if occurs_at(hay, needle, from) {
    } else {
        lemma_find_from_sound(hay, needle, from + 1);
    }
}

/// Returns the index of the first occurrence of `needle` in `hay`.
pub fn find_bytes(hay: &[u8], needle: &[u8]) -> (r: Option<usize>)
    ensures
        r matches Some(p) ==> first_occurrence(hay@, needle@) == Some(p as int),
        r is None ==> first_occurrence(hay@, needle@) is None,
{
    if needle.len() > hay.len() {
        return None;
    }
    if needle.len() == 0 {
        assert(hay@.subrange(0, 0) =~= needle@);
        return Some(0);
    }
    let last = hay.len() - needle.len();
    let mut p: usize = 0;
    while p <= last
        invariant
            last == hay@.len() - needle@.len(),
            needle@.len() > 0,
            hay@.len() == hay.len(),
            p <= last + 1,
            find_from(hay@, needle@, 0) == find_from(hay@, needle@, p as int),
        decreases last + 1 - p,
    {
        let mut k: usize = 0;
        let mut same = true;
        while k < needle.len()
            invariant
                p <= last,
                last == hay@.len() - needle@.len(),
                needle@.len() > 0,
                hay@.len() == hay.len(),
                k <= needle@.len(),
                same <==> forall|j: int| 0 <= j < k ==> hay@[p + j] == needle@[j],
            decreases needle@.len() - k,
        {
            if hay[p + k] != needle[k] {
                same = false;
            }
            k += 1;
        }
        if same {
            assert(hay@.subrange(p as int, p + needle@.len()) =~= needle@);
            return Some(p);
        }
        assert(!occurs_at(hay@, needle@, p as int)) by {
            let j = choose|j: int| 0 <= j < k && hay@[p + j] != needle@[j];
            if hay@.subrange(p as int, p + needle@.len()) == needle@ {
                assert(hay@.subrange(p as int, p + needle@.len())[j] == hay@[p + j]);
            }
        }
        p += 1;
    }
    None
}

/// ASCII lower-casing of one byte (what `u8::to_ascii_lowercase` does).
pub open spec fn ascii_lower(b: u8) -> u8 {
    if 65 <= b <= 90 {
        (b + 32) as u8
    } else {
        b
    }
}

/// `needle` occurs in `hay` at `pos` when bytes are compared ignoring ASCII case.
pub open spec fn occurs_at_ci(hay: Seq<u8>, needle: Seq<u8>, pos: int) -> bool {
    &&& 0 <= pos
    &&& pos + needle.len() <= hay.len()
    &&& forall|j: int| 0 <= j < needle.len() ==> ascii_lower(#[trigger] hay[pos + j]) == ascii_lower(needle[j])
}

/// Some window of `hay` equals `needle` ignoring ASCII case.
pub open spec fn contains_ci(hay: Seq<u8>, needle: Seq<u8>) -> bool {
    exists|pos: int| occurs_at_ci(hay, needle, pos)
}

/// Case-insensitive ASCII substring check over bytes.
pub fn contains_ascii_ci_bytes(hay: &[u8], needle: &[u8]) -> (r: bool)
    ensures
        r == contains_ci(hay@, needle@),
{
    if needle.len() > hay.len() {
        assert forall|pos: int| !occurs_at_ci(hay@, needle@, pos) by {}
        return false;
    }
    let last = hay.len() - needle.len();
    let mut p: usize = 0;
    while p <= last
        invariant
            last == hay@.len() - needle@.len(),
            hay@.len() == hay.len(),
            needle@.len() <= hay@.len(),
            p <= last + 1,
            forall|q: int| 0 <= q < p ==> !occurs_at_ci(hay@, needle@, q),
        decreases last + 1 - p,
    {
        let mut k: usize = 0;
        let mut same = true;
        while k < needle.len()
            invariant
                p <= last,
                last == hay@.len() - needle@.len(),
                hay@.len() == hay.len(),
                k <= needle@.len(),
                same <==> forall|j: int| 0 <= j < k ==> ascii_lower(#[trigger] hay@[p + j]) == ascii_lower(needle@[j]),
            decreases needle@.len() - k,
        {
            if !eq_ignore_ascii_case(hay[p + k], needle[k]) {
                same = false;
            }
            k += 1;
        }
        if same {
            assert(occurs_at_ci(hay@, needle@, p as int));
            return true;
        }
        if p == last {
            assert forall|pos: int| !occurs_at_ci(hay@, needle@, pos) by {
                if 0 <= pos && pos < p {
                } else if pos == p {
                    let j = choose|j: int| 0 <= j < k && ascii_lower(#[trigger] hay@[p + j]) != ascii_lower(needle@[j]);
                }
            }
            return false;
        }
        assert(!occurs_at_ci(hay@, needle@, p as int)) by {
            let j = choose|j: int| 0 <= j < k && ascii_lower(#[trigger] hay@[p + j]) != ascii_lower(needle@[j]);
        }
        p += 1;
    }
    false
}

/// Byte equality ignoring ASCII case (`u8::eq_ignore_ascii_case`).
pub fn eq_ignore_ascii_case(a: u8, b: u8) -> (r: bool)
    ensures
        r == (ascii_lower(a) == ascii_lower(b)),
{
    let la = if 65 <= a && a <= 90 { a + 32 } else { a };
    let lb = if 65 <= b && b <= 90 { b + 32 } else { b };
    la == lb
}

/// Byte-wise equality of two slices.
pub fn bytes_eq(a: &[u8], b: &[u8]) -> (r: bool)
    ensures
        r == (a@ == b@),
{
    if a.len() != b.len() {
        return false;
    }
    let mut i: usize = 0;
    while i < a.len()
        invariant
            a@.len() == b@.len(),
            i <= a@.len(),
            forall|j: int| 0 <= j < i ==> a@[j] == b@[j],
        decreases a@.len() - i,
    {
        if a[i] != b[i] {
            return false;
        }
        i += 1;
    }
    assert(a@ =~= b@);
    true
}

/// A byte position right before or right after an ASCII byte of valid UTF-8 text
/// is a character boundary.
pub proof fn lemma_ascii_boundaries(bytes: Seq<u8>, i: int)
    requires
        valid_utf8(bytes),
        0 <= i < bytes.len(),
        bytes[i] < 0x80,
    ensures
        is_char_boundary(bytes, i),
        is_char_boundary(bytes, i + 1),
    decreases bytes.len(),
{
    is_char_boundary_iff_not_is_continuation_byte(bytes, i);
    lemma_boundary_after_ascii(bytes, i);
}

proof fn lemma_boundary_after_ascii(bytes: Seq<u8>, i: int)
    requires
        valid_utf8(bytes),
        0 <= i < bytes.len(),
        bytes[i] < 0x80,
        is_char_boundary(bytes, i),
    ensures
        is_char_boundary(bytes, i + 1),
    decreases bytes.len(),
{
    let rest = pop_first_scalar(bytes);
    let len = length_of_first_scalar(bytes);
    if i == 0 {
        assert(len == 1);
        assert(is_char_boundary(rest, 0));
    } else {
        assert(len <= i);
        assert(rest[i - len] == bytes[i]);
        lemma_boundary_after_ascii(rest, i - len);
    }
}

/// Splitting valid UTF-8 at a boundary keeps later boundaries as boundaries of the tail.
pub proof fn lemma_boundary_in_tail(bytes: Seq<u8>, a: int, b: int)
    requires
        valid_utf8(bytes),
        0 <= a <= b <= bytes.len(),
        is_char_boundary(bytes, a),
        is_char_boundary(bytes, b),
    ensures
        valid_utf8(bytes.subrange(a, bytes.len() as int)),
        is_char_boundary(bytes.subrange(a, bytes.len() as int), b - a),
{
    let tail = bytes.subrange(a, bytes.len() as int);
    valid_utf8_split(bytes, a);
    if b == bytes.len() {
        is_char_boundary_start_end_of_seq(tail);
    } else {
        is_char_boundary_iff_not_is_continuation_byte(bytes, b);
        is_char_boundary_iff_not_is_continuation_byte(tail, b - a);
    }
}

/// The text between two character boundaries of `s`, as an owned `String`.
pub fn substring(s: &str, a: usize, b: usize) -> (r: String)
    requires
        a <= b <= s.spec_bytes().len(),
        is_char_boundary(s.spec_bytes(), a as int),
        is_char_boundary(s.spec_bytes(), b as int),
    ensures
        r@ == decode_utf8(s.spec_bytes().subrange(a as int, b as int)),
        encode_utf8(r@) == s.spec_bytes().subrange(a as int, b as int),
{
    proof {
        lemma_boundary_in_tail(s.spec_bytes(), a as int, b as int);
    }
    let (_, rest) = s.split_at(a);
    proof {
        assert(rest.spec_bytes() =~= s.spec_bytes().subrange(a as int, s.spec_bytes().len() as int));
    }
    let (mid, _) = rest.split_at(b - a);
    proof {
        assert(mid.spec_bytes() =~= s.spec_bytes().subrange(a as int, b as int));
        encode_utf8_decode_utf8(mid@);
    }
    mid.to_owned()
}

/// UTF-8 encoding distributes over concatenation.
pub proof fn lemma_encode_concat(a: Seq<char>, b: Seq<char>)
    ensures
        encode_utf8(a + b) == encode_utf8(a) + encode_utf8(b),
    decreases a.len(),
{
    if a.len() == 0 {
        assert(a + b =~= b);
        assert(encode_utf8(a) + encode_utf8(b) =~= encode_utf8(b));
    } else {
        assert((a + b).drop_first() =~= a.drop_first() + b);
        lemma_encode_concat(a.drop_first(), b);
        assert((a + b)[0] == a[0]);
        assert(encode_utf8(a + b) =~= encode_scalar(a[0] as u32) + encode_utf8(a.drop_first() + b));
        assert(encode_utf8(a) =~= encode_scalar(a[0] as u32) + encode_utf8(a.drop_first()));
    }
}

/// Lexicographic byte order from index `i` on (how `str` and `String` compare).
pub open spec fn lex_lt_from(a: Seq<u8>, b: Seq<u8>, i: int) -> bool
    decreases a.len() - i,
{
    if i < 0 {
        false
    } else if i >= a.len() {
        i < b.len()
    } else if i >= b.len() {
        false
    } else if a[i] != b[i] {
        a[i] < b[i]
    } else {
        lex_lt_from(a, b, i + 1)
    }
}

/// `a` sorts before `b` in lexicographic byte order.
pub open spec fn lex_lt(a: Seq<u8>, b: Seq<u8>) -> bool {
    lex_lt_from(a, b, 0)
}

proof fn lemma_lex_irreflexive(a: Seq<u8>, i: int)
    requires
        0 <= i,
    ensures
        !lex_lt_from(a, a, i),
    decreases a.len() - i,
{
    if i < a.len() {
        lemma_lex_irreflexive(a, i + 1);
    }
}

/// Lexicographic byte order is a strict weak order (indeed total).
pub proof fn lemma_lex_order(a: Seq<u8>, b: Seq<u8>, c: Seq<u8>, i: int)
    requires
        0 <= i,
    ensures
        !lex_lt_from(a, a, i),
        lex_lt_from(a, b, i) && lex_lt_from(b, c, i) ==> lex_lt_from(a, c, i),
        !lex_lt_from(a, b, i) && !lex_lt_from(b, c, i) ==> !lex_lt_from(a, c, i),
    decreases a.len() - i,
{
    lemma_lex_irreflexive(a, i);
    if i < a.len() && i < b.len() && i < c.len() && a[i] == b[i] && b[i] == c[i] {
        lemma_lex_order(a, b, c, i + 1);
    }
}

/// Compares two byte strings lexicographically.
pub fn bytes_lt(a: &[u8], b: &[u8]) -> (r: bool)
    ensures
        r == lex_lt(a@, b@),
{
    let mut i: usize = 0;
    while i < a.len() && i < b.len()
        invariant
            i <= a@.len(),
            i <= b@.len(),
            lex_lt(a@, b@) == lex_lt_from(a@, b@, i as int),
        decreases a@.len() - i,
    {
        if a[i] != b[i] {
            return a[i] < b[i];
        }
        i += 1;
    }
    i < b.len() && i >= a.len()
}

} // verus!
