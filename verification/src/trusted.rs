//! Contracts for the calls this library makes into other crates and into
//! parts of std that vstd does not describe. Verus takes each contract here
//! on trust; every doc comment says which function is called and what is
//! claimed of it.
use vstd::prelude::*;
use vstd::utf8::*;
use vstd::string::StringSliceAdditionalSpecFns;
use regex::Error as RegexError;
use notify::Error as NotifyError;

verus! {

// ---------------------------------------------------------------------------
// Types of other crates that stand in this library's signatures.
// ---------------------------------------------------------------------------

/// `regex::Error`, carried inside `Error::Regex`.
#[verifier::external_type_specification]
#[verifier::external_body]
pub struct ExRegexError(RegexError);

/// `notify::Error`, carried inside `Error::Watcher`.
#[verifier::external_type_specification]
#[verifier::external_body]
pub struct ExNotifyError(NotifyError);

/// `std::io::Error`, carried inside `Error::Io`.
#[verifier::external_type_specification]
#[verifier::external_body]
pub struct ExIoError(std::io::Error);

/// `std::path::PathBuf`, the path a log file was opened from.
#[verifier::external_type_specification]
#[verifier::external_body]
pub struct ExPathBuf(std::path::PathBuf);

/// `PathBuf::clone`, which copying a `LogFile` calls; nothing is claimed of
/// the copy.
pub assume_specification[ <std::path::PathBuf as std::clone::Clone>::clone ](p: &std::path::PathBuf) -> std::path::PathBuf;

// ---------------------------------------------------------------------------
// memchr
// ---------------------------------------------------------------------------

/// `memchr::memchr_iter(needle, haystack)`, collected. The crate documents the
/// iterator as yielding every position of `needle` in `haystack`, front to
/// back; the contract says exactly that: the positions are in range, hold the
/// needle, strictly increase, and none is missed.
#[verifier::external_body]
pub fn memchr_positions(needle: u8, haystack: &[u8]) -> (r: Vec<usize>)
    ensures
        forall|i: int| 0 <= i < r@.len() ==> #[trigger] r@[i] < haystack@.len() && haystack@[r@[i] as int] == needle,
        forall|i: int, j: int| 0 <= i < j < r@.len() ==> #[trigger] r@[i] < #[trigger] r@[j],
        forall|p: int| 0 <= p < haystack@.len() && #[trigger] haystack@[p] == needle
            ==> exists|i: int| 0 <= i < r@.len() && r@[i] == p,
{
    memchr::memchr_iter(needle, haystack).collect()
}

// ---------------------------------------------------------------------------
// std: text conversions that vstd does not describe
// ---------------------------------------------------------------------------

/// What `String::from_utf8_lossy` makes of a byte string.
pub uninterp spec fn utf8_lossy(bytes: Seq<u8>) -> Seq<char>;

/// `String::from_utf8_lossy(bytes).into_owned()`. The result is named by
/// `utf8_lossy`; std documents that valid UTF-8 is decoded unchanged, which is
/// the one fact stated. How invalid sequences are replaced is left unsaid.
#[verifier::external_body]
pub fn decode_lossy(bytes: &[u8]) -> (r: String)
    ensures
        r@ == utf8_lossy(bytes@),
        valid_utf8(bytes@) ==> r@ == decode_utf8(bytes@),
{
    String::from_utf8_lossy(bytes).into_owned()
}

/// What `str::to_uppercase` makes of a string.
pub uninterp spec fn uppercase(s: Seq<char>) -> Seq<char>;

/// ASCII upper-casing of one character: `a`..=`z` become `A`..=`Z`.
pub open spec fn ascii_upper(c: char) -> char {
    if 'a' <= c && c <= 'z' {
        ((c as u32) - 32) as char
    } else {
        c
    }
}

/// `str::to_uppercase`. Unicode case mapping takes pages to state, so the
/// result is named; the one fact stated is the plain one for ASCII text,
/// whose letters map to their ASCII capitals and nothing else changes.
#[verifier::external_body]
pub fn to_uppercase(s: &str) -> (r: String)
    ensures
        r@ == uppercase(s@),
        (forall|i: int| 0 <= i < s@.len() ==> (#[trigger] s@[i] as u32) < 128) ==> r@ == s@.map_values(
            |c: char| ascii_upper(c),
        ),
{
    s.to_uppercase()
}

/// The Unicode `White_Space` property, as `char::is_whitespace` documents it
/// (the 25 code points of the property list).
pub open spec fn is_unicode_whitespace(c: char) -> bool {
    ||| ('\u{9}' <= c && c <= '\u{d}')
    ||| c == ' '
    ||| c == '\u{85}'
    ||| c == '\u{a0}'
    ||| c == '\u{1680}'
    ||| ('\u{2000}' <= c && c <= '\u{200a}')
    ||| c == '\u{2028}'
    ||| c == '\u{2029}'
    ||| c == '\u{202f}'
    ||| c == '\u{205f}'
    ||| c == '\u{3000}'
}

/// Number of leading whitespace characters.
pub open spec fn leading_whitespace(s: Seq<char>) -> nat
    decreases s.len(),
{
    if s.len() > 0 && is_unicode_whitespace(s[0]) {
        1 + leading_whitespace(s.drop_first())
    } else {
        0
    }
}

/// Number of trailing whitespace characters.
pub open spec fn trailing_whitespace(s: Seq<char>) -> nat
    decreases s.len(),
{
    if s.len() > 0 && is_unicode_whitespace(s.last()) {
        1 + trailing_whitespace(s.drop_last())
    } else {
        0
    }
}

/// `s` without its leading whitespace.
pub open spec fn trim_start_chars(s: Seq<char>) -> Seq<char> {
    s.subrange(leading_whitespace(s) as int, s.len() as int)
}

/// `s` without leading and trailing whitespace.
pub open spec fn trim_chars(s: Seq<char>) -> Seq<char> {
    let t = trim_start_chars(s);
    t.subrange(0, t.len() - trailing_whitespace(t))
}

/// `str::trim_start`: std documents that it removes leading characters with
/// the Unicode `White_Space` property.
#[verifier::external_body]
pub fn trim_start(s: &str) -> (r: &str)
    ensures
        r@ == trim_start_chars(s@),
{
    s.trim_start()
}

/// `str::trim`: std documents that it removes leading and trailing
/// characters with the Unicode `White_Space` property.
#[verifier::external_body]
pub fn trim(s: &str) -> (r: &str)
    ensures
        r@ == trim_chars(s@),
{
    s.trim()
}

/// The decimal digits of `n`, most significant first, as `Display` prints them.
pub open spec fn decimal_chars(n: nat) -> Seq<char>
    decreases n,
{
    let digit = (('0' as u32) + (n % 10) as u32) as char;
    if n < 10 {
        seq![digit]
    } else {
        decimal_chars(n / 10).push(digit)
    }
}

/// `u64::to_string`, which prints the number in decimal without sign or padding.
#[verifier::external_body]
pub fn u64_to_string(n: u64) -> (r: String)
    ensures
        r@ == decimal_chars(n as nat),
{
    n.to_string()
}

// ---------------------------------------------------------------------------
// regex, on text
// ---------------------------------------------------------------------------

/// Whether `regex::Regex::new` accepts a pattern.
pub uninterp spec fn regex_is_valid(pattern: Seq<char>) -> bool;

/// `regex::Regex::new(pattern).is_ok()`.
#[verifier::external_body]
pub fn regex_compiles(pattern: &str) -> (r: bool)
    ensures
        r == regex_is_valid(pattern@),
{
    regex::Regex::new(pattern).is_ok()
}

/// What `Regex::is_match` answers for a pattern and a haystack.
pub uninterp spec fn regex_finds(pattern: Seq<char>, hay: Seq<char>) -> bool;

/// `regex::Regex::new(pattern)?.is_match(hay)`; the pattern is known to compile.
#[verifier::external_body]
pub fn regex_is_match(pattern: &str, hay: &str) -> (r: bool)
    requires
        regex_is_valid(pattern@),
    ensures
        r == regex_finds(pattern@, hay@),
{
    regex::Regex::new(pattern).unwrap().is_match(hay)
}

/// The capture groups (group 0 first) of the first match of a pattern, as
/// `Regex::captures` reports them.
pub uninterp spec fn regex_groups(pattern: Seq<char>, hay: Seq<char>) -> Option<Seq<Option<Seq<char>>>>;

/// `regex::Regex::new(pattern)` then `captures(hay)`, each group turned into
/// an owned string: `None` when the pattern does not compile, else the
/// captures (themselves `None` when nothing matches). One compile per call.
#[verifier::external_body]
pub fn regex_captures(pattern: &str, hay: &str) -> (r: Option<Option<Vec<Option<String>>>>)
    ensures
        r is None <==> !regex_is_valid(pattern@),
        r matches Some(g) ==> g.deep_view() == regex_groups(pattern@, hay@),
{
    let re = regex::Regex::new(pattern).ok()?;
    Some(re.captures(hay).map(|c| c.iter().map(|g| g.map(|m| m.as_str().to_string())).collect()))
}

// ---------------------------------------------------------------------------
// regex, on bytes
// ---------------------------------------------------------------------------

/// Whether `regex::bytes::Regex::new` accepts a pattern.
pub uninterp spec fn byte_regex_is_valid(pattern: Seq<char>) -> bool;

/// `regex::bytes::Regex::new(pattern)`, keeping only its error.
#[verifier::external_body]
pub fn byte_regex_check(pattern: &str) -> (r: Result<(), regex::Error>)
    ensures
        r is Ok <==> byte_regex_is_valid(pattern@),
{
    regex::bytes::Regex::new(pattern).map(|_| ())
}

/// The `(start, length)` of each match that `bytes::Regex::find_iter` yields.
pub uninterp spec fn byte_regex_matches(pattern: Seq<char>, hay: Seq<u8>) -> Seq<(usize, usize)>;

/// `regex::bytes::Regex::new(pattern)?.find_iter(hay)`, each match as
/// `(start, len)`; the pattern is known to compile. Besides the name, the
/// contract states what the crate documents of every match: it lies inside
/// the haystack, and the matches are successive and do not overlap.
#[verifier::external_body]
pub fn byte_regex_find_iter(pattern: &str, hay: &[u8]) -> (r: Vec<(usize, usize)>)
    requires
        byte_regex_is_valid(pattern@),
    ensures
        r@ == byte_regex_matches(pattern@, hay@),
        forall|i: int| 0 <= i < r@.len() ==> #[trigger] r@[i].0 + r@[i].1 <= hay@.len(),
        forall|i: int, j: int| 0 <= i < j < r@.len() ==> #[trigger] r@[i].0 + r@[i].1 <= #[trigger] r@[j].0,
{
    let re = regex::bytes::Regex::new(pattern).unwrap();
    re.find_iter(hay).map(|m| (m.start(), m.len())).collect()
}

// ---------------------------------------------------------------------------
// aho-corasick
// ---------------------------------------------------------------------------

/// The single pattern `pat` occurs in `hay` at `pos`, comparing bytes exactly
/// or ignoring ASCII case.
pub open spec fn literal_at(hay: Seq<u8>, pat: Seq<u8>, ascii_ci: bool, pos: int) -> bool {
    &&& 0 <= pos
    &&& pos + pat.len() <= hay.len()
    &&& forall|j: int| 0 <= j < pat.len() ==> if ascii_ci {
        crate::text::ascii_lower(#[trigger] hay[pos + j]) == crate::text::ascii_lower(pat[j])
    } else {
        hay[pos + j] == pat[j]
    }
}

/// First position at or after `from` where the pattern occurs.
pub open spec fn literal_next(hay: Seq<u8>, pat: Seq<u8>, ascii_ci: bool, from: int) -> Option<int>
    decreases hay.len() + 1 - from,
{
    if from < 0 || from + pat.len() > hay.len() {
        None
    } else if literal_at(hay, pat, ascii_ci, from) {
        Some(from)
    } else {
        literal_next(hay, pat, ascii_ci, from + 1)
    }
}

/// Leftmost non-overlapping occurrences of one pattern from `from` on, each as
/// `(start, length)`; after an empty match the scan moves on by one byte.
pub open spec fn literal_scan(pat: Seq<u8>, ascii_ci: bool, hay: Seq<u8>, from: int) -> Seq<(usize, usize)>
    decreases hay.len() + 1 - from,
    when from >= 0
{
    match literal_next(hay, pat, ascii_ci, from) {
        None => seq![],
        Some(q) => {
            let step = if pat.len() == 0 { 1 } else { pat.len() as int };
            if from <= q && q + step <= hay.len() + 1 {
                seq![(q as usize, pat.len() as usize)] + literal_scan(pat, ascii_ci, hay, q + step)
            } else {
                seq![]
            }
        },
    }
}

/// An automaton built by `AhoCorasickBuilder` from the single pattern
/// `pattern` (ASCII case folded when `ascii_case_insensitive`), with
/// leftmost-first semantics, then `find_iter(hay)`, each match as
/// `(start, len)`. For one pattern, leftmost-first non-overlapping search is
/// the left-to-right scan `literal_scan`; the crate's iterator steps one byte
/// past an empty match, as `literal_scan` does. `build` only fails when an
/// index of the automaton (states, trie transitions, pattern length) passes
/// `i32::MAX - 1`; a single pattern of `L` bytes makes about `L` states and at
/// most `2 L` trie transitions (two per byte when ASCII case is folded) plus a
/// few dense tables near the start, so the bound on `L` keeps them all below it.
/// The DFA and contiguous forms it tries first fall back on overflow.
#[verifier::external_body]
pub fn literal_find_iter(pattern: &str, ascii_case_insensitive: bool, hay: &[u8]) -> (r: Vec<(usize, usize)>)
    requires
        pattern.spec_bytes().len() < 0x3ff0_0000,
    ensures
        r@ == literal_scan(pattern.spec_bytes(), ascii_case_insensitive, hay@, 0),
{
    let ac = aho_corasick::AhoCorasickBuilder::new()
        .ascii_case_insensitive(ascii_case_insensitive)
        .match_kind(aho_corasick::MatchKind::LeftmostFirst)
        .build([pattern])
        .unwrap();
    ac.find_iter(hay).map(|m| (m.start(), m.len())).collect()
}

// ---------------------------------------------------------------------------
// serde_json
// ---------------------------------------------------------------------------

/// The entries of the JSON object that `serde_json::from_str` reads from a
/// text, each key with its value when the value is a JSON string; `None` when
/// the text is not a JSON object.
pub uninterp spec fn json_object_entries(text: Seq<char>) -> Option<Seq<(Seq<char>, Option<Seq<char>>)>>;

/// `serde_json::from_str::<Value>(text)`, then `Value::as_object`, each entry
/// turned into its key and `Value::as_str` of its value. Only named.
#[verifier::external_body]
pub fn json_object_fields(text: &str) -> (r: Option<Vec<(String, Option<String>)>>)
    ensures
        r.deep_view() == json_object_entries(text@),
{
    let value: serde_json::Value = serde_json::from_str(text).ok()?;
    let obj = value.as_object()?;
    Some(obj.iter().map(|(k, v)| (k.clone(), v.as_str().map(|s| s.to_string()))).collect())
}

} // verus!
