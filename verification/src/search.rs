//! Search over an indexed log file.
//!
//! Literal patterns go through an Aho-Corasick automaton, regex patterns
//! through the `regex` crate's byte engine. The file is cut into chunks of
//! whole lines, about a mebibyte each; each chunk is searched on its own,
//! in order, and each hit is translated into its line by walking the offset
//! table. At most `max_results` hits are kept, and they are returned ordered
//! by line and by position within the line.
use vstd::prelude::*;
use vstd::utf8::*;
use vstd::string::StringExecFns;
use crate::error::Error;
use crate::index::{as_ints, valid_table, LogFile};
use crate::sort::{less_by, lemma_stable_sort_sorted, stable_sort, stable_sort_by_key, views, KeyOrder, Ordered};
use crate::trusted::{
    byte_regex_check, byte_regex_find_iter, byte_regex_is_valid, byte_regex_matches, literal_at,
    literal_find_iter, literal_next, literal_scan,
};

verus! {

/// User-supplied search parameters.
pub struct SearchOptions {
    pub pattern: String,
    pub case_sensitive: bool,
    /// Treat `pattern` as a regex. Defaults to literal substring search.
    pub regex: bool,
    /// Cap on returned matches. `None` means `DEFAULT_MAX_RESULTS`.
    pub max_results: Option<usize>,
}

/// Default cap on returned matches.
pub const DEFAULT_MAX_RESULTS: usize = 100_000;

/// Bytes per search chunk, roughly: a chunk ends at the first line that
/// starts at least this far past its own start.
pub const TARGET_CHUNK_BYTES: u64 = 0x10_0000;

/// One match: its line, where that line starts, and where the match starts
/// and ends within the line.
#[derive(Debug, Clone)]
pub struct Match {
    pub line_number: u64,
    pub byte_offset: u64,
    pub match_start: u32,
    pub match_end: u32,
}

impl View for Match {
    type V = Match;

    open spec fn view(&self) -> Match {
        *self
    }
}

/// Matches are ordered by line, then by start within the line.
impl KeyOrder for Match {
    open spec fn key_lt(self, other: Self) -> bool {
        self.line_number < other.line_number || (self.line_number == other.line_number
            && self.match_start < other.match_start)
    }

    proof fn lemma_key_order(a: Self, b: Self, c: Self) {
    }
}

impl Ordered for Match {
    fn lt(&self, other: &Self) -> (r: bool) {
        self.line_number < other.line_number || (self.line_number == other.line_number
            && self.match_start < other.match_start)
    }
}

/// Stateless entry point for searching a file.
pub struct Searcher;

/// What is searched for: a literal (as bytes, optionally ignoring ASCII
/// case) or a regex pattern.
pub enum Needle {
    Literal { bytes: Seq<u8>, ascii_ci: bool },
    Regex { pattern: Seq<char> },
}

/// The raw hits in a haystack, each as `(start, length)`.
pub open spec fn needle_hits(needle: Needle, hay: Seq<u8>) -> Seq<(usize, usize)> {
    match needle {
        Needle::Literal { bytes, ascii_ci } => literal_scan(bytes, ascii_ci, hay, 0),
        Needle::Regex { pattern } => byte_regex_matches(pattern, hay),
    }
}

/// The regex actually compiled: the pattern, behind `(?i)` when the search
/// ignores case.
pub open spec fn regex_pattern(pattern: Seq<char>, case_sensitive: bool) -> Seq<char> {
    if case_sensitive {
        pattern
    } else {
        "(?i)"@ + pattern
    }
}

/// The needle that a set of options searches for.
pub open spec fn needle_of(opts: SearchOptions) -> Needle {
    if opts.regex {
        Needle::Regex { pattern: regex_pattern(opts.pattern@, opts.case_sensitive) }
    } else {
        Needle::Literal { bytes: encode_utf8(opts.pattern@), ascii_ci: !opts.case_sensitive }
    }
}

/// The cap on matches that a set of options asks for.
pub open spec fn limit_of(opts: SearchOptions) -> int {
    match opts.max_results {
        Some(n) => n as int,
        None => DEFAULT_MAX_RESULTS as int,
    }
}

/// The first index at or after `from` whose entry is at least `target`
/// (the length when there is none).
pub open spec fn first_at_least(t: Seq<int>, from: int, target: int) -> int
    decreases t.len() - from,
{
    if from < 0 || from >= t.len() {
        t.len() as int
    } else if t[from] >= target {
        from
    } else {
        first_at_least(t, from + 1, target)
    }
}

/// Where the chunk that starts at line `start` ends: the first line that
/// starts a chunk's worth of bytes further on, capped at the line count,
/// and at least one line on.
pub open spec fn chunk_end(t: Seq<int>, start: int) -> int {
    let total = t.len() - 1;
    let e = first_at_least(t, start, t[start] + TARGET_CHUNK_BYTES as int);
    let e = if e < total {
        e
    } else {
        total
    };
    if e == start {
        start + 1
    } else {
        e
    }
}

/// The line of byte `abs`, walking the table forward from line `c`: the last
/// entry at or after `c` that is at most `abs` (the closing entry counts).
pub open spec fn line_of(t: Seq<int>, c: int, abs: int) -> int
    decreases t.len() - c,
{
    if 0 <= c && c + 1 < t.len() && t[c + 1] <= abs {
        line_of(t, c + 1, abs)
    } else {
        c
    }
}

/// The match for a hit at byte `abs` of length `len`, in a chunk starting at
/// line `first`; the offset within the line is cut to 32 bits and the end
/// wraps around, as the integer types of `Match` do.
pub open spec fn to_match(t: Seq<int>, first: int, abs: int, len: u32) -> Match {
    let line = line_of(t, first, abs);
    let start = (abs - t[line]) as u32;
    Match {
        line_number: line as u64,
        byte_offset: t[line] as u64,
        match_start: start,
        match_end: vstd::wrapping::u32_specs::wrapping_add(start, len),
    }
}

/// A hit becomes a match whose end lies its length past its start (wrapping
/// at 2^32, as `u32` offsets do).
pub proof fn lemma_match_span(t: Seq<int>, first: int, abs: int, len: u32)
    ensures
        to_match(t, first, abs, len).match_end as int == (to_match(t, first, abs, len).match_start + len) % 0x1_0000_0000,
{
    let m = to_match(t, first, abs, len);
    assert(m.match_start + len < 0x2_0000_0000);
}

/// The hits of chunk `start..end`, translated into matches.
pub open spec fn chunk_matches(t: Seq<int>, b: Seq<u8>, needle: Needle, start: int, end: int) -> Seq<Match> {
    needle_hits(needle, b.subrange(t[start], t[end])).map_values(
        |h: (usize, usize)| to_match(t, start, t[start] + h.0, h.1 as u32),
    )
}

/// The matches of every chunk from line `start` on, chunk after chunk.
pub open spec fn matches_from(t: Seq<int>, b: Seq<u8>, needle: Needle, start: int) -> Seq<Match>
    decreases t.len() - start,
{
    if start < 0 || start >= t.len() - 1 {
        seq![]
    } else {
        let end = chunk_end(t, start);
        if end <= start {
            seq![]
        } else {
            chunk_matches(t, b, needle, start, end) + matches_from(t, b, needle, end)
        }
    }
}

/// The first `n` elements of `s` (all of them when there are fewer).
pub open spec fn first_n<T>(s: Seq<T>, n: int) -> Seq<T> {
    if n < s.len() {
        s.take(n)
    } else {
        s
    }
}

/// What a search returns: nothing for an empty file; else the first
/// `limit` matches, stably sorted by line and start.
pub open spec fn search_result(t: Seq<int>, b: Seq<u8>, needle: Needle, limit: int) -> Seq<Match> {
    if t.len() < 2 || t.last() == 0 {
        seq![]
    } else {
        stable_sort(first_n(matches_from(t, b, needle, 0), limit), false)
    }
}

/// A search returns at most `limit` matches, ordered by line and then by
/// start within the line, and they are exactly the first `limit` matches
/// found, re-ordered.
pub proof fn lemma_search_result_shape(t: Seq<int>, b: Seq<u8>, needle: Needle, limit: int)
    requires
        limit >= 0,
        t.len() >= 2,
        t.last() != 0,
    ensures
        search_result(t, b, needle, limit).len() <= limit,
        forall|i: int, j: int| 0 <= i < j < search_result(t, b, needle, limit).len() ==> {
            let (x, y) = (#[trigger] search_result(t, b, needle, limit)[i], #[trigger] search_result(t, b, needle, limit)[j]);
            x.line_number < y.line_number || (x.line_number == y.line_number && x.match_start <= y.match_start)
        },
        search_result(t, b, needle, limit).to_multiset() == first_n(matches_from(t, b, needle, 0), limit).to_multiset(),
{
    let kept = first_n(matches_from(t, b, needle, 0), limit);
    lemma_stable_sort_sorted(kept, false);
    crate::sort::lemma_stable_sort_permutes(kept, false, |m: Match| m);
    assert(kept.map_values(|m: Match| m) =~= kept);
    assert(stable_sort(kept, false).map_values(|m: Match| m) =~= stable_sort(kept, false));
    let r = search_result(t, b, needle, limit);
    assert forall|i: int, j: int| 0 <= i < j < r.len() implies {
        let (x, y) = (#[trigger] r[i], #[trigger] r[j]);
        x.line_number < y.line_number || (x.line_number == y.line_number && x.match_start <= y.match_start)
    } by {
        assert(!less_by(false, r[j], r[i]));
    }
}

/// A capped search keeps the matches found first: when more matches are
/// found than the limit, what is returned is, up to order, exactly the
/// first `limit` of them in the order the file is scanned; otherwise it is all
/// of them.
pub proof fn lemma_search_keeps_first_found(t: Seq<int>, b: Seq<u8>, needle: Needle, limit: int)
    requires
        limit >= 0,
        t.len() >= 2,
        t.last() != 0,
    ensures
        limit < matches_from(t, b, needle, 0).len() ==> search_result(t, b, needle, limit).to_multiset()
            == matches_from(t, b, needle, 0).subrange(0, limit).to_multiset(),
        limit >= matches_from(t, b, needle, 0).len() ==> search_result(t, b, needle, limit).to_multiset()
            == matches_from(t, b, needle, 0).to_multiset(),
{
    lemma_search_result_shape(t, b, needle, limit);
    let found = matches_from(t, b, needle, 0);
    if limit < found.len() {
        assert(found.take(limit) =~= found.subrange(0, limit));
    }
}

/// Where a match starts in the file: its line's start plus its offset.
pub open spec fn match_pos(m: Match) -> int {
    m.byte_offset + m.match_start
}

/// Each match of `ms` starts between `lo` and `hi`, on the line holding
/// that byte (walking the table from line 0), and the starts never go back.
spec fn placed(t: Seq<int>, ms: Seq<Match>, lo: int, hi: int) -> bool {
    &&& forall|i: int| 0 <= i < ms.len() ==> {
        &&& lo <= match_pos(#[trigger] ms[i]) <= hi
        &&& ms[i].line_number as int == line_of(t, 0, match_pos(ms[i]))
        &&& ms[i].byte_offset as int == t[ms[i].line_number as int]
    }
    &&& forall|i: int, j: int| 0 <= i < j < ms.len() ==> match_pos(#[trigger] ms[i]) <= match_pos(#[trigger] ms[j])
}

/// A strictly increasing table that starts at 0 has `t[i] >= i`.
proof fn lemma_table_grows(t: Seq<int>, i: int)
    requires
        0 <= i < t.len(),
        t[0] == 0,
        forall|a: int, b: int| 0 <= a < b < t.len() ==> #[trigger] t[a] < #[trigger] t[b],
    ensures
        t[i] >= i,
    decreases i,
{
    if i > 0 {
        lemma_table_grows(t, i - 1);
        assert(t[i - 1] < t[i]);
    }
}

/// Walking from an earlier line reaches the same line once every start in
/// between lies at or before the byte.
proof fn lemma_line_of_from_earlier(t: Seq<int>, c: int, s: int, a: int)
    requires
        0 <= c <= s < t.len(),
        forall|k: int| c < k <= s ==> #[trigger] t[k] <= a,
    ensures
        line_of(t, c, a) == line_of(t, s, a),
    decreases s - c,
{
    if c < s {
        lemma_line_of_from_earlier(t, c + 1, s, a);
    }
}

proof fn lemma_first_at_least_ge(t: Seq<int>, from: int, target: int)
    requires
        0 <= from <= t.len(),
    ensures
        from <= first_at_least(t, from, target) <= t.len(),
    decreases t.len() - from,
{
    if from < t.len() && t[from] < target {
        lemma_first_at_least_ge(t, from + 1, target);
    }
}

/// The matches of one chunk of a literal search are placed within the chunk.
proof fn lemma_chunk_placed(t: Seq<int>, b: Seq<u8>, pattern: Seq<u8>, ascii_ci: bool, s: int, e: int)
    requires
        valid_table(b, t),
        b.len() <= usize::MAX,
        pattern.len() <= usize::MAX,
        forall|i: int| 0 <= i < t.len() - 1 ==> #[trigger] t[i + 1] - t[i] < 0x1_0000_0000,
        0 <= s < e < t.len(),
    ensures
        placed(t, chunk_matches(t, b, Needle::Literal { bytes: pattern, ascii_ci }, s, e), t[s], t[e]),
{
    crate::index::lemma_table_bounds(b, t);
    let chunk = b.subrange(t[s], t[e]);
    let hits = literal_scan(pattern, ascii_ci, chunk, 0);
    lemma_literal_scan(pattern, ascii_ci, chunk, 0);
    let ms = chunk_matches(t, b, Needle::Literal { bytes: pattern, ascii_ci }, s, e);
    assert(t[s] < t[e]);
    lemma_table_grows(t, t.len() - 1);
    assert forall|i: int| 0 <= i < ms.len() implies {
        &&& t[s] <= match_pos(#[trigger] ms[i]) <= t[e]
        &&& ms[i].line_number as int == line_of(t, 0, match_pos(ms[i]))
        &&& ms[i].byte_offset as int == t[ms[i].line_number as int]
        &&& match_pos(ms[i]) == t[s] + hits[i].0
    } by {
        let abs = t[s] + hits[i].0;
        assert(0 <= hits[i].0 <= chunk.len());
        lemma_line_of_bounds(t, s, abs);
        let l = line_of(t, s, abs);
        assert forall|k: int| 0 < k <= s implies #[trigger] t[k] <= abs by {
            if k < s {
                assert(t[k] < t[s]);
            }
        }
        lemma_line_of_from_earlier(t, 0, s, abs);
        if l + 1 < t.len() {
            assert(t[l + 1] - t[l] < 0x1_0000_0000);
        } else {
            assert(t[l] == b.len());
        }
        assert(0 <= abs - t[l] < 0x1_0000_0000);
        assert(l <= t.len() - 1);
        assert(ms[i] == to_match(t, s, abs, hits[i].1 as u32));
    }
    assert forall|i: int, j: int| 0 <= i < j < ms.len() implies match_pos(#[trigger] ms[i]) <= match_pos(#[trigger] ms[j]) by {
        assert(hits[i].0 < hits[j].0);
    }
}

/// The matches of a literal search from line `s` on are placed between the
/// start of line `s` and the end of the file.
proof fn lemma_matches_placed(t: Seq<int>, b: Seq<u8>, pattern: Seq<u8>, ascii_ci: bool, s: int)
    requires
        valid_table(b, t),
        b.len() <= usize::MAX,
        pattern.len() <= usize::MAX,
        forall|i: int| 0 <= i < t.len() - 1 ==> #[trigger] t[i + 1] - t[i] < 0x1_0000_0000,
        0 <= s < t.len(),
    ensures
        placed(t, matches_from(t, b, Needle::Literal { bytes: pattern, ascii_ci }, s), t[s], t[t.len() - 1]),
    decreases t.len() - s,
{
    let needle = Needle::Literal { bytes: pattern, ascii_ci };
    if s < t.len() - 1 {
        let e = chunk_end(t, s);
        lemma_first_at_least_ge(t, s, t[s] + TARGET_CHUNK_BYTES as int);
        assert(s < e <= t.len() - 1);
        lemma_chunk_placed(t, b, pattern, ascii_ci, s, e);
        lemma_matches_placed(t, b, pattern, ascii_ci, e);
        let c = chunk_matches(t, b, needle, s, e);
        let r = matches_from(t, b, needle, e);
        let all = matches_from(t, b, needle, s);
        assert(all == c + r);
        if e < t.len() - 1 {
            assert(t[e] < t[t.len() - 1]);
        }
        assert(t[s] < t[e]);
        assert forall|i: int| 0 <= i < all.len() implies {
            &&& t[s] <= match_pos(#[trigger] all[i]) <= t[t.len() - 1]
            &&& all[i].line_number as int == line_of(t, 0, match_pos(all[i]))
            &&& all[i].byte_offset as int == t[all[i].line_number as int]
        } by {
            if i < c.len() {
                assert(all[i] == c[i]);
            } else {
                assert(all[i] == r[i - c.len()]);
            }
        }
        assert forall|i: int, j: int| 0 <= i < j < all.len() implies match_pos(#[trigger] all[i]) <= match_pos(#[trigger] all[j]) by {
            if j < c.len() {
                assert(all[i] == c[i] && all[j] == c[j]);
            } else if i < c.len() {
                assert(all[i] == c[i] && all[j] == r[j - c.len()]);
            } else {
                assert(all[i] == r[i - c.len()] && all[j] == r[j - c.len()]);
            }
        }
    }
}

/// Placed matches come in (line, start) order.
proof fn lemma_placed_sorted(t: Seq<int>, ms: Seq<Match>, lo: int, hi: int)
    requires
        placed(t, ms, lo, hi),
        t.len() >= 1,
        t[0] == 0,
        0 <= lo,
    ensures
        crate::sort::is_sorted(ms, false),
{
    assert forall|i: int, j: int| 0 <= i < j < ms.len() implies !less_by(false, #[trigger] ms[j], #[trigger] ms[i]) by {
        let (pi, pj) = (match_pos(ms[i]), match_pos(ms[j]));
        assert(pi <= pj);
        lemma_line_of_bounds(t, 0, pi);
        let li = line_of(t, 0, pi);
        lemma_line_of_resume(t, 0, pi, pj);
        lemma_line_of_bounds(t, li, pj);
    }
}

/// A capped literal search returns the earliest matches of the file: when
/// it finds more than `limit`, every match it returns comes, in (line,
/// start) order, no later than every match it found and left out. Indeed
/// the result is exactly the first `limit` matches found, in scan order,
/// which is (line, start) order. (Lines of 4 GiB or more are left out: the
/// offset within a line is a 32-bit number.)
pub proof fn lemma_literal_search_earliest(t: Seq<int>, b: Seq<u8>, pattern: Seq<u8>, ascii_ci: bool, limit: int)
    requires
        valid_table(b, t),
        b.len() > 0,
        b.len() <= usize::MAX,
        pattern.len() <= usize::MAX,
        forall|i: int| 0 <= i < t.len() - 1 ==> #[trigger] t[i + 1] - t[i] < 0x1_0000_0000,
        limit >= 0,
    ensures
        ({
            let found = matches_from(t, b, Needle::Literal { bytes: pattern, ascii_ci }, 0);
            let r = search_result(t, b, Needle::Literal { bytes: pattern, ascii_ci }, limit);
            &&& r == found.subrange(0, if limit < found.len() { limit } else { found.len() as int })
            &&& forall|i: int, j: int| 0 <= i < r.len() <= j < found.len() ==> {
                let (x, y) = (#[trigger] r[i], #[trigger] found[j]);
                x.line_number < y.line_number || (x.line_number == y.line_number && x.match_start <= y.match_start)
            }
        }),
{
    let needle = Needle::Literal { bytes: pattern, ascii_ci };
    let found = matches_from(t, b, needle, 0);
    lemma_matches_placed(t, b, pattern, ascii_ci, 0);
    lemma_placed_sorted(t, found, t[0], t[t.len() - 1]);
    let k = if limit < found.len() { limit } else { found.len() as int };
    let kept = first_n(found, limit);
    assert(kept =~= found.subrange(0, k));
    assert(crate::sort::is_sorted(kept, false)) by {
        assert forall|i: int, j: int| 0 <= i < j < kept.len() implies !less_by(false, #[trigger] kept[j], #[trigger] kept[i]) by {
            assert(kept[i] == found[i] && kept[j] == found[j]);
        }
    }
    crate::sort::lemma_stable_sort_of_sorted(kept, false);
    let r = search_result(t, b, needle, limit);
    assert(r == kept);
    assert forall|i: int, j: int| 0 <= i < r.len() <= j < found.len() implies {
        let (x, y) = (#[trigger] r[i], #[trigger] found[j]);
        x.line_number < y.line_number || (x.line_number == y.line_number && x.match_start <= y.match_start)
    } by {
        assert(r[i] == found[i]);
        assert(!less_by(false, found[j], found[i]));
    }
}

proof fn lemma_first_at_least(t: Seq<int>, from: int, target: int, p: int)
    requires
        0 <= from <= p <= t.len(),
        forall|k: int| from <= k < p ==> #[trigger] t[k] < target,
        p == t.len() || t[p] >= target,
    ensures
        first_at_least(t, from, target) == p,
    decreases p - from,
{
    if from < p {
        lemma_first_at_least(t, from + 1, target, p);
    }
}

/// Walking on from where an earlier, smaller byte left off reaches the same line.
proof fn lemma_line_of_resume(t: Seq<int>, s: int, a1: int, a2: int)
    requires
        0 <= s < t.len(),
        a1 <= a2,
    ensures
        line_of(t, line_of(t, s, a1), a2) == line_of(t, s, a2),
    decreases t.len() - s,
{
    if s + 1 < t.len() && t[s + 1] <= a1 {
        lemma_line_of_resume(t, s + 1, a1, a2);
    }
}

/// A match is put on the line that holds the byte where it starts: that line
/// starts at or before the byte, and the next entry of the table (if any)
/// lies after it.
pub proof fn lemma_line_of_bounds(t: Seq<int>, s: int, a: int)
    requires
        0 <= s < t.len(),
        t[s] <= a,
    ensures
        s <= line_of(t, s, a) < t.len(),
        t[line_of(t, s, a)] <= a,
        line_of(t, s, a) + 1 < t.len() ==> a < t[line_of(t, s, a) + 1],
    decreases t.len() - s,
{
    if s + 1 < t.len() && t[s + 1] <= a {
        lemma_line_of_bounds(t, s + 1, a);
    }
}

/// The first index at or after `from` whose entry is at least `target`, by
/// binary search over a strictly increasing table.
fn first_at_least_in(offsets: &[u64], from: usize, target: u64) -> (r: usize)
    requires
        from <= offsets@.len(),
        forall|i: int, j: int| 0 <= i < j < offsets@.len() ==> #[trigger] offsets@[i] < #[trigger] offsets@[j],
    ensures
        r == first_at_least(as_ints(offsets@), from as int, target as int),
        from <= r <= offsets@.len(),
{
    let ghost t = as_ints(offsets@);
    let mut lo = from;
    let mut hi = offsets.len();
    while lo < hi
        invariant
            t == as_ints(offsets@),
            forall|i: int, j: int| 0 <= i < j < offsets@.len() ==> #[trigger] offsets@[i] < #[trigger] offsets@[j],
            from <= lo <= hi <= offsets@.len(),
            forall|k: int| from <= k < lo ==> #[trigger] offsets@[k] < target,
            forall|k: int| hi <= k < offsets@.len() ==> #[trigger] offsets@[k] >= target,
        decreases hi - lo,
    {
        let mid = lo + (hi - lo) / 2;
        if offsets[mid] < target {
            proof {
                assert forall|k: int| from <= k < mid + 1 implies #[trigger] offsets@[k] < target by {
                    if k < mid {
                        assert(offsets@[k] < offsets@[mid as int]);
                    }
                }
            }
            lo = mid + 1;
        } else {
            proof {
                assert forall|k: int| mid <= k < offsets@.len() implies #[trigger] offsets@[k] >= target by {
                    if k > mid {
                        assert(offsets@[mid as int] < offsets@[k]);
                    }
                }
            }
            hi = mid;
        }
    }
    proof {
        assert forall|k: int| from <= k < lo implies #[trigger] t[k] < target by {
            assert(offsets@[k] < target);
        }
        if lo < t.len() {
            assert(offsets@[lo as int] >= target);
        }
        lemma_first_at_least(t, from as int, target as int, lo as int);
    }
    lo
}

/// The first occurrence at or after `from` lies at or after `from` and
/// inside the haystack.
proof fn lemma_literal_next(hay: Seq<u8>, pat: Seq<u8>, ascii_ci: bool, from: int)
    requires
        from >= 0,
    ensures
        literal_next(hay, pat, ascii_ci, from) matches Some(q) ==> from <= q && q + pat.len() <= hay.len(),
    decreases hay.len() + 1 - from,
{
    if from + pat.len() <= hay.len() && !literal_at(hay, pat, ascii_ci, from) {
        lemma_literal_next(hay, pat, ascii_ci, from + 1);
    }
}

/// The occurrences of a literal start inside the haystack, in increasing order.
proof fn lemma_literal_scan(pat: Seq<u8>, ascii_ci: bool, hay: Seq<u8>, from: int)
    requires
        from >= 0,
        hay.len() <= usize::MAX,
        pat.len() <= usize::MAX,
    ensures
        forall|i: int| 0 <= i < literal_scan(pat, ascii_ci, hay, from).len() ==> from
            <= #[trigger] literal_scan(pat, ascii_ci, hay, from)[i].0 <= hay.len(),
        forall|i: int, j: int| 0 <= i < j < literal_scan(pat, ascii_ci, hay, from).len() ==>
            #[trigger] literal_scan(pat, ascii_ci, hay, from)[i].0 < #[trigger] literal_scan(pat, ascii_ci, hay, from)[j].0,
    decreases hay.len() + 1 - from,
{
    lemma_literal_next(hay, pat, ascii_ci, from);
    match literal_next(hay, pat, ascii_ci, from) {
        None => {},
        Some(q) => {
            let step = if pat.len() == 0 { 1 } else { pat.len() as int };
            if from <= q && q + step <= hay.len() + 1 {
                lemma_literal_scan(pat, ascii_ci, hay, q + step);
                let rest = literal_scan(pat, ascii_ci, hay, q + step);
                let all = literal_scan(pat, ascii_ci, hay, from);
                assert(all == seq![(q as usize, pat.len() as usize)] + rest);
                assert forall|i: int| 0 <= i < all.len() implies from <= #[trigger] all[i].0 <= hay.len() by {
                    if i > 0 {
                        assert(all[i] == rest[i - 1]);
                    }
                }
                assert forall|i: int, j: int| 0 <= i < j < all.len() implies #[trigger] all[i].0 < #[trigger] all[j].0 by {
                    assert(all[j] == rest[j - 1]);
                    if i > 0 {
                        assert(all[i] == rest[i - 1]);
                    }
                }
            }
        },
    }
}

/// What a search runs: the literal or the compiled regex pattern.
enum Finder {
    Literal { pattern: String, ascii_ci: bool },
    Regex { pattern: String },
}

impl Finder {
    spec fn needle(&self) -> Needle {
        match self {
            Finder::Literal { pattern, ascii_ci } => Needle::Literal { bytes: encode_utf8(pattern@), ascii_ci: *ascii_ci },
            Finder::Regex { pattern } => Needle::Regex { pattern: pattern@ },
        }
    }

    /// The matcher can be built: a literal of sane length, a regex that compiles.
    spec fn ready(&self) -> bool {
        match self {
            Finder::Literal { pattern, .. } => encode_utf8(pattern@).len() < 0x3ff0_0000,
            Finder::Regex { pattern } => byte_regex_is_valid(pattern@),
        }
    }
}

/// The raw hits of the needle in one chunk, as `(start, length)`.
fn find_in_chunk(finder: &Finder, chunk: &[u8]) -> (r: Vec<(usize, usize)>)
    requires
        finder.ready(),
    ensures
        r@ == needle_hits(finder.needle(), chunk@),
        forall|i: int| 0 <= i < r@.len() ==> #[trigger] r@[i].0 <= chunk@.len(),
        forall|i: int, j: int| 0 <= i < j < r@.len() ==> #[trigger] r@[i].0 <= #[trigger] r@[j].0,
{
    match finder {
        Finder::Literal { pattern, ascii_ci } => {
            let r = literal_find_iter(pattern.as_str(), *ascii_ci, chunk);
            let _ = chunk.len();
            proof {
                lemma_literal_scan(encode_utf8(pattern@), *ascii_ci, chunk@, 0);
            }
            r
        },
        Finder::Regex { pattern } => byte_regex_find_iter(pattern.as_str(), chunk),
    }
}

/// Translates the hits of a chunk that starts at line `first` into matches,
/// keeping at most `room` of them. A cursor walks the offset table forward;
/// since hits come in order it never walks back.
fn translate_hits(offsets: &[u64], first: usize, raw: &Vec<(usize, usize)>, room: usize) -> (r: Vec<Match>)
    requires
        first < offsets@.len(),
        forall|i: int, j: int| 0 <= i < j < offsets@.len() ==> #[trigger] offsets@[i] < #[trigger] offsets@[j],
        forall|i: int| 0 <= i < raw@.len() ==> offsets@[first as int] + #[trigger] raw@[i].0 <= 0x7fff_ffff_ffff_ffff,
        forall|i: int, j: int| 0 <= i < j < raw@.len() ==> #[trigger] raw@[i].0 <= #[trigger] raw@[j].0,
    ensures
        r@ == first_n(
            raw@.map_values(
                |h: (usize, usize)| to_match(as_ints(offsets@), first as int, as_ints(offsets@)[first as int] + h.0, h.1 as u32),
            ),
            room as int,
        ),
{
    let ghost t = as_ints(offsets@);
    let ghost hits = raw@.map_values(
        |h: (usize, usize)| to_match(t, first as int, t[first as int] + h.0, h.1 as u32),
    );
    let n = raw.len();
    let olen = offsets.len();
    let byte_start = offsets[first];
    let mut out: Vec<Match> = Vec::new();
    let mut cursor = first;
    let mut j: usize = 0;
    while j < n && out.len() < room
        invariant
            t == as_ints(offsets@),
            hits == raw@.map_values(
                |h: (usize, usize)| to_match(t, first as int, t[first as int] + h.0, h.1 as u32),
            ),
            n == raw@.len(),
            olen == offsets@.len(),
            byte_start == offsets@[first as int],
            first < offsets@.len(),
            forall|i: int, k: int| 0 <= i < k < offsets@.len() ==> #[trigger] offsets@[i] < #[trigger] offsets@[k],
            forall|i: int| 0 <= i < raw@.len() ==> offsets@[first as int] + #[trigger] raw@[i].0 <= 0x7fff_ffff_ffff_ffff,
            forall|i: int, k: int| 0 <= i < k < raw@.len() ==> #[trigger] raw@[i].0 <= #[trigger] raw@[k].0,
            j <= n,
            j <= room,
            out@.len() == j,
            forall|k: int| 0 <= k < j ==> #[trigger] out@[k] == hits[k],
            j == 0 ==> cursor == first,
            j > 0 ==> cursor == line_of(t, first as int, byte_start + raw@[j - 1].0),
        decreases n - j,
    {
        let (s, len) = raw[j];
        let abs = byte_start + s as u64;
        proof {
            lemma_line_of_bounds(t, first as int, abs as int);
            if j > 0 {
                assert(raw@[j - 1].0 <= raw@[j as int].0);
                lemma_line_of_resume(t, first as int, byte_start + raw@[j - 1].0, abs as int);
                lemma_line_of_bounds(t, first as int, byte_start + raw@[j - 1].0);
            }
        }
        while cursor + 1 < olen && offsets[cursor + 1] <= abs
            invariant
                olen == offsets@.len(),
                t == as_ints(offsets@),
                first <= cursor < offsets@.len(),
                line_of(t, cursor as int, abs as int) == line_of(t, first as int, abs as int),
            decreases offsets@.len() - cursor,
        {
            cursor += 1;
        }
        let lbs = offsets[cursor];
        let start = (abs - lbs) as u32;
        out.push(Match {
            line_number: cursor as u64,
            byte_offset: lbs,
            match_start: start,
            match_end: start.wrapping_add(len as u32),
        });
        proof {
            assert(out@[j as int] == hits[j as int]);
        }
        j += 1;
    }
    proof {
        assert(out@ =~= first_n(hits, room as int));
    }
    out
}

/// Cuts the file into chunks of whole lines, searches them in order, keeps
/// the first `limit` matches and sorts them by line and start.
fn search_chunks(bytes: &[u8], offsets: &[u64], limit: usize, finder: &Finder) -> (r: Vec<Match>)
    requires
        valid_table(bytes@, as_ints(offsets@)),
        bytes@.len() <= 0x7fff_ffff_ffff_ffff,
        finder.ready(),
    ensures
        r@ == search_result(as_ints(offsets@), bytes@, finder.needle(), limit as int),
{
    let ghost t = as_ints(offsets@);
    let ghost b = bytes@;
    let ghost needle = finder.needle();
    proof {
        crate::index::lemma_table_bounds(b, t);
    }
    let olen = offsets.len();
    let blen = bytes.len();
    let total_bytes = offsets[olen - 1];
    if total_bytes == 0 {
        return Vec::new();
    }
    let total_lines = olen - 1;
    if total_lines == 0 {
        return Vec::new();
    }
    let mut all: Vec<Match> = Vec::new();
    let mut start_line: usize = 0;
    let ghost mut acc: Seq<Match> = seq![];
    proof {
        assert forall|i: int, j: int| 0 <= i < j < offsets@.len() implies #[trigger] offsets@[i] < #[trigger] offsets@[j] by {
            assert(t[i] < t[j]);
        }
    }
    while start_line < total_lines
        invariant
            t == as_ints(offsets@),
            b == bytes@,
            needle == finder.needle(),
            valid_table(b, t),
            forall|i: int| 0 <= i < t.len() ==> 0 <= #[trigger] t[i] <= b.len(),
            forall|i: int, j: int| 0 <= i < j < offsets@.len() ==> #[trigger] offsets@[i] < #[trigger] offsets@[j],
            b.len() <= 0x7fff_ffff_ffff_ffff,
            finder.ready(),
            olen == offsets@.len(),
            blen == bytes@.len(),
            total_lines == olen - 1,
            start_line <= total_lines,
            matches_from(t, b, needle, 0) == acc + matches_from(t, b, needle, start_line as int),
            all@ == first_n(acc, limit as int),
        decreases total_lines - start_line,
    {
        let start_byte = offsets[start_line];
        let target = start_byte + TARGET_CHUNK_BYTES;
        let found = first_at_least_in(offsets, start_line, target);
        let capped = if found < total_lines { found } else { total_lines };
        let end_line = if capped == start_line { start_line + 1 } else { capped };
        let ghost ch = chunk_matches(t, b, needle, start_line as int, end_line as int);
        proof {
            assert(end_line as int == chunk_end(t, start_line as int));
            assert(matches_from(t, b, needle, start_line as int) == ch + matches_from(t, b, needle, end_line as int));
            assert(t[start_line as int] < t[end_line as int]);
            assert(t[start_line as int] == offsets@[start_line as int]);
            assert(t[end_line as int] == offsets@[end_line as int]);
        }
        if all.len() < limit {
            let byte_end = offsets[end_line];
            let chunk = vstd::slice::slice_subrange(bytes, start_byte as usize, byte_end as usize);
            let raw = find_in_chunk(finder, chunk);
            let room = limit - all.len();
            let mut hits = translate_hits(offsets, start_line, &raw, room);
            proof {
                assert(chunk@ =~= b.subrange(t[start_line as int], t[end_line as int]));
                assert(raw@.map_values(
                    |h: (usize, usize)| to_match(t, start_line as int, t[start_line as int] + h.0, h.1 as u32),
                ) =~= ch);
            }
            all.append(&mut hits);
            proof {
                assert(all@ =~= first_n(acc + ch, limit as int));
            }
        } else {
            proof {
                assert(first_n(acc, limit as int) =~= first_n(acc + ch, limit as int));
            }
        }
        proof {
            assert(acc + ch + matches_from(t, b, needle, end_line as int) =~= acc + (ch + matches_from(t, b, needle, end_line as int)));
            acc = acc + ch;
        }
        start_line = end_line;
    }
    proof {
        assert(acc =~= matches_from(t, b, needle, 0));
        assert(views(all@) =~= all@);
    }
    let ghost kept = all@;
    stable_sort_by_key(&mut all, false);
    proof {
        assert(views(all@) =~= all@);
        lemma_stable_sort_sorted(kept, false);
    }
    all.truncate(limit);
    proof {
        assert(all@ =~= stable_sort(kept, false));
    }
    all
}

fn run_literal(file: &LogFile, pattern: &str, case_sensitive: bool, limit: usize) -> (r: Vec<Match>)
    requires
        file.wf(),
        encode_utf8(pattern@).len() < 0x3ff0_0000,
    ensures
        r@ == search_result(
            file.table(),
            file.content(),
            Needle::Literal { bytes: encode_utf8(pattern@), ascii_ci: !case_sensitive },
            limit as int,
        ),
{
    let finder = Finder::Literal { pattern: pattern.to_owned(), ascii_ci: !case_sensitive };
    proof {
        file.lemma_wf();
    }
    search_chunks(file.bytes(), file.offsets(), limit, &finder)
}

fn run_regex(file: &LogFile, pattern: &str, case_sensitive: bool, limit: usize) -> (r: Result<Vec<Match>, Error>)
    requires
        file.wf(),
    ensures
        r is Err <==> !byte_regex_is_valid(regex_pattern(pattern@, case_sensitive)),
        r matches Err(e) ==> e is Regex,
        r matches Ok(v) ==> v@ == search_result(
            file.table(),
            file.content(),
            Needle::Regex { pattern: regex_pattern(pattern@, case_sensitive) },
            limit as int,
        ),
{
    let pattern_full = if case_sensitive {
        pattern.to_owned()
    } else {
        let mut p = "(?i)".to_owned();
        p.append(pattern);
        p
    };
    match byte_regex_check(pattern_full.as_str()) {
        Err(e) => return Err(Error::Regex(e)),
        Ok(()) => {},
    }
    let finder = Finder::Regex { pattern: pattern_full };
    proof {
        file.lemma_wf();
    }
    Ok(search_chunks(file.bytes(), file.offsets(), limit, &finder))
}

impl Searcher {
    /// Searches a file. A literal search always succeeds; a regex search
    /// fails exactly when its pattern (behind `(?i)` when ignoring case)
    /// does not compile. The matches are those of `search_result`.
    pub fn run(file: &LogFile, opts: SearchOptions) -> (r: Result<Vec<Match>, Error>)
        requires
            file.wf(),
            !opts.regex ==> encode_utf8(opts.pattern@).len() < 0x3ff0_0000,
        ensures
            r is Err <==> opts.regex && !byte_regex_is_valid(regex_pattern(opts.pattern@, opts.case_sensitive)),
            r matches Err(e) ==> e is Regex,
            r matches Ok(v) ==> v@ == search_result(file.table(), file.content(), needle_of(opts), limit_of(opts)),
    {
        let limit = match opts.max_results {
            Some(n) => n,
            None => DEFAULT_MAX_RESULTS,
        };
        if opts.regex {
            run_regex(file, opts.pattern.as_str(), opts.case_sensitive, limit)
        } else {
            Ok(run_literal(file, opts.pattern.as_str(), opts.case_sensitive, limit))
        }
    }
}

} // verus!
