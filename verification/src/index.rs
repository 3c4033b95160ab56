//! Line index over a log file's bytes.
//!
//! `LogFile` holds the file's bytes and an offset table: `offsets[i]` is the
//! byte offset of line `i`, and the last entry is the file length, so line
//! `i` spans `offsets[i]..offsets[i+1]`. Reading the file is left to the
//! caller; everything here works on the bytes it was handed.
use std::path::PathBuf;
use vstd::prelude::*;
use vstd::utf8::*;
use crate::error::Error;
use crate::parser::{
    detect_format, line_views, parse_with_format, parsed_view,
    spec_detect_format, spec_parse_with_format, FileFormat, ParsedBytes, ParsedLine,
};
use crate::trusted::{decode_lossy, memchr_positions, utf8_lossy};

verus! {

broadcast use vstd::utf8::encode_utf8_valid_utf8;

/// Byte `q` starts a line after the first: the byte before it is a newline
/// and it is not the end of the file.
pub open spec fn is_line_start(b: Seq<u8>, q: int) -> bool {
    0 < q < b.len() && b[q - 1] == 10u8
}

/// The line starts `q` with `lo <= q < hi`, in increasing order.
pub open spec fn starts_between(b: Seq<u8>, lo: int, hi: int) -> Seq<int>
    decreases hi - lo,
{
    if hi <= lo {
        seq![]
    } else {
        let r = starts_between(b, lo, hi - 1);
        if is_line_start(b, hi - 1) {
            r.push(hi - 1)
        } else {
            r
        }
    }
}

/// The offset table of `b` scanned from `start`: `start`, every line start
/// after it, and the length of `b` as the closing sentinel.
pub open spec fn spec_offsets(b: Seq<u8>, start: int) -> Seq<int> {
    seq![start] + starts_between(b, start + 1, b.len() as int) + seq![b.len() as int]
}

/// A `u64` table as integers.
pub open spec fn as_ints(v: Seq<u64>) -> Seq<int> {
    v.map_values(|o: u64| o as int)
}

proof fn lemma_starts_stable(b: Seq<u8>, lo: int, h1: int, h2: int)
    requires
        lo <= h1 <= h2,
        forall|q: int| h1 <= q < h2 ==> !is_line_start(b, q),
    ensures
        starts_between(b, lo, h2) == starts_between(b, lo, h1),
    decreases h2 - h1,
{
    if h2 > h1 {
        lemma_starts_stable(b, lo, h1, h2 - 1);
    }
}

/// Every element of `starts_between(b, lo, hi)` lies in `[lo, hi)` and the
/// elements strictly increase.
pub proof fn lemma_starts_shape(b: Seq<u8>, lo: int, hi: int)
    ensures
        forall|i: int| 0 <= i < starts_between(b, lo, hi).len() ==> lo <= #[trigger] starts_between(b, lo, hi)[i] < hi
            && is_line_start(b, starts_between(b, lo, hi)[i]),
        forall|i: int, j: int| 0 <= i < j < starts_between(b, lo, hi).len() ==> #[trigger] starts_between(b, lo, hi)[i]
            < #[trigger] starts_between(b, lo, hi)[j],
    decreases hi - lo,
{
    if hi > lo {
        lemma_starts_shape(b, lo, hi - 1);
        let r = starts_between(b, lo, hi - 1);
        let s = starts_between(b, lo, hi);
        if is_line_start(b, hi - 1) {
            assert(s == r.push(hi - 1));
            assert forall|i: int, j: int| 0 <= i < j < s.len() implies #[trigger] s[i] < #[trigger] s[j] by {
                if j < r.len() {
                    assert(r[i] < r[j]);
                } else {
                    assert(lo <= r[i] < hi - 1);
                }
            }
            assert forall|i: int| 0 <= i < s.len() implies lo <= #[trigger] s[i] < hi && is_line_start(b, s[i]) by {
                if i < r.len() {
                    assert(lo <= r[i] < hi - 1);
                }
            }
        } else {
            assert forall|i: int| 0 <= i < s.len() implies lo <= #[trigger] s[i] < hi && is_line_start(b, s[i]) by {
                assert(lo <= r[i] < hi - 1);
            }
            assert forall|i: int, j: int| 0 <= i < j < s.len() implies #[trigger] s[i] < #[trigger] s[j] by {
                assert(r[i] < r[j]);
            }
        }
    }
}

/// Scans `bytes[start..]` for newlines and produces the offset table of
/// the lines from `start` on, closed by the length of `bytes`.
pub fn build_offsets(bytes: &[u8], start: usize) -> (r: Vec<u64>)
    requires
        start <= bytes@.len(),
    ensures
        as_ints(r@) == spec_offsets(bytes@, start as int),
{
    let len = bytes.len();
    let tail = vstd::slice::slice_subrange(bytes, start, len);
    let positions = memchr_positions(10u8, tail);
    let mut offsets: Vec<u64> = Vec::new();
    offsets.push(start as u64);
    let mut k: usize = 0;
    let ghost mut frontier: int = start + 1;
    proof {
        assert(as_ints(offsets@) =~= seq![start as int] + starts_between(bytes@, start + 1, start + 1));
    }
    while k < positions.len()
        invariant
            len == bytes@.len(),
            start <= len,
            tail@ == bytes@.subrange(start as int, len as int),
            k <= positions@.len(),
            start + 1 <= frontier <= len + 1,
            k == 0 ==> frontier == start + 1,
            k > 0 ==> frontier == start + positions@[k - 1] + 2,
            forall|i: int| 0 <= i < positions@.len() ==> #[trigger] positions@[i] < tail@.len() && tail@[positions@[i] as int] == 10u8,
            forall|i: int, j: int| 0 <= i < j < positions@.len() ==> #[trigger] positions@[i] < #[trigger] positions@[j],
            forall|p: int| 0 <= p < tail@.len() && #[trigger] tail@[p] == 10u8
                ==> exists|i: int| 0 <= i < positions@.len() && positions@[i] == p,
            as_ints(offsets@) == seq![start as int] + starts_between(bytes@, start + 1, frontier as int),
        decreases positions@.len() - k,
    {
        let p = positions[k];
        let abs = start + p + 1;
        proof {
            assert forall|q: int| frontier <= q < abs implies !is_line_start(bytes@, q) by {
                if is_line_start(bytes@, q) {
                    let r = q - 1 - start;
                    assert(tail@[r] == bytes@[q - 1]);
                    let i = choose|i: int| 0 <= i < positions@.len() && positions@[i] == r;
                    if i >= k {
                        if i > k {
                            assert(positions@[k as int] < positions@[i]);
                        }
                    } else {
                        if i < k - 1 {
                            assert(positions@[i] < positions@[k - 1]);
                        }
                    }
                }
            }
            lemma_starts_stable(bytes@, start + 1, frontier as int, abs as int);
            assert(tail@[p as int] == bytes@[abs - 1]);
        }
        if abs < len {
            let ghost before = offsets@;
            offsets.push(abs as u64);
            proof {
                assert(is_line_start(bytes@, abs as int));
                assert(starts_between(bytes@, start + 1, abs + 1) == starts_between(bytes@, start + 1, abs as int).push(abs as int));
                assert(as_ints(offsets@) =~= as_ints(before).push(abs as int));
                assert(as_ints(offsets@) =~= seq![start as int] + starts_between(bytes@, start + 1, abs + 1));
            }
        } else {
            proof {
                assert(!is_line_start(bytes@, abs as int));
                assert(starts_between(bytes@, start + 1, abs + 1) == starts_between(bytes@, start + 1, abs as int));
            }
        }
        proof {
            frontier = abs + 1;
        }
        k += 1;
    }
    proof {
        assert forall|q: int| frontier <= q < len implies !is_line_start(bytes@, q) by {
            if is_line_start(bytes@, q) {
                let r = q - 1 - start;
                assert(tail@[r] == bytes@[q - 1]);
                let i = choose|i: int| 0 <= i < positions@.len() && positions@[i] == r;
                if k > 0 && i < k - 1 {
                    assert(positions@[i] < positions@[k - 1]);
                }
            }
        }
        if frontier <= len {
            lemma_starts_stable(bytes@, start + 1, frontier as int, len as int);
        } else {
            assert(!is_line_start(bytes@, len as int));
            assert(starts_between(bytes@, start + 1, frontier as int) == starts_between(bytes@, start + 1, len as int));
        }
    }
    let ghost before = offsets@;
    offsets.push(len as u64);
    proof {
        assert(as_ints(offsets@) =~= as_ints(before).push(len as int));
        assert(as_ints(offsets@) =~= spec_offsets(bytes@, start as int));
    }
    offsets
}

/// End of line `start..end` once one trailing `\n`, then one `\r`, is dropped.
pub open spec fn strip_eol(b: Seq<u8>, start: int, end: int) -> int {
    let e1 = if end > start && b[end - 1] == 10u8 { end - 1 } else { end };
    if e1 > start && b[e1 - 1] == 13u8 {
        e1 - 1
    } else {
        e1
    }
}

/// The bytes of line `n` of a table, without its line ending.
pub open spec fn raw_line(b: Seq<u8>, t: Seq<int>, n: int) -> Seq<u8> {
    b.subrange(t[n], strip_eol(b, t[n], t[n + 1]))
}

/// A line's bytes run from its start to the next line's start, less one
/// trailing line feed and then one carriage return before it: `\n` and
/// `\r\n` endings both go, a lone trailing `\r` goes too, and nothing else
/// is removed.
pub proof fn lemma_line_ending(b: Seq<u8>, start: int, end: int)
    requires
        0 <= start <= end <= b.len(),
    ensures
        ({
            let e1 = if end > start && b[end - 1] == 10u8 { end - 1 } else { end };
            let e2 = if e1 > start && b[e1 - 1] == 13u8 { e1 - 1 } else { e1 };
            strip_eol(b, start, end) == e2
        }),
        start <= strip_eol(b, start, end) <= end,
        end - strip_eol(b, start, end) <= 2,
{
}

/// The text of line `n`: its bytes decoded, invalid UTF-8 replaced.
pub open spec fn line_text(b: Seq<u8>, t: Seq<int>, n: int) -> Seq<char> {
    utf8_lossy(raw_line(b, t, n))
}

/// The texts of the first `min(lines, 20)` lines, from which the format is guessed.
pub open spec fn sample_texts(b: Seq<u8>, t: Seq<int>) -> Seq<Seq<char>> {
    let n = if t.len() - 1 < 20 { t.len() - 1 } else { 20 };
    Seq::new(n as nat, |i: int| line_text(b, t, i))
}

/// `x` capped at `n`.
pub open spec fn clamp(x: u64, n: int) -> int {
    if x < n {
        x as int
    } else {
        n
    }
}

/// How many lines a range asks for once both ends are clamped to `n`; none
/// when the clamped range is reversed.
pub open spec fn range_count(start: u64, end: u64, n: int) -> int {
    if clamp(start, n) <= clamp(end, n) {
        clamp(end, n) - clamp(start, n)
    } else {
        0
    }
}

/// A range of lines asks for the lines from `min(start, n)` up to
/// `min(end, n)`: their number is the difference when it is positive, and
/// none otherwise; it never exceeds the `n` lines there are.
pub proof fn lemma_range_count(start: u64, end: u64, n: int)
    requires
        n >= 0,
    ensures
        ({
            let lo = if (start as int) < n { start as int } else { n };
            let hi = if (end as int) < n { end as int } else { n };
            range_count(start, end, n) == if lo <= hi { hi - lo } else { 0 }
        }),
        0 <= range_count(start, end, n) <= n,
        start <= end && end <= n ==> range_count(start, end, n) == end - start,
{
}

/// A table is a valid index of `b`: it starts at 0, strictly increases and
/// ends at the length of `b`.
pub open spec fn valid_table(b: Seq<u8>, t: Seq<int>) -> bool {
    &&& t.len() >= 2
    &&& t[0] == 0
    &&& t[t.len() - 1] == b.len()
    &&& forall|i: int, j: int| 0 <= i < j < t.len() ==> #[trigger] t[i] < #[trigger] t[j]
}

/// Every entry of a valid table lies within the bytes.
pub proof fn lemma_table_bounds(b: Seq<u8>, t: Seq<int>)
    requires
        valid_table(b, t),
    ensures
        forall|i: int| 0 <= i < t.len() ==> 0 <= #[trigger] t[i] <= b.len(),
{
    assert forall|i: int| 0 <= i < t.len() implies 0 <= #[trigger] t[i] <= b.len() by {
        if i > 0 {
            assert(t[0] < t[i]);
        }
        if i < t.len() - 1 {
            assert(t[i] < t[t.len() - 1]);
        }
    }
}

/// Where line `n` starts and where its text ends (line ending dropped).
fn line_bounds(bytes: &Vec<u8>, offsets: &Vec<u64>, n: usize) -> (r: (usize, usize))
    requires
        valid_table(bytes@, as_ints(offsets@)),
        n + 1 < offsets@.len(),
    ensures
        r.0 == as_ints(offsets@)[n as int],
        r.1 == strip_eol(bytes@, as_ints(offsets@)[n as int], as_ints(offsets@)[n + 1]),
        r.0 <= r.1 <= bytes@.len(),
{
    proof {
        lemma_table_bounds(bytes@, as_ints(offsets@));
        assert(as_ints(offsets@)[n as int] < as_ints(offsets@)[n + 1]);
    }
    let olen = offsets.len();
    let blen = bytes.len();
    let start = offsets[n] as usize;
    let end = offsets[n + 1] as usize;
    let mut slice_end = end;
    if slice_end > start && bytes[slice_end - 1] == 10 {
        slice_end -= 1;
    }
    if slice_end > start && bytes[slice_end - 1] == 13 {
        slice_end -= 1;
    }
    (start, slice_end)
}

/// Half-open range of line numbers.
pub type LineRange = std::ops::Range<u64>;

/// One line as handed out: its number, where it starts, its text, and what
/// parsing found in it.
#[derive(Debug, Clone)]
pub struct LogLine {
    /// 0-based line number within the file.
    pub number: u64,
    /// Byte offset of the line start within the underlying file.
    pub byte_offset: u64,
    /// Raw line text with trailing newline stripped.
    pub text: String,
    /// Best-effort parse result. `None` for unrecognised formats.
    pub parsed: Option<ParsedLine>,
}

/// A `LogLine` in mathematical terms.
pub struct LineView {
    pub number: int,
    pub byte_offset: int,
    pub text: Seq<char>,
    pub parsed: Option<ParsedBytes>,
}

impl View for LogLine {
    type V = LineView;

    open spec fn view(&self) -> LineView {
        LineView {
            number: self.number as int,
            byte_offset: self.byte_offset as int,
            text: self.text@,
            parsed: parsed_view(self.parsed),
        }
    }
}

/// Line `n` of a file as `line` reports it, numbered `number`.
pub open spec fn spec_line(b: Seq<u8>, t: Seq<int>, f: FileFormat, n: int, number: int) -> LineView {
    LineView {
        number,
        byte_offset: t[n],
        text: line_text(b, t, n),
        parsed: spec_parse_with_format(line_text(b, t, n), f),
    }
}

/// `starts_between` splits at any point of its range.
pub proof fn lemma_starts_split(b: Seq<u8>, lo: int, mid: int, hi: int)
    requires
        lo <= mid <= hi,
    ensures
        starts_between(b, lo, hi) == starts_between(b, lo, mid) + starts_between(b, mid, hi),
    decreases hi - mid,
{
    if hi == mid {
        assert(starts_between(b, lo, mid) + starts_between(b, mid, hi) =~= starts_between(b, lo, mid));
    } else {
        lemma_starts_split(b, lo, mid, hi - 1);
        if is_line_start(b, hi - 1) {
            assert(starts_between(b, lo, mid) + starts_between(b, mid, hi) =~= (starts_between(b, lo, mid)
                + starts_between(b, mid, hi - 1)).push(hi - 1));
        }
    }
}

/// Two byte strings that agree below `hi` and are both longer than `hi - 1`
/// have the same line starts below `hi`.
pub proof fn lemma_starts_agree(b1: Seq<u8>, b2: Seq<u8>, lo: int, hi: int)
    requires
        hi <= b1.len(),
        hi <= b2.len(),
        forall|i: int| 0 <= i < hi ==> b1[i] == b2[i],
    ensures
        starts_between(b1, lo, hi) == starts_between(b2, lo, hi),
    decreases hi - lo,
{
    if hi > lo {
        lemma_starts_agree(b1, b2, lo, hi - 1);
        assert(is_line_start(b1, hi - 1) == is_line_start(b2, hi - 1));
    }
}

/// Growing a file by appending to it and resyncing yields the same index as
/// indexing the grown file from scratch: the last line of the old file,
/// complete or not, is scanned again, so a line that was unterminated before
/// the append is neither lost nor split in two.
pub proof fn lemma_resync_after_append(old_bytes: Seq<u8>, new_bytes: Seq<u8>)
    requires
        old_bytes.len() > 0,
        old_bytes.len() < new_bytes.len(),
        new_bytes.take(old_bytes.len() as int) == old_bytes,
    ensures
        resynced_table(spec_offsets(old_bytes, 0), new_bytes) == spec_offsets(new_bytes, 0),
{
    let l = old_bytes.len() as int;
    let n = new_bytes.len() as int;
    let s_old = starts_between(old_bytes, 1, l);
    let t = spec_offsets(old_bytes, 0);
    assert forall|i: int| 0 <= i < l implies old_bytes[i] == new_bytes[i] by {
        assert(new_bytes.take(l)[i] == new_bytes[i]);
    }
    lemma_starts_shape(old_bytes, 1, l);
    if s_old.len() == 0 {
        assert(t[t.len() - 2] == 0);
        assert(t.take(t.len() - 2) =~= Seq::<int>::empty());
        assert(resynced_table(t, new_bytes) =~= spec_offsets(new_bytes, 0));
    } else {
        let r = s_old.last();
        assert(t[t.len() - 2] == r);
        assert(1 <= r < l);
        lemma_starts_split(old_bytes, 1, r + 1, l);
        lemma_starts_shape(old_bytes, r + 1, l);
        assert(is_line_start(old_bytes, r));
        assert(starts_between(old_bytes, 1, r + 1) == starts_between(old_bytes, 1, r).push(r));
        if starts_between(old_bytes, r + 1, l).len() > 0 {
            let tail = starts_between(old_bytes, r + 1, l);
            assert(s_old.last() == tail.last());
            assert(r + 1 <= tail[tail.len() - 1]);
        }
        assert(starts_between(old_bytes, r + 1, l) =~= Seq::<int>::empty());
        assert(s_old =~= starts_between(old_bytes, 1, r + 1));
        lemma_starts_agree(old_bytes, new_bytes, 1, r + 1);
        lemma_starts_split(new_bytes, 1, r + 1, n);
        assert(t.take(t.len() - 2) =~= seq![0int] + s_old.drop_last());
        assert(resynced_table(t, new_bytes) =~= spec_offsets(new_bytes, 0));
    }
}

/// Entries strictly below the length of `b` make `spec_offsets` valid from them.
proof fn lemma_spec_offsets_shape(b: Seq<u8>, start: int)
    requires
        0 <= start < b.len(),
    ensures
        forall|i: int, j: int| 0 <= i < j < spec_offsets(b, start).len() ==> #[trigger] spec_offsets(b, start)[i]
            < #[trigger] spec_offsets(b, start)[j],
        spec_offsets(b, start)[0] == start,
        spec_offsets(b, start).last() == b.len(),
{
    lemma_starts_shape(b, start + 1, b.len() as int);
    let s = starts_between(b, start + 1, b.len() as int);
    let t = spec_offsets(b, start);
    assert forall|i: int, j: int| 0 <= i < j < t.len() implies #[trigger] t[i] < #[trigger] t[j] by {
        if i == 0 {
            if j <= s.len() {
                assert(t[j] == s[j - 1]);
            }
        } else if j <= s.len() {
            assert(t[i] == s[i - 1] && t[j] == s[j - 1]);
        } else {
            assert(t[i] == s[i - 1]);
        }
    }
}

/// A log file's bytes with their line index and detected format.
#[derive(Debug, Clone)]
pub struct LogFile {
    path: PathBuf,
    bytes: Vec<u8>,
    offsets: Vec<u64>,
    format: FileFormat,
}

/// The table left by `resync` on growth: the old table without its last
/// line and sentinel, then a scan of the new bytes from that last line's start.
pub open spec fn resynced_table(t: Seq<int>, b: Seq<u8>) -> Seq<int> {
    t.take(t.len() - 2) + spec_offsets(b, t[t.len() - 2])
}

impl LogFile {
    pub closed spec fn content(&self) -> Seq<u8> {
        self.bytes@
    }

    pub closed spec fn table(&self) -> Seq<int> {
        as_ints(self.offsets@)
    }

    pub closed spec fn file_format(&self) -> FileFormat {
        self.format
    }

    pub closed spec fn file_path(&self) -> PathBuf {
        self.path
    }

    /// Number of indexed lines.
    pub open spec fn num_lines(&self) -> int {
        self.table().len() - 1
    }

    /// Line `n`, numbered `number`.
    pub open spec fn line_at(&self, n: int, number: int) -> LineView {
        spec_line(self.content(), self.table(), self.file_format(), n, number)
    }


    /// The index is valid and small enough for offset arithmetic.
    pub closed spec fn wf(&self) -> bool {
        &&& valid_table(self.bytes@, as_ints(self.offsets@))
        &&& self.bytes@.len() <= 0x7fff_ffff_ffff_ffff
    }

    proof fn lemma_spec_offsets_valid(b: Seq<u8>)
        requires
            b.len() > 0,
        ensures
            valid_table(b, spec_offsets(b, 0)),
    {
        lemma_starts_shape(b, 1, b.len() as int);
        let s = starts_between(b, 1, b.len() as int);
        let t = spec_offsets(b, 0);
        assert forall|i: int, j: int| 0 <= i < j < t.len() implies #[trigger] t[i] < #[trigger] t[j] by {
            if i == 0 {
                if j <= s.len() {
                    assert(t[j] == s[j - 1]);
                }
            } else if j <= s.len() {
                assert(t[i] == s[i - 1] && t[j] == s[j - 1]);
            } else {
                assert(t[i] == s[i - 1]);
            }
        }
    }

    /// Copies line `n` out of the file and parses it.
    fn materialise_line(&self, n: u64) -> (r: LogLine)
        requires
            self.wf(),
            n < self.num_lines(),
        ensures
            r@ == self.line_at(n as int, n as int),
    {
        let olen = self.offsets.len();
        let ni = n as usize;
        let (start, slice_end) = line_bounds(&self.bytes, &self.offsets, ni);
        let slice = vstd::slice::slice_subrange(self.bytes.as_slice(), start, slice_end);
        proof {
            assert(slice@ == raw_line(self.content(), self.table(), n as int));
        }
        let text = decode_lossy(slice);
        proof {
            assert(text@ == line_text(self.content(), self.table(), n as int));
        }
        let parsed = parse_with_format(text.as_str(), self.format);
        LogLine { number: n, byte_offset: start as u64, text, parsed }
    }

    /// Indexes the bytes of a file. An empty file is refused.
    pub fn from_bytes(path: PathBuf, bytes: Vec<u8>) -> (r: Result<LogFile, Error>)
        requires
            bytes@.len() <= 0x7fff_ffff_ffff_ffff,
        ensures
            bytes@.len() == 0 <==> r is Err,
            r matches Err(e) ==> e matches Error::EmptyFile(p) && p == path,
            r matches Ok(f) ==> {
                &&& f.wf()
                &&& f.content() == bytes@
                &&& f.table() == spec_offsets(bytes@, 0)
                &&& f.file_path() == path
                &&& f.file_format() == spec_detect_format(sample_texts(bytes@, spec_offsets(bytes@, 0)))
            },
    {
        if bytes.len() == 0 {
            return Err(Error::EmptyFile(path));
        }
        let offsets = build_offsets(bytes.as_slice(), 0);
        let ghost t = as_ints(offsets@);
        proof {
            Self::lemma_spec_offsets_valid(bytes@);
        }
        let line_count = offsets.len() - 1;
        let lim = if line_count < 20 { line_count } else { 20 };
        let mut first_lines: Vec<String> = Vec::new();
        let mut i: usize = 0;
        while i < lim
            invariant
                t == as_ints(offsets@),
                t == spec_offsets(bytes@, 0),
                valid_table(bytes@, t),
                line_count == t.len() - 1,
                lim <= line_count,
                i <= lim,
                first_lines@.len() == i,
                forall|j: int| 0 <= j < i ==> #[trigger] first_lines@[j]@ == line_text(bytes@, t, j),
            decreases lim - i,
        {
            let (start, slice_end) = line_bounds(&bytes, &offsets, i);
            let slice = vstd::slice::slice_subrange(bytes.as_slice(), start, slice_end);
            first_lines.push(decode_lossy(slice));
            i += 1;
        }
        let mut refs: Vec<&str> = Vec::new();
        let mut k: usize = 0;
        while k < first_lines.len()
            invariant
                k <= first_lines@.len(),
                refs@.len() == k,
                forall|j: int| 0 <= j < k ==> #[trigger] refs@[j]@ == first_lines@[j]@,
            decreases first_lines@.len() - k,
        {
            refs.push(first_lines[k].as_str());
            k += 1;
        }
        proof {
            assert(line_views(refs@) =~= sample_texts(bytes@, t));
        }
        let format = detect_format(refs.as_slice());
        Ok(LogFile { path, bytes, offsets, format })
    }

    /// Filesystem path the file was opened from.
    pub fn path(&self) -> (r: &PathBuf)
        ensures
            *r == self.file_path(),
    {
        &self.path
    }

    /// Total number of indexed lines.
    pub fn line_count(&self) -> (r: u64)
        requires
            self.wf(),
        ensures
            r == self.num_lines(),
    {
        (self.offsets.len() as u64) - 1
    }

    /// Total file length in bytes (as of the last index).
    pub fn byte_len(&self) -> (r: u64)
        requires
            self.wf(),
        ensures
            r == self.content().len(),
    {
        self.bytes.len() as u64
    }

    /// The bytes as last indexed.
    pub(crate) fn bytes(&self) -> (r: &[u8])
        ensures
            r@ == self.content(),
    {
        self.bytes.as_slice()
    }

    /// The offset table as last built.
    pub(crate) fn offsets(&self) -> (r: &[u64])
        ensures
            as_ints(r@) == self.table(),
    {
        self.offsets.as_slice()
    }

    /// What well-formedness promises of the bytes and the table.
    pub proof fn lemma_wf(&self)
        requires
            self.wf(),
        ensures
            valid_table(self.content(), self.table()),
            self.content().len() <= 0x7fff_ffff_ffff_ffff,
    {
    }

    /// Detected log file format.
    pub fn format(&self) -> (r: FileFormat)
        ensures
            r == self.file_format(),
    {
        self.format
    }

    /// Reads a single line by 0-based index; an index at or past the end is refused.
    pub fn line(&self, n: u64) -> (r: Result<LogLine, Error>)
        requires
            self.wf(),
        ensures
            n >= self.num_lines() <==> r is Err,
            r matches Err(e) ==> e matches Error::LineOutOfRange { requested, total }
                && requested == n && total == self.num_lines(),
            r matches Ok(l) ==> l@ == self.line_at(n as int, n as int),
    {
        let total = self.line_count();
        if n >= total {
            return Err(Error::LineOutOfRange { requested: n, total });
        }
        Ok(self.materialise_line(n))
    }

    /// Reads a contiguous range of lines. Bounds past the end are clamped to
    /// the number of lines, so `top..top + page` can be asked without first
    /// checking the length; a range that is reversed once clamped is empty.
    pub fn range(&self, range: std::ops::Range<u64>) -> (r: Vec<LogLine>)
        requires
            self.wf(),
        ensures
            r@.len() == range_count(range.start, range.end, self.num_lines()),
            forall|k: int| 0 <= k < r@.len() ==> #[trigger] r@[k]@ == self.line_at(
                clamp(range.start, self.num_lines()) + k,
                clamp(range.start, self.num_lines()) + k,
            ),
    {
        let total = self.line_count();
        let start = if range.start < total { range.start } else { total };
        let end = if range.end < total { range.end } else { total };
        let end = if end < start { start } else { end };
        let mut out: Vec<LogLine> = Vec::with_capacity((end - start) as usize);
        let mut i = start;
        while i < end
            invariant
                self.wf(),
                total == self.num_lines(),
                start == clamp(range.start, self.num_lines()),
                end == start + range_count(range.start, range.end, self.num_lines()),
                start <= i <= end <= total,
                out@.len() == i - start,
                forall|k: int| 0 <= k < out@.len() ==> #[trigger] out@[k]@ == self.line_at(start + k, start + k),
            decreases end - i,
        {
            out.push(self.materialise_line(i));
            i += 1;
        }
        out
    }

    /// Extends the index after the file grew: `current` is the file's content
    /// now. When it is not longer than what was indexed nothing changes and 0
    /// is returned (truncation and rotation are handled a layer up).
    /// Otherwise the scan restarts at the start of the previous last line, not
    /// at the old length, so a last line that had no trailing newline is not
    /// split in two. Returns the number of lines gained; a previously
    /// incomplete line that only got longer counts as zero.
    pub fn resync(&mut self, current: Vec<u8>) -> (r: u64)
        requires
            old(self).wf(),
            current@.len() <= 0x7fff_ffff_ffff_ffff,
        ensures
            final(self).wf(),
            final(self).file_path() == old(self).file_path(),
            final(self).file_format() == old(self).file_format(),
            current@.len() <= old(self).content().len() ==> {
                &&& final(self).content() == old(self).content()
                &&& final(self).table() == old(self).table()
                &&& r == 0
            },
            current@.len() > old(self).content().len() ==> {
                &&& final(self).content() == current@
                &&& final(self).table() == resynced_table(old(self).table(), current@)
                &&& r == if final(self).num_lines() > old(self).num_lines() {
                    final(self).num_lines() - old(self).num_lines()
                } else {
                    0
                }
            },
    {
        let old_len = self.bytes.len();
        if current.len() <= old_len {
            return 0;
        }
        let ghost t = self.table();
        let olen = self.offsets.len();
        let prior = (olen as u64) - 1;
        proof {
            lemma_table_bounds(self.bytes@, t);
            assert(t[t.len() - 2] < t[t.len() - 1]);
        }
        self.offsets.pop();
        let restart = match self.offsets.pop() {
            Some(x) => x,
            None => 0,
        };
        proof {
            assert(restart == t[t.len() - 2]);
            assert(as_ints(self.offsets@) =~= t.take(t.len() - 2));
        }
        let mut appended = build_offsets(current.as_slice(), restart as usize);
        proof {
            lemma_spec_offsets_shape(current@, restart as int);
        }
        let ghost prefix = self.offsets@;
        self.offsets.append(&mut appended);
        self.bytes = current;
        proof {
            assert(as_ints(self.offsets@) =~= t.take(t.len() - 2) + spec_offsets(self.bytes@, restart as int));
            let nt = as_ints(self.offsets@);
            let sp = spec_offsets(self.bytes@, restart as int);
            let k = t.len() - 2;
            assert forall|i: int, j: int| 0 <= i < j < nt.len() implies #[trigger] nt[i] < #[trigger] nt[j] by {
                if j < k {
                    assert(nt[i] == t[i] && nt[j] == t[j]);
                } else if i < k {
                    assert(nt[i] == t[i]);
                    assert(t[i] < t[k]);
                    assert(nt[j] == sp[j - k]);
                    if j > k {
                        assert(sp[0] < sp[j - k]);
                    }
                } else {
                    assert(nt[i] == sp[i - k] && nt[j] == sp[j - k]);
                }
            }
            if k > 0 {
                assert(nt[0] == t[0]);
            }
        }
        let now = (self.offsets.len() as u64) - 1;
        if now > prior {
            now - prior
        } else {
            0
        }
    }
}

} // verus!
