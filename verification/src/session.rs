//! Sessions (several log files read as one, merged chronologically) and
//! views (a filtered, sortable selection of a session's lines).
use std::sync::Arc;
use vstd::prelude::*;
use vstd::prelude::View as _;
use vstd::utf8::*;
use vstd::string::StrSliceExecFns;
use crate::error::Error;
use crate::index::{clamp, range_count, LineView, LogFile, LogLine};
use crate::parser::{opt_bytes, str_eq, LogLevel, ParsedBytes};
use crate::sort::{stable_sort, stable_sort_by_key, views, KeyOrder, Ordered};
use crate::text::{bytes_eq, bytes_lt, lemma_lex_order, lex_lt};
use crate::trusted::{decimal_chars, u64_to_string};
use vstd::string::StringExecFns;

verus! {

/// A line of a session or view, with the index of the file it came from.
#[derive(Debug, Clone)]
pub struct SessionLine {
    pub line: LogLine,
    pub source_id: u32,
}

/// A `SessionLine` in mathematical terms.
pub struct SessionLineView {
    pub line: LineView,
    pub source_id: u32,
}

impl vstd::prelude::View for SessionLine {
    type V = SessionLineView;

    open spec fn view(&self) -> SessionLineView {
        SessionLineView { line: self.line@, source_id: self.source_id }
    }
}

// ---------------------------------------------------------------------------
// Chronological merge
// ---------------------------------------------------------------------------

/// The timestamp that parsing finds in line `n` of a file, as bytes.
pub open spec fn line_timestamp(f: LogFile, n: int) -> Option<Seq<u8>> {
    match f.line_at(n, n).parsed {
        Some(p) => p.timestamp,
        None => None,
    }
}

/// The merge takes the head `(ta, fa, na)` before `(tb, fb, nb)`: lines with
/// a timestamp before lines without, earlier timestamps (compared as byte
/// strings) first, then the lower file index, then the lower line number.
pub open spec fn head_before(ta: Option<Seq<u8>>, fa: int, na: int, tb: Option<Seq<u8>>, fb: int, nb: int) -> bool {
    let tie = fa < fb || (fa == fb && na < nb);
    match (ta, tb) {
        (Some(a), Some(b)) => lex_lt(a, b) || (a == b && tie),
        (Some(_), None) => true,
        (None, Some(_)) => false,
        (None, None) => tie,
    }
}

proof fn lemma_head_before_transitive(
    ta: Option<Seq<u8>>,
    fa: int,
    na: int,
    tb: Option<Seq<u8>>,
    fb: int,
    nb: int,
    tc: Option<Seq<u8>>,
    fc: int,
    nc: int,
)
    requires
        head_before(ta, fa, na, tb, fb, nb),
        head_before(tb, fb, nb, tc, fc, nc),
    ensures
        head_before(ta, fa, na, tc, fc, nc),
{
    match (ta, tb, tc) {
        (Some(a), Some(b), Some(c)) => {
            lemma_lex_order(a, b, c, 0);
            lemma_lex_order(a, a, a, 0);
        },
        _ => {},
    }
}

/// How many entries of `prefix` come from file `f`.
pub open spec fn taken(prefix: Seq<(u32, u64)>, f: int) -> int
    decreases prefix.len(),
{
    if prefix.len() == 0 {
        0
    } else {
        taken(prefix.drop_last(), f) + if prefix.last().0 as int == f { 1int } else { 0int }
    }
}

/// After `prefix`, the merge takes the next line of file `f`: `f` still has
/// lines, and no other file with lines left has a head that goes first.
pub open spec fn merge_picks(files: Seq<LogFile>, prefix: Seq<(u32, u64)>, f: int) -> bool {
    &&& 0 <= f < files.len()
    &&& taken(prefix, f) < files[f].num_lines()
    &&& forall|g: int|
        0 <= g < files.len() && g != f && taken(prefix, g) < files[g].num_lines() ==> !head_before(
            line_timestamp(files[g], taken(prefix, g)),
            g,
            taken(prefix, g),
            line_timestamp(files[f], taken(prefix, f)),
            f,
            taken(prefix, f),
        )
}

/// `index` is the chronological merge of the files: each entry is the next
/// line of the file whose head goes first, and every line of every file is
/// taken.
pub open spec fn is_merge(files: Seq<LogFile>, index: Seq<(u32, u64)>) -> bool {
    &&& merge_steps(files, index)
    &&& forall|f: int| 0 <= f < files.len() ==> #[trigger] taken(index, f) == files[f].num_lines()
}

/// Sum of the lines still to take, over the first `n` files.
spec fn remaining(counts: Seq<int>, heads: Seq<int>, n: int) -> int
    decreases n,
{
    if n <= 0 {
        0
    } else {
        remaining(counts, heads, n - 1) + (counts[n - 1] - heads[n - 1])
    }
}

proof fn lemma_remaining_step(counts: Seq<int>, heads: Seq<int>, b: int, n: int)
    requires
        0 <= b < heads.len(),
        n <= heads.len(),
    ensures
        b < n ==> remaining(counts, heads.update(b, heads[b] + 1), n) == remaining(counts, heads, n) - 1,
        b >= n ==> remaining(counts, heads.update(b, heads[b] + 1), n) == remaining(counts, heads, n),
    decreases n,
{
    if n > 0 {
        lemma_remaining_step(counts, heads, b, n - 1);
    }
}

proof fn lemma_remaining_nonneg(counts: Seq<int>, heads: Seq<int>, n: int)
    requires
        n <= heads.len(),
        n <= counts.len(),
        forall|f: int| 0 <= f < n ==> heads[f] <= counts[f],
    ensures
        remaining(counts, heads, n) >= 0,
    decreases n,
{
    if n > 0 {
        lemma_remaining_nonneg(counts, heads, n - 1);
    }
}

/// Taking one more entry counts it for its own file only.
proof fn lemma_taken_step(s: Seq<(u32, u64)>, k: int, f: int)
    requires
        0 <= k < s.len(),
    ensures
        taken(s.take(k + 1), f) == taken(s.take(k), f) + if s[k].0 as int == f { 1int } else { 0int },
{
    assert(s.take(k + 1).drop_last() =~= s.take(k));
}

/// Longer prefixes take at least as many lines of a file, and strictly more
/// once they include an entry of that file.
proof fn lemma_taken_grows(s: Seq<(u32, u64)>, f: int, i: int, j: int)
    requires
        0 <= i <= j <= s.len(),
    ensures
        taken(s.take(i), f) <= taken(s.take(j), f),
        i < j && s[i].0 as int == f ==> taken(s.take(i), f) < taken(s.take(j), f),
    decreases j - i,
{
    if i < j {
        lemma_taken_grows(s, f, i, j - 1);
        lemma_taken_step(s, j - 1, f);
        if j - 1 == i {
            lemma_taken_step(s, i, f);
        }
    }
}

/// Every value below `taken(s, f)` is the line number of an entry of file
/// `f`, when each entry of `f` numbers the lines of `f` taken before it.
proof fn lemma_taken_covers(s: Seq<(u32, u64)>, f: int, n: int)
    requires
        0 <= n < taken(s, f),
        forall|k: int| 0 <= k < s.len() && s[k].0 as int == f ==> #[trigger] s[k].1 == taken(s.take(k), f),
    ensures
        exists|k: int| 0 <= k < s.len() && s[k].0 as int == f && #[trigger] s[k].1 == n,
    decreases s.len(),
{
    let p = s.drop_last();
    assert(s.take(s.len() - 1) =~= p);
    if n < taken(p, f) {
        assert forall|k: int| 0 <= k < p.len() && p[k].0 as int == f implies #[trigger] p[k].1 == taken(p.take(k), f) by {
            assert(p.take(k) =~= s.take(k));
            assert(p[k] == s[k]);
        }
        lemma_taken_covers(p, f, n);
        let k = choose|k: int| 0 <= k < p.len() && p[k].0 as int == f && #[trigger] p[k].1 == n;
        assert(s[k] == p[k]);
    } else {
        let k = s.len() - 1;
        assert(s[k].1 == taken(s.take(k), f));
    }
}

/// Ties go to the lower file: when every line of every file carries the same
/// timestamp, or none carries one, a merge takes all of file 0's lines, then
/// all of file 1's, and so on (each file's lines in their own order).
pub proof fn lemma_merge_ties_by_file(files: Seq<LogFile>, index: Seq<(u32, u64)>, ts: Option<Seq<u8>>)
    requires
        files.len() <= 0x1_0000_0000,
        is_merge(files, index),
        forall|f: int, n: int| 0 <= f < files.len() && 0 <= n < files[f].num_lines() ==> #[trigger] line_timestamp(files[f], n) == ts,
    ensures
        forall|i: int, j: int| 0 <= i <= j < index.len() ==> #[trigger] index[i].0 <= #[trigger] index[j].0,
{
    assert forall|k: int| 0 <= k < index.len() - 1 implies #[trigger] index[k].0 <= index[k + 1].0 by {
        let f = index[k].0 as int;
        let g = index[k + 1].0 as int;
        assert(merge_picks(files, index.take(k), f));
        assert(merge_picks(files, index.take(k + 1), g));
        lemma_taken_step(index, k, g);
        if g < f {
            assert(taken(index.take(k), g) < files[g].num_lines());
            let tg = line_timestamp(files[g], taken(index.take(k), g));
            let tf = line_timestamp(files[f], taken(index.take(k), f));
            assert(tg == ts && tf == ts);
            match ts {
                Some(a) => {
                    lemma_lex_order(a, a, a, 0);
                },
                None => {},
            }
            assert(head_before(tg, g, taken(index.take(k), g), tf, f, taken(index.take(k), f)));
        }
    }
    assert forall|i: int, j: int| 0 <= i <= j < index.len() implies #[trigger] index[i].0 <= #[trigger] index[j].0 by {
        lemma_file_chain(index, i, j);
    }
}

proof fn lemma_file_chain(index: Seq<(u32, u64)>, i: int, j: int)
    requires
        0 <= i <= j < index.len(),
        forall|k: int| 0 <= k < index.len() - 1 ==> #[trigger] index[k].0 <= index[k + 1].0,
    ensures
        index[i].0 <= index[j].0,
    decreases j - i,
{
    if i < j {
        lemma_file_chain(index, i, j - 1);
        assert(index[j - 1].0 <= index[j].0);
    }
}

/// Each step of a merge takes a head that no other waiting head should
/// precede: a head without a timestamp is taken only when no waiting head
/// has one; between two timestamped heads, a later timestamp (as bytes) is
/// never taken first; and between equal timestamps, or two missing ones,
/// the lower file goes first.
pub proof fn lemma_merge_step_choice(files: Seq<LogFile>, index: Seq<(u32, u64)>, k: int, g: int)
    requires
        is_merge(files, index),
        0 <= k < index.len(),
        0 <= g < files.len(),
        g != index[k].0 as int,
        taken(index.take(k), g) < files[g].num_lines(),
    ensures
        ({
            let f = index[k].0 as int;
            let tf = line_timestamp(files[f], index[k].1 as int);
            let tg = line_timestamp(files[g], taken(index.take(k), g));
            &&& tf is None ==> tg is None
            &&& (tf is Some && tg is Some) ==> !lex_lt(tg->0, tf->0)
            &&& tf == tg ==> f < g
        }),
{
    let f = index[k].0 as int;
    assert(merge_picks(files, index.take(k), f));
    assert(index[k].1 == taken(index.take(k), f));
    let tf = line_timestamp(files[f], index[k].1 as int);
    let tg = line_timestamp(files[g], taken(index.take(k), g));
    assert(!head_before(tg, g, taken(index.take(k), g), tf, f, taken(index.take(k), f)));
    match tf {
        Some(a) => {
            lemma_lex_order(a, a, a, 0);
        },
        None => {},
    }
}

/// Some entry of `index` names line `n` of file `f`.
pub open spec fn names_line(index: Seq<(u32, u64)>, f: int, n: int) -> bool {
    exists|k: int| 0 <= k < index.len() && index[k] == (f as u32, n as u64)
}

/// A merge keeps every file's lines: each entry names a line of its file,
/// the entries of one file come in the file's own line order, and every
/// line of every file is named by some entry (so, with the order, exactly
/// one).
pub proof fn lemma_merge_file_order(files: Seq<LogFile>, index: Seq<(u32, u64)>)
    requires
        files.len() <= 0x1_0000_0000,
        is_merge(files, index),
    ensures
        entries_valid(files, index),
        forall|i: int, j: int|
            0 <= i < j < index.len() && #[trigger] index[i].0 == #[trigger] index[j].0 ==> index[i].1 < index[j].1,
        forall|f: int, n: int| 0 <= f < files.len() && 0 <= n < files[f].num_lines() ==> #[trigger] names_line(index, f, n),
{
    assert forall|i: int, j: int|
        0 <= i < j < index.len() && #[trigger] index[i].0 == #[trigger] index[j].0 implies index[i].1 < index[j].1 by {
        let f = index[i].0 as int;
        assert(index[i].1 == taken(index.take(i), f));
        assert(index[j].1 == taken(index.take(j), f));
        lemma_taken_grows(index, f, i, j);
    }
    assert forall|f: int, n: int| 0 <= f < files.len() && 0 <= n < files[f].num_lines() implies #[trigger] names_line(index, f, n) by {
        assert(taken(index, f) == files[f].num_lines());
        assert forall|k: int| 0 <= k < index.len() && index[k].0 as int == f implies #[trigger] index[k].1
            == taken(index.take(k), f) by {
            assert(merge_picks(files, index.take(k), index[k].0 as int));
        }
        lemma_taken_covers(index, f, n);
        let k = choose|k: int| 0 <= k < index.len() && index[k].0 as int == f && #[trigger] index[k].1 == n;
        assert(index[k] == (f as u32, n as u64));
    }
    assert forall|k: int| 0 <= k < index.len() implies {
        &&& (#[trigger] index[k]).0 < files.len()
        &&& index[k].1 < files[index[k].0 as int].num_lines()
    } by {
        assert(merge_picks(files, index.take(k), index[k].0 as int));
    }
}

/// The timestamp of entry `k` of a merge (empty when its line has none).
pub open spec fn entry_timestamp(files: Seq<LogFile>, index: Seq<(u32, u64)>, k: int) -> Seq<u8> {
    match line_timestamp(files[index[k].0 as int], index[k].1 as int) {
        Some(t) => t,
        None => seq![],
    }
}

/// When every line of every file carries a timestamp and each file's
/// timestamps never go back, a merge's timestamps never go back either
/// (timestamps compare as byte strings).
pub proof fn lemma_merge_chronological(files: Seq<LogFile>, index: Seq<(u32, u64)>)
    requires
        files.len() <= 0x1_0000_0000,
        is_merge(files, index),
        forall|f: int, n: int| 0 <= f < files.len() && 0 <= n < files[f].num_lines() ==> (#[trigger] line_timestamp(files[f], n)) is Some,
        forall|f: int, m: int, n: int|
            0 <= f < files.len() && 0 <= m <= n < files[f].num_lines() ==> !lex_lt(
                #[trigger] line_timestamp(files[f], n)->0,
                #[trigger] line_timestamp(files[f], m)->0,
            ),
    ensures
        forall|i: int, j: int| 0 <= i <= j < index.len() ==> !lex_lt(
            #[trigger] entry_timestamp(files, index, j),
            #[trigger] entry_timestamp(files, index, i),
        ),
{
    lemma_merge_file_order(files, index);
    assert forall|k: int| 0 <= k < index.len() - 1 implies !lex_lt(
        entry_timestamp(files, index, k + 1),
        #[trigger] entry_timestamp(files, index, k),
    ) by {
        let f = index[k].0 as int;
        let g = index[k + 1].0 as int;
        assert(merge_picks(files, index.take(k), f));
        assert(merge_picks(files, index.take(k + 1), g));
        assert(index[k].1 == taken(index.take(k), f));
        assert(index[k + 1].1 == taken(index.take(k + 1), g));
        lemma_taken_step(index, k, g);
        lemma_taken_step(index, k, f);
        if g == f {
            assert(line_timestamp(files[f], index[k + 1].1 as int) is Some);
            assert(line_timestamp(files[f], index[k].1 as int) is Some);
        } else {
            assert(taken(index.take(k), g) < files[g].num_lines());
            let tg = line_timestamp(files[g], taken(index.take(k), g));
            let tf = line_timestamp(files[f], taken(index.take(k), f));
            assert(tg is Some && tf is Some);
            assert(!head_before(tg, g, taken(index.take(k), g), tf, f, taken(index.take(k), f)));
        }
    }
    assert forall|i: int, j: int| 0 <= i <= j < index.len() implies !lex_lt(
        #[trigger] entry_timestamp(files, index, j),
        #[trigger] entry_timestamp(files, index, i),
    ) by {
        lemma_chain(files, index, i, j);
    }
}

proof fn lemma_chain(files: Seq<LogFile>, index: Seq<(u32, u64)>, i: int, j: int)
    requires
        0 <= i <= j < index.len(),
        forall|k: int| 0 <= k < index.len() - 1 ==> !lex_lt(
            entry_timestamp(files, index, k + 1),
            #[trigger] entry_timestamp(files, index, k),
        ),
    ensures
        !lex_lt(entry_timestamp(files, index, j), entry_timestamp(files, index, i)),
    decreases j - i,
{
    let ti = entry_timestamp(files, index, i);
    if i == j {
        lemma_lex_order(ti, ti, ti, 0);
    } else {
        lemma_chain(files, index, i, j - 1);
        let tj = entry_timestamp(files, index, j);
        let tp = entry_timestamp(files, index, j - 1);
        assert(!lex_lt(tj, tp));
        lemma_lex_order(tj, tp, ti, 0);
    }
}

/// A Session is a collection of one or more LogFiles, merged chronologically.
#[derive(Debug, Clone)]
pub struct Session {
    files: Vec<LogFile>,
    /// Maps a session line number to (source index, line number in that source).
    index: Vec<(u32, u64)>,
}

/// The timestamp of a line, as `line` reports it.
fn timestamp_of(file: &LogFile, n: u64) -> (r: Option<String>)
    requires
        file.wf(),
        n < file.num_lines(),
    ensures
        opt_bytes(r) == line_timestamp(*file, n as int),
{
    match file.line(n) {
        Ok(line) => match line.parsed {
            Some(p) => p.timestamp,
            None => None,
        },
        Err(_) => None,
    }
}

/// Whether head `(ta, fa, na)` goes before head `(tb, fb, nb)`.
fn goes_before(ta: &Option<String>, fa: u32, na: u64, tb: &Option<String>, fb: u32, nb: u64) -> (r: bool)
    ensures
        r == head_before(opt_bytes(*ta), fa as int, na as int, opt_bytes(*tb), fb as int, nb as int),
{
    let tie = fa < fb || (fa == fb && na < nb);
    match (ta, tb) {
        (Some(a), Some(b)) => {
            if bytes_lt(a.as_str().as_bytes(), b.as_str().as_bytes()) {
                true
            } else {
                bytes_eq(a.as_str().as_bytes(), b.as_str().as_bytes()) && tie
            }
        },
        (Some(_), None) => true,
        (None, Some(_)) => false,
        (None, None) => tie,
    }
}

/// The file whose head goes first among those with lines left, if any.
fn pick_head(heads: &Vec<u64>, counts: &Vec<u64>, head_ts: &Vec<Option<String>>) -> (r: Option<usize>)
    requires
        heads@.len() == counts@.len(),
        head_ts@.len() == counts@.len(),
        counts@.len() <= 0x1_0000_0000,
    ensures
        r is None ==> forall|h: int| 0 <= h < counts@.len() ==> #[trigger] heads@[h] >= counts@[h],
        r matches Some(b) ==> {
            &&& b < counts@.len()
            &&& heads@[b as int] < counts@[b as int]
            &&& forall|h: int|
                0 <= h < counts@.len() && h != b && #[trigger] heads@[h] < counts@[h] ==> !head_before(
                    opt_bytes(head_ts@[h]),
                    h,
                    heads@[h] as int,
                    opt_bytes(head_ts@[b as int]),
                    b as int,
                    heads@[b as int] as int,
                )
        },
{
    let n = counts.len();
    let mut best: Option<usize> = None;
    let mut g: usize = 0;
    while g < n
        invariant
            n == counts@.len(),
            heads@.len() == n,
            head_ts@.len() == n,
            n <= 0x1_0000_0000,
            g <= n,
            best matches Some(b) ==> b < g && heads@[b as int] < counts@[b as int],
            best is None ==> forall|h: int| 0 <= h < g ==> #[trigger] heads@[h] >= counts@[h],
            best matches Some(b) ==> forall|h: int|
                0 <= h < g && h != b && #[trigger] heads@[h] < counts@[h] ==> !head_before(
                    opt_bytes(head_ts@[h]),
                    h,
                    heads@[h] as int,
                    opt_bytes(head_ts@[b as int]),
                    b as int,
                    heads@[b as int] as int,
                ),
        decreases n - g,
    {
        if heads[g] < counts[g] {
            match best {
                None => {
                    best = Some(g);
                },
                Some(b) => {
                    if goes_before(&head_ts[g], g as u32, heads[g], &head_ts[b], b as u32, heads[b]) {
                        proof {
                            let tg = opt_bytes(head_ts@[g as int]);
                            let tb = opt_bytes(head_ts@[b as int]);
                            assert forall|h: int|
                                0 <= h < g + 1 && h != g && #[trigger] heads@[h] < counts@[h] implies !head_before(
                                    opt_bytes(head_ts@[h]),
                                    h,
                                    heads@[h] as int,
                                    tg,
                                    g as int,
                                    heads@[g as int] as int,
                                ) by {
                                let th = opt_bytes(head_ts@[h]);
                                if head_before(th, h, heads@[h] as int, tg, g as int, heads@[g as int] as int) {
                                    lemma_head_before_transitive(
                                        th,
                                        h,
                                        heads@[h] as int,
                                        tg,
                                        g as int,
                                        heads@[g as int] as int,
                                        tb,
                                        b as int,
                                        heads@[b as int] as int,
                                    );
                                    if h == b {
                                        match th {
                                            Some(a) => {
                                                lemma_lex_order(a, a, a, 0);
                                            },
                                            None => {},
                                        }
                                    }
                                }
                            }
                        }
                        best = Some(g);
                    }
                },
            }
        }
        g += 1;
    }
    best
}

/// Every entry names a line of one of the files.
pub open spec fn entries_valid(files: Seq<LogFile>, index: Seq<(u32, u64)>) -> bool {
    forall|k: int| 0 <= k < index.len() ==> {
        &&& (#[trigger] index[k]).0 < files.len()
        &&& index[k].1 < files[index[k].0 as int].num_lines()
    }
}

/// The steps of `index` so far each took the head that goes first.
pub open spec fn merge_steps(files: Seq<LogFile>, index: Seq<(u32, u64)>) -> bool {
    forall|k: int| 0 <= k < index.len() ==> {
        &&& merge_picks(files, #[trigger] index.take(k), index[k].0 as int)
        &&& index[k].1 == taken(index.take(k), index[k].0 as int)
    }
}

/// The lines of a single file, in order.
fn single_file_index(files: &Vec<LogFile>) -> (index: Vec<(u32, u64)>)
    requires
        files@.len() == 1,
        files@[0].wf(),
    ensures
        entries_valid(files@, index@),
        is_merge(files@, index@),
{
    let count = files[0].line_count();
    let mut index: Vec<(u32, u64)> = Vec::new();
    let mut j: u64 = 0;
    while j < count
        invariant
            files@.len() == 1,
            files@[0].wf(),
            count == files@[0].num_lines(),
            j <= count,
            index@.len() == j,
            forall|k: int| 0 <= k < j ==> #[trigger] index@[k] == (0u32, k as u64),
            taken(index@, 0) == j,
            merge_steps(files@, index@),
        decreases count - j,
    {
        let ghost before = index@;
        index.push((0, j));
        proof {
            assert(index@.drop_last() =~= before);
            assert forall|k: int| 0 <= k < index@.len() implies {
                &&& merge_picks(files@, #[trigger] index@.take(k), index@[k].0 as int)
                &&& index@[k].1 == taken(index@.take(k), index@[k].0 as int)
            } by {
                if k < before.len() {
                    assert(index@.take(k) =~= before.take(k));
                } else {
                    assert(index@.take(k) =~= before);
                }
            }
        }
        j += 1;
    }
    proof {
        assert forall|k: int| 0 <= k < index@.len() implies {
            &&& (#[trigger] index@[k]).0 < files@.len()
            &&& index@[k].1 < files@[index@[k].0 as int].num_lines()
        } by {
            assert(index@[k] == (0u32, k as u64));
        }
    }
    index
}

/// Taking the chosen head keeps every earlier step and adds a valid one.
proof fn lemma_merge_step(files: Seq<LogFile>, old_index: Seq<(u32, u64)>, b: int, heads: Seq<u64>, counts: Seq<u64>, ts: Seq<Option<String>>)
    requires
        merge_steps(files, old_index),
        0 <= b < files.len(),
        files.len() <= 0x1_0000_0000,
        heads.len() == files.len(),
        counts.len() == files.len(),
        ts.len() == files.len(),
        forall|f: int| 0 <= f < files.len() ==> #[trigger] counts[f] == files[f].num_lines(),
        forall|f: int| 0 <= f < files.len() ==> #[trigger] heads[f] == taken(old_index, f),
        forall|f: int| 0 <= f < files.len() && heads[f] < counts[f] ==> opt_bytes(#[trigger] ts[f])
            == line_timestamp(files[f], heads[f] as int),
        heads[b] < counts[b],
        forall|h: int|
            0 <= h < counts.len() && h != b && #[trigger] heads[h] < counts[h] ==> !head_before(
                opt_bytes(ts[h]),
                h,
                heads[h] as int,
                opt_bytes(ts[b]),
                b,
                heads[b] as int,
            ),
    ensures
        merge_steps(files, old_index.push((b as u32, heads[b]))),
        forall|f: int| 0 <= f < files.len() ==> #[trigger] taken(old_index.push((b as u32, heads[b])), f)
            == taken(old_index, f) + if f == b { 1int } else { 0int },
{
    let index = old_index.push((b as u32, heads[b]));
    assert(index.drop_last() =~= old_index);
    assert forall|k: int| 0 <= k < index.len() implies {
        &&& merge_picks(files, #[trigger] index.take(k), index[k].0 as int)
        &&& index[k].1 == taken(index.take(k), index[k].0 as int)
    } by {
        if k < old_index.len() {
            assert(index.take(k) =~= old_index.take(k));
        } else {
            assert(index.take(k) =~= old_index);
            assert forall|h: int|
                0 <= h < files.len() && h != b && taken(old_index, h) < files[h].num_lines() implies !head_before(
                    line_timestamp(files[h], taken(old_index, h)),
                    h,
                    taken(old_index, h),
                    line_timestamp(files[b], taken(old_index, b)),
                    b,
                    taken(old_index, b),
                ) by {
                assert(heads[h] < counts[h]);
            }
        }
    }
}

/// The chronological merge of several files.
fn merged_index(files: &Vec<LogFile>) -> (index: Vec<(u32, u64)>)
    requires
        files@.len() > 1,
        files@.len() <= 0x1_0000_0000,
        forall|f: int| 0 <= f < files@.len() ==> #[trigger] files@[f].wf(),
    ensures
        entries_valid(files@, index@),
        is_merge(files@, index@),
{
    let nfiles = files.len();
    let mut counts: Vec<u64> = Vec::new();
    let mut heads: Vec<u64> = Vec::new();
    let mut head_ts: Vec<Option<String>> = Vec::new();
    let mut i: usize = 0;
    while i < nfiles
        invariant
            nfiles == files@.len(),
            forall|f: int| 0 <= f < files@.len() ==> #[trigger] files@[f].wf(),
            i <= nfiles,
            counts@.len() == i,
            heads@.len() == i,
            head_ts@.len() == i,
            forall|f: int| 0 <= f < i ==> #[trigger] counts@[f] == files@[f].num_lines(),
            forall|f: int| 0 <= f < i ==> #[trigger] heads@[f] == 0,
            forall|f: int| 0 <= f < i && 0 < files@[f].num_lines() ==> opt_bytes(#[trigger] head_ts@[f])
                == line_timestamp(files@[f], 0),
        decreases nfiles - i,
    {
        let c = files[i].line_count();
        counts.push(c);
        heads.push(0);
        if c > 0 {
            head_ts.push(timestamp_of(&files[i], 0));
        } else {
            head_ts.push(None);
        }
        i += 1;
    }
    let mut index: Vec<(u32, u64)> = Vec::new();
    let ghost cs = counts@.map_values(|c: u64| c as int);
    loop
        invariant
            nfiles == files@.len(),
            nfiles <= 0x1_0000_0000,
            forall|f: int| 0 <= f < files@.len() ==> #[trigger] files@[f].wf(),
            counts@.len() == nfiles,
            heads@.len() == nfiles,
            head_ts@.len() == nfiles,
            cs == counts@.map_values(|c: u64| c as int),
            forall|f: int| 0 <= f < nfiles ==> #[trigger] counts@[f] == files@[f].num_lines(),
            forall|f: int| 0 <= f < nfiles ==> #[trigger] heads@[f] <= counts@[f],
            forall|f: int| 0 <= f < nfiles ==> #[trigger] heads@[f] == taken(index@, f),
            forall|f: int| 0 <= f < nfiles && heads@[f] < counts@[f] ==> opt_bytes(#[trigger] head_ts@[f])
                == line_timestamp(files@[f], heads@[f] as int),
            merge_steps(files@, index@),
            entries_valid(files@, index@),
        ensures
            forall|f: int| 0 <= f < nfiles ==> #[trigger] heads@[f] == counts@[f],
            forall|f: int| 0 <= f < nfiles ==> #[trigger] heads@[f] == taken(index@, f),
            merge_steps(files@, index@),
            entries_valid(files@, index@),
        decreases remaining(cs, heads@.map_values(|h: u64| h as int), nfiles as int),
    {
        let best = pick_head(&heads, &counts, &head_ts);
        let b = match best {
            Some(b) => b,
            None => break,
        };
        let n = heads[b];
        let ghost old_heads = heads@;
        let ghost old_index = index@;
        proof {
            lemma_merge_step(files@, old_index, b as int, heads@, counts@, head_ts@);
        }
        index.push((b as u32, n));
        let next = n + 1;
        heads.set(b, next);
        proof {
            assert forall|f: int| 0 <= f < nfiles implies #[trigger] heads@[f] == taken(index@, f) by {
                assert(taken(index@, f) == taken(old_index, f) + if f == b as int { 1int } else { 0int });
            }
            assert forall|k: int| 0 <= k < index@.len() implies {
                &&& (#[trigger] index@[k]).0 < files@.len()
                &&& index@[k].1 < files@[index@[k].0 as int].num_lines()
            } by {
                if k < old_index.len() {
                    assert(index@[k] == old_index[k]);
                }
            }
            let hv = old_heads.map_values(|h: u64| h as int);
            assert(heads@.map_values(|h: u64| h as int) =~= hv.update(b as int, hv[b as int] + 1));
            lemma_remaining_step(cs, hv, b as int, nfiles as int);
            lemma_remaining_nonneg(cs, hv.update(b as int, hv[b as int] + 1), nfiles as int);
        }
        if next < counts[b] {
            let ts = timestamp_of(&files[b], next);
            head_ts.set(b, ts);
        }
    }
    proof {
        assert forall|f: int| 0 <= f < files@.len() implies #[trigger] taken(index@, f) == files@[f].num_lines() by {
            assert(heads@[f] == counts@[f]);
        }
    }
    index
}

impl Session {
    pub closed spec fn sources(&self) -> Seq<LogFile> {
        self.files@
    }

    pub closed spec fn order(&self) -> Seq<(u32, u64)> {
        self.index@
    }

    /// Number of lines of the session.
    pub open spec fn num_lines(&self) -> int {
        self.order().len() as int
    }

    /// Every file is a valid index, and every entry names a line of one.
    pub closed spec fn wf(&self) -> bool {
        &&& self.files@.len() <= 0x1_0000_0000
        &&& forall|f: int| 0 <= f < self.files@.len() ==> #[trigger] self.files@[f].wf()
        &&& entries_valid(self.files@, self.index@)
    }

    /// Session line `n`, numbered `number`, with its source.
    pub open spec fn entry_as(&self, n: int, number: int) -> SessionLineView {
        let (f, l) = self.order()[n];
        SessionLineView { line: self.sources()[f as int].line_at(l as int, number), source_id: f }
    }

    /// Session line `n`, numbered `n`, with its source.
    pub open spec fn entry(&self, n: int) -> SessionLineView {
        self.entry_as(n, n)
    }

    /// Builds a session over `files`. No file gives an empty session; one
    /// file gives its lines in order; several files are merged
    /// chronologically by the timestamps their lines carry (see `is_merge`).
    pub fn new(files: Vec<LogFile>) -> (r: Session)
        requires
            files@.len() <= 0x1_0000_0000,
            forall|f: int| 0 <= f < files@.len() ==> #[trigger] files@[f].wf(),
        ensures
            r.wf(),
            r.sources() == files@,
            is_merge(files@, r.order()),
    {
        if files.len() == 0 {
            return Session { files, index: Vec::new() };
        }
        let index = if files.len() == 1 {
            single_file_index(&files)
        } else {
            merged_index(&files)
        };
        Session { files, index }
    }

    /// Number of lines in the session.
    pub fn line_count(&self) -> (r: u64)
        ensures
            r == self.num_lines(),
    {
        self.index.len() as u64
    }

    /// Reads session line `n`, numbered `n`, with its source; an index at or
    /// past the end is refused.
    pub fn line(&self, n: u64) -> (r: Result<SessionLine, Error>)
        requires
            self.wf(),
        ensures
            n >= self.num_lines() <==> r is Err,
            r matches Err(e) ==> e matches Error::LineOutOfRange { requested, total }
                && requested == n && total == self.num_lines(),
            r matches Ok(l) ==> l@ == self.entry(n as int),
    {
        let len = self.index.len();
        if n >= len as u64 {
            return Err(Error::LineOutOfRange { requested: n, total: len as u64 });
        }
        let (file_idx, local_n) = self.index[n as usize];
        let file = &self.files[file_idx as usize];
        let mut line = match file.line(local_n) {
            Ok(l) => l,
            Err(e) => return Err(e),
        };
        line.number = n;
        Ok(SessionLine { line, source_id: file_idx })
    }

    /// Reads a contiguous range of session lines, clamped to the session's
    /// length; a range that is reversed once clamped is empty.
    pub fn range(&self, range: std::ops::Range<u64>) -> (r: Vec<SessionLine>)
        requires
            self.wf(),
        ensures
            r@.len() == range_count(range.start, range.end, self.num_lines()),
            forall|k: int| 0 <= k < r@.len() ==> #[trigger] r@[k]@ == self.entry(
                clamp(range.start, self.num_lines()) + k,
            ),
    {
        let total = self.line_count();
        let start = if range.start < total { range.start } else { total };
        let end = if range.end < total { range.end } else { total };
        let end = if end < start { start } else { end };
        let mut out: Vec<SessionLine> = Vec::with_capacity((end - start) as usize);
        let mut i = start;
        while i < end
            invariant
                self.wf(),
                total == self.num_lines(),
                start == clamp(range.start, self.num_lines()),
                end == start + range_count(range.start, range.end, self.num_lines()),
                start <= i <= end <= total,
                out@.len() == i - start,
                forall|k: int| 0 <= k < out@.len() ==> #[trigger] out@[k]@ == self.entry(start + k),
            decreases end - i,
        {
            if let Ok(line) = self.line(i) {
                out.push(line);
            }
            i += 1;
        }
        out
    }
}

// ---------------------------------------------------------------------------
// Views
// ---------------------------------------------------------------------------

/// The level that parsing finds in session line `n`.
pub open spec fn entry_level(s: Session, n: int) -> Option<LogLevel> {
    match s.entry(n).line.parsed {
        Some(p) => p.level,
        None => None,
    }
}

/// A view keeps session line `n`: every line when no level is asked for,
/// else the lines whose level is one of `levels`.
pub open spec fn keeps(s: Session, levels: Seq<LogLevel>, n: int) -> bool {
    levels.len() == 0 || (entry_level(s, n) matches Some(l) && levels.contains(l))
}

/// The session lines below `upto` that a view keeps, in order.
pub open spec fn kept_lines(s: Session, levels: Seq<LogLevel>, upto: int) -> Seq<u64>
    decreases upto,
{
    if upto <= 0 {
        seq![]
    } else {
        let rest = kept_lines(s, levels, upto - 1);
        if keeps(s, levels, upto - 1) {
            rest.push((upto - 1) as u64)
        } else {
            rest
        }
    }
}

/// Whether session line `n` carries one of the levels asked for (every line
/// does when none is asked for).
pub open spec fn level_asked(s: Session, levels: Seq<LogLevel>, n: int) -> bool {
    levels.len() == 0 || match s.entry(n).line.parsed {
        Some(p) => match p.level {
            Some(l) => levels.contains(l),
            None => false,
        },
        None => false,
    }
}

/// A filtered view shows, in increasing session order, exactly the session
/// lines below `upto` whose parsed level is one of `levels`, or every line
/// when `levels` is empty; lines without a parsed level are shown only then.
pub proof fn lemma_kept_lines(s: Session, levels: Seq<LogLevel>, upto: int)
    requires
        0 <= upto < 0x1_0000_0000_0000_0000,
    ensures
        forall|i: int, j: int| 0 <= i < j < kept_lines(s, levels, upto).len() ==> #[trigger] kept_lines(s, levels, upto)[i]
            < #[trigger] kept_lines(s, levels, upto)[j],
        forall|i: int| 0 <= i < kept_lines(s, levels, upto).len() ==> {
            &&& #[trigger] kept_lines(s, levels, upto)[i] < upto
            &&& level_asked(s, levels, kept_lines(s, levels, upto)[i] as int)
        },
        forall|n: int| 0 <= n < upto && #[trigger] level_asked(s, levels, n) ==> kept_lines(s, levels, upto).contains(n as u64),
    decreases upto,
{
    if upto > 0 {
        lemma_kept_lines(s, levels, upto - 1);
        let rest = kept_lines(s, levels, upto - 1);
        let all = kept_lines(s, levels, upto);
        assert(keeps(s, levels, upto - 1) == level_asked(s, levels, upto - 1));
        if keeps(s, levels, upto - 1) {
            assert(all == rest.push((upto - 1) as u64));
            assert forall|n: int| 0 <= n < upto && #[trigger] level_asked(s, levels, n) implies all.contains(n as u64) by {
                if n < upto - 1 {
                    assert(rest.contains(n as u64));
                    let k = choose|k: int| 0 <= k < rest.len() && rest[k] == n as u64;
                    assert(all[k] == rest[k]);
                } else {
                    assert(all[rest.len() as int] == n as u64);
                }
            }
            assert forall|i: int| 0 <= i < all.len() implies {
                &&& #[trigger] all[i] < upto
                &&& level_asked(s, levels, all[i] as int)
            } by {
                if i < rest.len() {
                    assert(all[i] == rest[i]);
                }
            }
            assert forall|i: int, j: int| 0 <= i < j < all.len() implies #[trigger] all[i] < #[trigger] all[j] by {
                if j < rest.len() {
                    assert(all[i] == rest[i] && all[j] == rest[j]);
                } else {
                    assert(all[i] == rest[i]);
                }
            }
        } else {
            assert forall|n: int| 0 <= n < upto && #[trigger] level_asked(s, levels, n) implies all.contains(n as u64) by {
                assert(n < upto - 1);
            }
        }
    }
}

/// A View is a filtered subset of a Session, possibly re-ordered by a column.
#[derive(Debug, Clone)]
pub struct View {
    session: Arc<Session>,
    /// Session line numbers of the lines shown, in display order.
    indices: Vec<u64>,
    sort_column: Option<String>,
    sort_direction: Option<String>,
}

/// How a level prints with `{:?}`.
pub open spec fn level_name(l: LogLevel) -> Seq<char> {
    match l {
        LogLevel::Trace => "Trace"@,
        LogLevel::Debug => "Debug"@,
        LogLevel::Info => "Info"@,
        LogLevel::Warn => "Warn"@,
        LogLevel::Error => "Error"@,
        LogLevel::Fatal => "Fatal"@,
    }
}

/// How an optional level prints with `{:?}`: `None` or `Some(Level)`.
pub open spec fn level_debug(l: Option<LogLevel>) -> Seq<char> {
    match l {
        None => "None"@,
        Some(x) => "Some("@ + level_name(x) + ")"@,
    }
}

/// The bytes a line is sorted by for a column: `timestamp`, `level` (as it
/// prints), `component`, `message` (the whole text when none was parsed),
/// and the line number in decimal for any other column; empty when a field
/// is missing or there is no line.
pub open spec fn sort_key(line: Option<SessionLineView>, column: Seq<char>) -> Seq<u8> {
    match line {
        None => seq![],
        Some(l) => {
            let parsed = l.line.parsed;
            if column == "timestamp"@ {
                match parsed {
                    Some(p) => match p.timestamp {
                        Some(t) => t,
                        None => seq![],
                    },
                    None => seq![],
                }
            } else if column == "level"@ {
                encode_utf8(level_debug(match parsed {
                    Some(p) => p.level,
                    None => None,
                }))
            } else if column == "component"@ {
                match parsed {
                    Some(p) => match p.component {
                        Some(c) => c,
                        None => seq![],
                    },
                    None => seq![],
                }
            } else if column == "message"@ {
                match parsed {
                    Some(p) => match p.message {
                        Some(m) => m,
                        None => encode_utf8(l.line.text),
                    },
                    None => encode_utf8(l.line.text),
                }
            } else {
                encode_utf8(decimal_chars(l.line.number as nat))
            }
        },
    }
}

/// What each column sorts a line by: `timestamp` its parsed timestamp,
/// `component` its parsed component, `message` its parsed message (its text
/// when none was parsed), each as UTF-8 bytes and empty when missing; `level`
/// the level as `{:?}` prints it; any other column the line number in
/// decimal. Each key depends on its own field only; no line has the empty key.
pub proof fn lemma_sort_key_columns(l: SessionLineView, other: Seq<char>)
    requires
        other != "timestamp"@,
        other != "level"@,
        other != "component"@,
        other != "message"@,
        l.line.number >= 0,
    ensures
        sort_key(Some(l), "timestamp"@) == match l.line.parsed {
            Some(p) => match p.timestamp {
                Some(t) => t,
                None => Seq::<u8>::empty(),
            },
            None => Seq::<u8>::empty(),
        },
        sort_key(Some(l), "component"@) == match l.line.parsed {
            Some(p) => match p.component {
                Some(c) => c,
                None => Seq::<u8>::empty(),
            },
            None => Seq::<u8>::empty(),
        },
        sort_key(Some(l), "message"@) == match l.line.parsed {
            Some(p) => match p.message {
                Some(m) => m,
                None => encode_utf8(l.line.text),
            },
            None => encode_utf8(l.line.text),
        },
        sort_key(Some(l), "level"@) == encode_utf8(
            match l.line.parsed {
                Some(p) => match p.level {
                    Some(x) => "Some("@ + level_name(x) + ")"@,
                    None => "None"@,
                },
                None => "None"@,
            },
        ),
        sort_key(Some(l), other) == encode_utf8(decimal_chars(l.line.number as nat)),
        forall|c: Seq<char>| #[trigger] sort_key(None, c) == Seq::<u8>::empty(),
{
    reveal_strlit("timestamp");
    reveal_strlit("level");
    reveal_strlit("component");
    reveal_strlit("message");
    assert("timestamp"@ != "level"@) by {
        assert("timestamp"@.len() != "level"@.len());
    }
    assert("timestamp"@ != "component"@) by {
        assert("timestamp"@[0] != "component"@[0]);
    }
    assert("timestamp"@ != "message"@) by {
        assert("timestamp"@[0] != "message"@[0]);
    }
    assert("level"@ != "component"@) by {
        assert("level"@.len() != "component"@.len());
    }
    assert("level"@ != "message"@) by {
        assert("level"@.len() != "message"@.len());
    }
    assert("component"@ != "message"@) by {
        assert("component"@.len() != "message"@.len());
    }
}

fn level_text(l: Option<LogLevel>) -> (r: String)
    ensures
        r@ == level_debug(l),
{
    match l {
        None => "None".to_owned(),
        Some(x) => {
            let mut s = "Some(".to_owned();
            let name = match x {
                LogLevel::Trace => "Trace",
                LogLevel::Debug => "Debug",
                LogLevel::Info => "Info",
                LogLevel::Warn => "Warn",
                LogLevel::Error => "Error",
                LogLevel::Fatal => "Fatal",
            };
            s.append(name);
            s.append(")");
            s
        },
    }
}

/// The text a line is sorted by for a column (see `sort_key`).
fn get_sort_value(line: Option<SessionLine>, column: &str) -> (r: String)
    requires
        line matches Some(l) ==> l.line.number >= 0,
    ensures
        encode_utf8(r@) == sort_key(
            match line {
                Some(l) => Some(l@),
                None => None,
            },
            column@,
        ),
{
    let sline = match line {
        Some(l) => l,
        None => return String::new(),
    };
    proof {
        vstd::utf8::encode_utf8_valid_utf8(Seq::<char>::empty());
        assert(encode_utf8(Seq::<char>::empty()) =~= Seq::<u8>::empty());
    }
    if str_eq(column, "timestamp") {
        match sline.line.parsed {
            Some(p) => match p.timestamp {
                Some(t) => t,
                None => String::new(),
            },
            None => String::new(),
        }
    } else if str_eq(column, "level") {
        let lv = match sline.line.parsed {
            Some(p) => p.level,
            None => None,
        };
        level_text(lv)
    } else if str_eq(column, "component") {
        match sline.line.parsed {
            Some(p) => match p.component {
                Some(c) => c,
                None => String::new(),
            },
            None => String::new(),
        }
    } else if str_eq(column, "message") {
        match sline.line.parsed {
            Some(p) => match p.message {
                Some(m) => m,
                None => sline.line.text,
            },
            None => sline.line.text,
        }
    } else {
        u64_to_string(sline.line.number)
    }
}

/// A line's sort key and its session line number.
pub struct SortItem {
    pub key: Vec<u8>,
    pub index: u64,
}

impl vstd::prelude::View for SortItem {
    type V = (Seq<u8>, u64);

    open spec fn view(&self) -> (Seq<u8>, u64) {
        (self.key@, self.index)
    }
}

impl KeyOrder for (Seq<u8>, u64) {
    open spec fn key_lt(self, other: Self) -> bool {
        lex_lt(self.0, other.0)
    }

    proof fn lemma_key_order(a: Self, b: Self, c: Self) {
        lemma_lex_order(a.0, b.0, c.0, 0);
    }
}

impl Ordered for SortItem {
    fn lt(&self, other: &Self) -> (r: bool) {
        bytes_lt(self.key.as_slice(), other.key.as_slice())
    }
}

/// The sort items of a selection for a column.
pub open spec fn sort_items(s: Session, selection: Seq<u64>, column: Seq<char>) -> Seq<(Seq<u8>, u64)> {
    selection.map_values(|i: u64| (sort_key(Some(s.entry(i as int)), column), i))
}

impl View {
    pub closed spec fn shared(&self) -> Session {
        *self.session
    }

    pub closed spec fn selection(&self) -> Seq<u64> {
        self.indices@
    }

    pub closed spec fn column(&self) -> Option<String> {
        self.sort_column
    }

    pub closed spec fn direction(&self) -> Option<String> {
        self.sort_direction
    }

    /// Number of lines in the view.
    pub open spec fn num_lines(&self) -> int {
        self.selection().len() as int
    }

    /// The session is valid and every shown line is one of its lines.
    pub closed spec fn wf(&self) -> bool {
        &&& self.session.wf()
        &&& forall|k: int| 0 <= k < self.indices@.len() ==> #[trigger] self.indices@[k] < self.session.num_lines()
    }

    /// A view of `session` keeping the lines whose level is in `levels`
    /// (all lines when `levels` is empty), unsorted.
    pub fn new(session: Arc<Session>, levels: Vec<LogLevel>) -> (r: View)
        requires
            session.wf(),
        ensures
            r.wf(),
            r.shared() == *session,
            r.selection() == kept_lines(*session, levels@, session.num_lines()),
            r.column() is None,
            r.direction() is None,
    {
        let count = session.line_count();
        let mut indices: Vec<u64> = Vec::new();
        let mut i: u64 = 0;
        while i < count
            invariant
                session.wf(),
                count == session.num_lines(),
                i <= count,
                indices@ == kept_lines(*session, levels@, i as int),
                forall|k: int| 0 <= k < indices@.len() ==> #[trigger] indices@[k] < i,
            decreases count - i,
        {
            if levels.len() == 0 {
                indices.push(i);
            } else {
                if let Ok(sline) = session.line(i) {
                    if let Some(parsed) = sline.line.parsed {
                        if let Some(level) = parsed.level {
                            if contains_level(&levels, level) {
                                indices.push(i);
                            }
                        }
                    }
                }
            }
            i += 1;
        }
        View { session, indices, sort_column: None, sort_direction: None }
    }

    /// Re-orders the shown lines by a column (see `sort_key`), ascending
    /// when `direction` is `"asc"` and descending otherwise, keeping the
    /// order of lines with equal keys.
    pub fn sort(&mut self, column: String, direction: String)
        requires
            old(self).wf(),
        ensures
            final(self).wf(),
            final(self).shared() == old(self).shared(),
            final(self).selection() == stable_sort(
                sort_items(old(self).shared(), old(self).selection(), column@),
                direction@ != "asc"@,
            ).map_values(|p: (Seq<u8>, u64)| p.1),
            final(self).selection().to_multiset() == old(self).selection().to_multiset(),
            forall|i: int, j: int| 0 <= i < j < final(self).num_lines() ==> {
                let ki = sort_key(Some(old(self).shared().entry(#[trigger] final(self).selection()[i] as int)), column@);
                let kj = sort_key(Some(old(self).shared().entry(#[trigger] final(self).selection()[j] as int)), column@);
                if direction@ == "asc"@ {
                    !lex_lt(kj, ki)
                } else {
                    !lex_lt(ki, kj)
                }
            },
            final(self).column() == Some(column),
            final(self).direction() == Some(direction),
    {
        let ghost s = self.shared();
        let ghost sel = self.indices@;
        let n = self.indices.len();
        let mut items: Vec<SortItem> = Vec::new();
        let mut k: usize = 0;
        while k < n
            invariant
                s == *self.session,
                sel == self.indices@,
                self.wf(),
                n == sel.len(),
                k <= n,
                items@.len() == k,
                forall|j: int| 0 <= j < k ==> (#[trigger] items@[j])@ == sort_items(s, sel, column@)[j],
            decreases n - k,
        {
            let idx = self.indices[k];
            let line = match self.session.line(idx) {
                Ok(l) => Some(l),
                Err(_) => None,
            };
            let value = get_sort_value(line, column.as_str());
            items.push(SortItem { key: value.as_str().as_bytes_vec(), index: idx });
            k += 1;
        }
        proof {
            assert(views(items@) =~= sort_items(s, sel, column@));
        }
        let descending = !str_eq(direction.as_str(), "asc");
        stable_sort_by_key(&mut items, descending);
        let mut sorted: Vec<u64> = Vec::new();
        let mut k: usize = 0;
        let ghost result = stable_sort(sort_items(s, sel, column@), descending);
        proof {
            crate::sort::lemma_stable_sort_sorted(sort_items(s, sel, column@), descending);
        }
        while k < n
            invariant
                views(items@) == result,
                result.len() == n,
                k <= n,
                sorted@.len() == k,
                forall|j: int| 0 <= j < k ==> #[trigger] sorted@[j] == result[j].1,
            decreases n - k,
        {
            proof {
                assert(views(items@)[k as int] == items@[k as int]@);
            }
            sorted.push(items[k].index);
            k += 1;
        }
        proof {
            let second = |p: (Seq<u8>, u64)| p.1;
            assert(sorted@ =~= result.map_values(second));
            crate::sort::lemma_stable_sort_permutes(sort_items(s, sel, column@), descending, second);
            let items_spec = sort_items(s, sel, column@);
            crate::sort::lemma_stable_sort_permutes(items_spec, descending, |p: (Seq<u8>, u64)| p);
            assert(items_spec.map_values(|p: (Seq<u8>, u64)| p) =~= items_spec);
            assert(result.map_values(|p: (Seq<u8>, u64)| p) =~= result);
            assert forall|j: int| 0 <= j < result.len() implies #[trigger] result[j].0 == sort_key(
                Some(s.entry(result[j].1 as int)),
                column@,
            ) by {
                broadcast use vstd::seq_lib::group_to_multiset_ensures;
                assert(result.contains(result[j]));
                assert(items_spec.to_multiset().count(result[j]) > 0);
                let i = choose|i: int| 0 <= i < items_spec.len() && items_spec[i] == result[j];
                assert(items_spec[i] == (sort_key(Some(s.entry(sel[i] as int)), column@), sel[i]));
            }
            assert forall|i: int, j: int| 0 <= i < j < sorted@.len() implies {
                let ki = sort_key(Some(s.entry(#[trigger] sorted@[i] as int)), column@);
                let kj = sort_key(Some(s.entry(#[trigger] sorted@[j] as int)), column@);
                if direction@ == "asc"@ {
                    !lex_lt(kj, ki)
                } else {
                    !lex_lt(ki, kj)
                }
            } by {
                assert(!crate::sort::less_by(descending, result[j], result[i]));
                assert(result[i].0 == sort_key(Some(s.entry(result[i].1 as int)), column@));
                assert(result[j].0 == sort_key(Some(s.entry(result[j].1 as int)), column@));
            }
            assert(sort_items(s, sel, column@).map_values(second) =~= sel);
            assert forall|j: int| 0 <= j < sorted@.len() implies #[trigger] sorted@[j] < s.num_lines() by {
                broadcast use vstd::seq_lib::group_to_multiset_ensures;
                assert(sorted@.contains(sorted@[j]));
                assert(sel.to_multiset().count(sorted@[j]) > 0);
                let i = choose|i: int| 0 <= i < sel.len() && sel[i] == sorted@[j];
                assert(sel[i] < s.num_lines());
            }
        }
        self.indices = sorted;
        self.sort_column = Some(column);
        self.sort_direction = Some(direction);
    }
}

impl View {
    /// Number of lines in the view.
    pub fn line_count(&self) -> (r: u64)
        ensures
            r == self.num_lines(),
    {
        self.indices.len() as u64
    }

    /// View line `n`: the session line shown at position `n`, numbered `n`;
    /// a position at or past the end is refused.
    pub fn line(&self, n: u64) -> (r: Result<SessionLine, Error>)
        requires
            self.wf(),
        ensures
            n >= self.num_lines() <==> r is Err,
            r matches Err(e) ==> e matches Error::LineOutOfRange { requested, total }
                && requested == n && total == self.num_lines(),
            r matches Ok(l) ==> l@ == self.shared().entry_as(self.selection()[n as int] as int, n as int),
    {
        let len = self.indices.len();
        if n >= len as u64 {
            return Err(Error::LineOutOfRange { requested: n, total: len as u64 });
        }
        let session_idx = self.indices[n as usize];
        let mut sline = match self.session.line(session_idx) {
            Ok(l) => l,
            Err(e) => return Err(e),
        };
        sline.line.number = n;
        Ok(sline)
    }

    /// Reads a contiguous range of view lines, clamped to the view's length;
    /// a range that is reversed once clamped is empty.
    pub fn range(&self, range: std::ops::Range<u64>) -> (r: Vec<SessionLine>)
        requires
            self.wf(),
        ensures
            r@.len() == range_count(range.start, range.end, self.num_lines()),
            forall|k: int| 0 <= k < r@.len() ==> #[trigger] r@[k]@ == self.shared().entry_as(
                self.selection()[clamp(range.start, self.num_lines()) + k] as int,
                clamp(range.start, self.num_lines()) + k,
            ),
    {
        let total = self.line_count();
        let start = if range.start < total { range.start } else { total };
        let end = if range.end < total { range.end } else { total };
        let end = if end < start { start } else { end };
        let mut out: Vec<SessionLine> = Vec::with_capacity((end - start) as usize);
        let mut i = start;
        while i < end
            invariant
                self.wf(),
                total == self.num_lines(),
                start == clamp(range.start, self.num_lines()),
                end == start + range_count(range.start, range.end, self.num_lines()),
                start <= i <= end <= total,
                out@.len() == i - start,
                forall|k: int| 0 <= k < out@.len() ==> #[trigger] out@[k]@ == self.shared().entry_as(
                    self.selection()[start + k] as int,
                    start + k,
                ),
            decreases end - i,
        {
            if let Ok(line) = self.line(i) {
                out.push(line);
            }
            i += 1;
        }
        out
    }
}

/// `levels` holds `level`.
fn contains_level(levels: &Vec<LogLevel>, level: LogLevel) -> (r: bool)
    ensures
        r == levels@.contains(level),
{
    let mut i: usize = 0;
    while i < levels.len()
        invariant
            i <= levels@.len(),
            forall|j: int| 0 <= j < i ==> levels@[j] != level,
        decreases levels@.len() - i,
    {
        if levels[i] == level {
            return true;
        }
        i += 1;
    }
    false
}

} // verus!
