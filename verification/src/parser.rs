//! Best-effort detection of a line's level, timestamp and fields, per log format.
//!
//! Every function here reads a line through its UTF-8 bytes; the contracts
//! say what is extracted as byte ranges of the line (`ParsedBytes`).
use vstd::prelude::*;
use vstd::utf8::*;
use vstd::string::StringSliceAdditionalSpecFns;
use crate::text::{bytes_eq, contains_seq, contains_ascii_ci_bytes, contains_ci, first_occurrence, find_bytes, lemma_ascii_boundaries, lemma_find_from_sound, occurs_at, substring};
use crate::trusted::{
    json_object_entries, json_object_fields, regex_captures, regex_compiles, regex_finds, regex_groups,
    regex_is_match, regex_is_valid, to_uppercase, trim, trim_chars, trim_start, trim_start_chars, uppercase,
};
use vstd::string::StrSliceExecFns;

verus! {

broadcast use vstd::utf8::encode_utf8_valid_utf8, vstd::utf8::encode_utf8_decode_utf8;

/// Severity of a log line.
#[derive(Debug, Clone, Copy, PartialEq, Eq, Structural)]
pub enum LogLevel {
    Trace,
    Debug,
    Info,
    Warn,
    Error,
    Fatal,
}

/// The layout a log file is written in.
#[derive(Debug, Clone, Copy, PartialEq, Eq, Structural)]
pub enum FileFormat {
    Plain,
    Json,
    CMTrace,
    Nginx,
}

/// What was recognised in one line.
#[derive(Debug, Clone)]
pub struct ParsedLine {
    pub level: Option<LogLevel>,
    /// Timestamp text lifted from the line, kept as text.
    pub timestamp: Option<String>,
    pub component: Option<String>,
    pub source: Option<String>,
    pub message: Option<String>,
}

/// A `ParsedLine` with each text field given by its UTF-8 bytes.
pub struct ParsedBytes {
    pub level: Option<LogLevel>,
    pub timestamp: Option<Seq<u8>>,
    pub component: Option<Seq<u8>>,
    pub source: Option<Seq<u8>>,
    pub message: Option<Seq<u8>>,
}

/// The UTF-8 bytes of an optional string.
pub open spec fn opt_bytes(s: Option<String>) -> Option<Seq<u8>> {
    match s {
        Some(t) => Some(encode_utf8(t@)),
        None => None,
    }
}

impl View for ParsedLine {
    type V = ParsedBytes;

    open spec fn view(&self) -> ParsedBytes {
        ParsedBytes {
            level: self.level,
            timestamp: opt_bytes(self.timestamp),
            component: opt_bytes(self.component),
            source: opt_bytes(self.source),
            message: opt_bytes(self.message),
        }
    }
}

/// The view of an optional parse result.
pub open spec fn parsed_view(p: Option<ParsedLine>) -> Option<ParsedBytes> {
    match p {
        Some(q) => Some(q@),
        None => None,
    }
}

/// Encoding distinct character sequences gives distinct bytes.
pub proof fn lemma_encode_injective(a: Seq<char>, b: Seq<char>)
    ensures
        encode_utf8(a) == encode_utf8(b) <==> a == b,
{
    if encode_utf8(a) == encode_utf8(b) {
        assert(decode_utf8(encode_utf8(a)) == a);
        assert(decode_utf8(encode_utf8(b)) == b);
    }
}

// ---------------------------------------------------------------------------
// Level names
// ---------------------------------------------------------------------------

/// The level an already upper-cased level name stands for.
pub open spec fn spec_level_from_upper(u: Seq<char>) -> Option<LogLevel> {
    if u == "TRACE"@ {
        Some(LogLevel::Trace)
    } else if u == "DEBUG"@ || u == "DBG"@ {
        Some(LogLevel::Debug)
    } else if u == "INFO"@ {
        Some(LogLevel::Info)
    } else if u == "WARN"@ || u == "WARNING"@ {
        Some(LogLevel::Warn)
    } else if u == "ERROR"@ || u == "ERR"@ {
        Some(LogLevel::Error)
    } else if u == "FATAL"@ || u == "CRITICAL"@ {
        Some(LogLevel::Fatal)
    } else {
        None
    }
}

/// `a` and `b` hold the same characters.
pub fn str_eq(a: &str, b: &str) -> (r: bool)
    ensures
        r == (a@ == b@),
{
    let r = bytes_eq(a.as_bytes(), b.as_bytes());
    proof {
        lemma_encode_injective(a@, b@);
    }
    r
}

/// Maps an upper-cased level name (`TRACE`, `DEBUG`/`DBG`, `INFO`,
/// `WARN`/`WARNING`, `ERROR`/`ERR`, `FATAL`/`CRITICAL`) to its level.
pub fn level_from_uppercase(u: &str) -> (r: Option<LogLevel>)
    ensures
        r == spec_level_from_upper(u@),
{
    if str_eq(u, "TRACE") {
        Some(LogLevel::Trace)
    } else if str_eq(u, "DEBUG") || str_eq(u, "DBG") {
        Some(LogLevel::Debug)
    } else if str_eq(u, "INFO") {
        Some(LogLevel::Info)
    } else if str_eq(u, "WARN") || str_eq(u, "WARNING") {
        Some(LogLevel::Warn)
    } else if str_eq(u, "ERROR") || str_eq(u, "ERR") {
        Some(LogLevel::Error)
    } else if str_eq(u, "FATAL") || str_eq(u, "CRITICAL") {
        Some(LogLevel::Fatal)
    } else {
        None
    }
}

/// Level named by a field value, compared case-insensitively by upper-casing it first.
pub open spec fn spec_level_from_string(s: Seq<char>) -> Option<LogLevel> {
    spec_level_from_upper(uppercase(s))
}

/// Reads a level name in any letter case.
pub fn detect_level_from_string(s: &str) -> (r: Option<LogLevel>)
    ensures
        r == spec_level_from_string(s@),
{
    let upper = to_uppercase(s);
    level_from_uppercase(upper.as_str())
}

// ---------------------------------------------------------------------------
// Plain text lines
// ---------------------------------------------------------------------------

/// Case-insensitive ASCII substring check that does not allocate. The needle
/// must not be empty (an empty window size is refused by `slice::windows`).
pub fn contains_ascii_ci(haystack: &str, needle: &str) -> (r: bool)
    requires
        needle.spec_bytes().len() > 0,
    ensures
        r == contains_ci(haystack.spec_bytes(), needle.spec_bytes()),
{
    contains_ascii_ci_bytes(haystack.as_bytes(), needle.as_bytes())
}

/// The last character boundary of `b` at or before `k` (0 at the latest).
pub open spec fn boundary_at_or_before(b: Seq<u8>, k: int) -> int
    decreases k,
{
    if k <= 0 {
        0
    } else if is_char_boundary(b, k) {
        k
    } else {
        boundary_at_or_before(b, k - 1)
    }
}

/// Number of leading bytes that are scanned for a level: the first 120, cut
/// back to the last character boundary so no character is split.
pub open spec fn head_len(b: Seq<u8>) -> int {
    boundary_at_or_before(b, if b.len() < 120 { b.len() as int } else { 120 })
}

proof fn lemma_boundary_at_or_before(b: Seq<u8>, k: int)
    requires
        valid_utf8(b),
        k <= b.len(),
    ensures
        0 <= boundary_at_or_before(b, k),
        k >= 0 ==> boundary_at_or_before(b, k) <= k,
        is_char_boundary(b, boundary_at_or_before(b, k)),
    decreases k,
{
    vstd::utf8::is_char_boundary_start_end_of_seq(b);
    if k > 0 && !is_char_boundary(b, k) {
        lemma_boundary_at_or_before(b, k - 1);
    }
}

/// The head scanned for a level never splits a character: it ends on a
/// character boundary, within the first 120 bytes of the line.
pub proof fn lemma_head_len(b: Seq<u8>)
    requires
        valid_utf8(b),
    ensures
        0 <= head_len(b) <= 120,
        head_len(b) <= b.len(),
        is_char_boundary(b, head_len(b)),
{
    lemma_boundary_at_or_before(b, if b.len() < 120 { b.len() as int } else { 120 });
}

/// The level named in the head of a line (see `head_len`), trying `FATAL`,
/// `ERROR`, `ERR `, `WARN`, `INFO`, `DEBUG`, `DBG ` and `TRACE` in that
/// order, ignoring ASCII case.
pub open spec fn spec_detect_level(b: Seq<u8>) -> Option<LogLevel> {
    let h = b.subrange(0, head_len(b));
    if contains_ci(h, "FATAL".spec_bytes()) {
        Some(LogLevel::Fatal)
    } else if contains_ci(h, "ERROR".spec_bytes()) || contains_ci(h, "ERR ".spec_bytes()) {
        Some(LogLevel::Error)
    } else if contains_ci(h, "WARN".spec_bytes()) {
        Some(LogLevel::Warn)
    } else if contains_ci(h, "INFO".spec_bytes()) {
        Some(LogLevel::Info)
    } else if contains_ci(h, "DEBUG".spec_bytes()) || contains_ci(h, "DBG ".spec_bytes()) {
        Some(LogLevel::Debug)
    } else if contains_ci(h, "TRACE".spec_bytes()) {
        Some(LogLevel::Trace)
    } else {
        None
    }
}

/// Levels by priority in the head of a line, ignoring ASCII case: `FATAL`
/// wins over everything; then `ERROR` or `ERR `; then `WARN`, `INFO`,
/// `DEBUG` or `DBG `, and `TRACE`, in that order; no such word, no level.
pub proof fn lemma_level_priority(b: Seq<u8>)
    ensures
        ({
            let h = b.subrange(0, head_len(b));
            let fatal = contains_ci(h, seq![70u8, 65, 84, 65, 76]);
            let error = contains_ci(h, seq![69u8, 82, 82, 79, 82]) || contains_ci(h, seq![69u8, 82, 82, 32]);
            let warn = contains_ci(h, seq![87u8, 65, 82, 78]);
            let info = contains_ci(h, seq![73u8, 78, 70, 79]);
            let debug = contains_ci(h, seq![68u8, 69, 66, 85, 71]) || contains_ci(h, seq![68u8, 66, 71, 32]);
            let trace = contains_ci(h, seq![84u8, 82, 65, 67, 69]);
            spec_detect_level(b) == if fatal {
                Some(LogLevel::Fatal)
            } else if error {
                Some(LogLevel::Error)
            } else if warn {
                Some(LogLevel::Warn)
            } else if info {
                Some(LogLevel::Info)
            } else if debug {
                Some(LogLevel::Debug)
            } else if trace {
                Some(LogLevel::Trace)
            } else {
                None
            }
        }),
{
    reveal_strlit("FATAL");
    reveal_strlit("ERROR");
    reveal_strlit("ERR ");
    reveal_strlit("WARN");
    reveal_strlit("INFO");
    reveal_strlit("DEBUG");
    reveal_strlit("DBG ");
    reveal_strlit("TRACE");
    vstd::utf8::is_ascii_chars_encode_utf8("FATAL"@);
    vstd::utf8::is_ascii_chars_encode_utf8("ERROR"@);
    vstd::utf8::is_ascii_chars_encode_utf8("ERR "@);
    vstd::utf8::is_ascii_chars_encode_utf8("WARN"@);
    vstd::utf8::is_ascii_chars_encode_utf8("INFO"@);
    vstd::utf8::is_ascii_chars_encode_utf8("DEBUG"@);
    vstd::utf8::is_ascii_chars_encode_utf8("DBG "@);
    vstd::utf8::is_ascii_chars_encode_utf8("TRACE"@);
    assert("FATAL".spec_bytes() =~= seq![70u8, 65, 84, 65, 76]);
    assert("ERROR".spec_bytes() =~= seq![69u8, 82, 82, 79, 82]);
    assert("ERR ".spec_bytes() =~= seq![69u8, 82, 82, 32]);
    assert("WARN".spec_bytes() =~= seq![87u8, 65, 82, 78]);
    assert("INFO".spec_bytes() =~= seq![73u8, 78, 70, 79]);
    assert("DEBUG".spec_bytes() =~= seq![68u8, 69, 66, 85, 71]);
    assert("DBG ".spec_bytes() =~= seq![68u8, 66, 71, 32]);
    assert("TRACE".spec_bytes() =~= seq![84u8, 82, 65, 67, 69]);
}

proof fn lemma_nonempty_literal(s: &str)
    requires
        s@.len() > 0,
    ensures
        s.spec_bytes().len() > 0,
{
    vstd::utf8::encode_utf8_first_scalar(s@);
}

/// Scans the head of a line for a level name.
pub fn detect_level(line: &str) -> (r: Option<LogLevel>)
    ensures
        r == spec_detect_level(line.spec_bytes()),
{
    let n = line.as_bytes().len();
    let mut head_end = if n < 120 { n } else { 120 };
    let ghost b = line.spec_bytes();
    let ghost top = head_end as int;
    while head_end > 0 && !line.is_char_boundary(head_end)
        invariant
            b == line.spec_bytes(),
            head_end <= top <= b.len(),
            boundary_at_or_before(b, head_end as int) == boundary_at_or_before(b, top),
        decreases head_end,
    {
        head_end -= 1;
    }
    proof {
        vstd::utf8::is_char_boundary_start_end_of_seq(b);
        assert(boundary_at_or_before(b, head_end as int) == head_end);
        assert(head_len(b) == head_end);
    }
    let (head, _) = line.split_at(head_end);
    proof {
        assert(head.spec_bytes() =~= line.spec_bytes().subrange(0, head_len(line.spec_bytes())));
        reveal_strlit("FATAL");
        reveal_strlit("ERROR");
        reveal_strlit("ERR ");
        reveal_strlit("WARN");
        reveal_strlit("INFO");
        reveal_strlit("DEBUG");
        reveal_strlit("DBG ");
        reveal_strlit("TRACE");
        lemma_nonempty_literal("FATAL");
        lemma_nonempty_literal("ERROR");
        lemma_nonempty_literal("ERR ");
        lemma_nonempty_literal("WARN");
        lemma_nonempty_literal("INFO");
        lemma_nonempty_literal("DEBUG");
        lemma_nonempty_literal("DBG ");
        lemma_nonempty_literal("TRACE");
    }
    if contains_ascii_ci(head, "FATAL") {
        Some(LogLevel::Fatal)
    } else if contains_ascii_ci(head, "ERROR") || contains_ascii_ci(head, "ERR ") {
        Some(LogLevel::Error)
    } else if contains_ascii_ci(head, "WARN") {
        Some(LogLevel::Warn)
    } else if contains_ascii_ci(head, "INFO") {
        Some(LogLevel::Info)
    } else if contains_ascii_ci(head, "DEBUG") || contains_ascii_ci(head, "DBG ") {
        Some(LogLevel::Debug)
    } else if contains_ascii_ci(head, "TRACE") {
        Some(LogLevel::Trace)
    } else {
        None
    }
}

/// `u8::is_ascii_whitespace`: space, tab, line feed, form feed, carriage return.
pub open spec fn is_ascii_ws(c: u8) -> bool {
    c == 32 || c == 9 || c == 10 || c == 12 || c == 13
}

/// Index of the first ASCII whitespace byte at or after `i`, or the length.
pub open spec fn first_ws_from(b: Seq<u8>, i: int) -> int
    decreases b.len() - i,
{
    if i < 0 || i >= b.len() {
        b.len() as int
    } else if is_ascii_ws(b[i]) {
        i
    } else {
        first_ws_from(b, i + 1)
    }
}

/// An ISO-8601-like timestamp at the very start of a line: the line has at
/// least 10 bytes and starts with an ASCII digit; the first
/// whitespace-delimited token is at least 8 bytes long and holds `:` or `-`.
pub open spec fn spec_detect_timestamp(b: Seq<u8>) -> Option<Seq<u8>> {
    if b.len() < 10 || !(48 <= b[0] <= 57) {
        None
    } else {
        let end = first_ws_from(b, 0);
        let cand = b.subrange(0, end);
        if end < 8 {
            None
        } else if !cand.contains(58u8) && !cand.contains(45u8) {
            None
        } else {
            Some(cand)
        }
    }
}

proof fn lemma_first_ws_at(b: Seq<u8>, i: int, e: int)
    requires
        0 <= i <= e <= b.len(),
        forall|j: int| i <= j < e ==> !(#[trigger] b[j] == 32u8 || b[j] == 9u8 || b[j] == 10u8 || b[j] == 12u8
            || b[j] == 13u8),
        e == b.len() || b[e] == 32u8 || b[e] == 9u8 || b[e] == 10u8 || b[e] == 12u8 || b[e] == 13u8,
    ensures
        first_ws_from(b, i) == e,
    decreases e - i,
{
    if i < e {
        lemma_first_ws_at(b, i + 1, e);
    }
}

/// A leading timestamp is the line's first token, up to the first space,
/// tab, line feed, form feed or carriage return: it is found exactly when the
/// line has at least 10 bytes, starts with an ASCII digit, and the token is
/// at least 8 bytes long and holds a `:` or a `-` (either one is enough).
pub proof fn lemma_timestamp_token(b: Seq<u8>, e: int)
    requires
        0 <= e <= b.len(),
        forall|j: int| 0 <= j < e ==> !(#[trigger] b[j] == 32u8 || b[j] == 9u8 || b[j] == 10u8 || b[j] == 12u8
            || b[j] == 13u8),
        e == b.len() || b[e] == 32u8 || b[e] == 9u8 || b[e] == 10u8 || b[e] == 12u8 || b[e] == 13u8,
    ensures
        ({
            &&& b.len() >= 10
            &&& 48 <= b[0] <= 57
            &&& e >= 8
            &&& exists|j: int| 0 <= j < e && (#[trigger] b[j] == 58u8 || b[j] == 45u8)
        }) ==> spec_detect_timestamp(b) == Some(b.subrange(0, e)),
        !({
            &&& b.len() >= 10
            &&& 48 <= b[0] <= 57
            &&& e >= 8
            &&& exists|j: int| 0 <= j < e && (#[trigger] b[j] == 58u8 || b[j] == 45u8)
        }) ==> spec_detect_timestamp(b) is None,
{
    lemma_first_ws_at(b, 0, e);
    let cand = b.subrange(0, e);
    if exists|j: int| 0 <= j < e && (#[trigger] b[j] == 58u8 || b[j] == 45u8) {
        let j = choose|j: int| 0 <= j < e && (#[trigger] b[j] == 58u8 || b[j] == 45u8);
        assert(cand[j] == b[j]);
        if b[j] == 58u8 {
            assert(cand.contains(58u8));
        } else {
            assert(cand.contains(45u8));
        }
    } else {
        assert forall|j: int| 0 <= j < cand.len() implies cand[j] != 58u8 && cand[j] != 45u8 by {
            assert(cand[j] == b[j]);
        }
    }
}

fn is_ascii_whitespace_byte(c: u8) -> (r: bool)
    ensures
        r == is_ascii_ws(c),
{
    c == 32 || c == 9 || c == 10 || c == 12 || c == 13
}

/// Lifts a leading timestamp token from a line.
pub fn detect_timestamp(line: &str) -> (r: Option<String>)
    ensures
        opt_bytes(r) == spec_detect_timestamp(line.spec_bytes()),
{
    let bytes = line.as_bytes();
    if bytes.len() < 10 || !(48 <= bytes[0] && bytes[0] <= 57) {
        return None;
    }
    let mut end: usize = 0;
    while end < bytes.len() && !is_ascii_whitespace_byte(bytes[end])
        invariant
            end <= bytes@.len(),
            first_ws_from(bytes@, 0) == first_ws_from(bytes@, end as int),
        decreases bytes@.len() - end,
    {
        end += 1;
    }
    if end < 8 {
        return None;
    }
    let mut has_sep = false;
    let mut i: usize = 0;
    while i < end
        invariant
            end <= bytes@.len(),
            i <= end,
            has_sep <==> exists|j: int| 0 <= j < i && (bytes@[j] == 58u8 || bytes@[j] == 45u8),
        decreases end - i,
    {
        if bytes[i] == 58 || bytes[i] == 45 {
            has_sep = true;
        }
        i += 1;
    }
    let ghost cand = bytes@.subrange(0, end as int);
    proof {
        if has_sep {
            let j = choose|j: int| 0 <= j < end && (bytes@[j] == 58u8 || bytes@[j] == 45u8);
            assert(cand[j] == bytes@[j]);
        } else {
            assert forall|j: int| 0 <= j < cand.len() implies cand[j] != 58u8 && cand[j] != 45u8 by {
                assert(cand[j] == bytes@[j]);
            }
        }
    }
    if !has_sep {
        return None;
    }
    proof {
        vstd::utf8::is_char_boundary_start_end_of_seq(bytes@);
        if end < bytes@.len() {
            lemma_ascii_boundaries(bytes@, end as int);
        }
    }
    Some(substring(line, 0, end))
}

/// Plain-text heuristics: a level near the start and/or a leading timestamp;
/// the whole line is the message.
pub open spec fn spec_parse_plain(b: Seq<u8>) -> Option<ParsedBytes> {
    let level = spec_detect_level(b);
    let timestamp = spec_detect_timestamp(b);
    if level is Some || timestamp is Some {
        Some(ParsedBytes { level, timestamp, component: None, source: None, message: Some(b) })
    } else {
        None
    }
}

fn parse_plain(line: &str) -> (r: Option<ParsedLine>)
    ensures
        parsed_view(r) == spec_parse_plain(line.spec_bytes()),
{
    let level = detect_level(line);
    let timestamp = detect_timestamp(line);
    if level.is_some() || timestamp.is_some() {
        Some(ParsedLine { level, timestamp, component: None, source: None, message: Some(line.to_owned()) })
    } else {
        None
    }
}

/// Parses a single line using plain heuristics. Returns `None` if nothing
/// recognisable was found.
pub fn parse(line: &str) -> (r: Option<ParsedLine>)
    ensures
        parsed_view(r) == spec_parse_plain(line.spec_bytes()),
{
    parse_plain(line)
}

// ---------------------------------------------------------------------------
// CMTrace lines
// ---------------------------------------------------------------------------

/// All bytes of an ASCII literal are below 0x80.
pub proof fn lemma_ascii_literal(s: &str)
    requires
        vstd::utf8::is_ascii_chars(s@),
    ensures
        s.spec_bytes().len() == s@.len(),
        forall|i: int| 0 <= i < s.spec_bytes().len() ==> #[trigger] s.spec_bytes()[i] < 0x80,
{
    vstd::utf8::is_ascii_chars_encode_utf8(s@);
    vstd::utf8::is_ascii_chars_nat_bound(s@);
    assert forall|i: int| 0 <= i < s.spec_bytes().len() implies #[trigger] s.spec_bytes()[i] < 0x80 by {
        assert(s@[i] as u8 == s.spec_bytes()[i]);
        assert((s@[i] as nat) < 128);
    }
}

/// Where the double-quoted value of the attribute starting with `attr` lies:
/// `None` when `attr` does not occur, `Some(None)` when no closing quote
/// follows it, else the byte range of the value.
pub open spec fn attr_value(b: Seq<u8>, attr: Seq<u8>) -> Option<Option<(int, int)>> {
    match first_occurrence(b, attr) {
        None => None,
        Some(p) => {
            let a = p + attr.len();
            match first_occurrence(b.subrange(a, b.len() as int), "\"".spec_bytes()) {
                None => Some(None),
                Some(q) => Some(Some((a, a + q))),
            }
        },
    }
}

/// The attribute occurs but its value is not closed.
pub open spec fn unterminated(v: Option<Option<(int, int)>>) -> bool {
    v == Some(None::<(int, int)>)
}

/// The bytes of a closed attribute value.
pub open spec fn value_bytes(b: Seq<u8>, v: Option<Option<(int, int)>>) -> Option<Seq<u8>> {
    match v {
        Some(Some((a, e))) => Some(b.subrange(a, e)),
        _ => None,
    }
}

/// CMTrace `type` values: `2` is a warning, `3` an error, anything else information.
pub open spec fn cmtrace_level(v: Seq<u8>) -> LogLevel {
    if v == "2".spec_bytes() {
        LogLevel::Warn
    } else if v == "3".spec_bytes() {
        LogLevel::Error
    } else {
        LogLevel::Info
    }
}

/// `<![LOG[message]LOG]!><time="..." date="..." component="..." type="..." file="...">`:
/// the message between the markers, the level from `type`, the component,
/// the source file, and `date time` as timestamp. A line whose first `]LOG]!`
/// comes before its first `<![LOG[`, or an attribute whose value is not
/// closed, makes the whole line unrecognised.
pub open spec fn spec_parse_cmtrace(b: Seq<u8>) -> Option<ParsedBytes> {
    match (first_occurrence(b, "<![LOG[".spec_bytes()), first_occurrence(b, "]LOG]!".spec_bytes())) {
        (Some(s), Some(e)) => if e < s + 7 {
            None
        } else {
            let ty = attr_value(b, "type=\"".spec_bytes());
            let comp = attr_value(b, "component=\"".spec_bytes());
            let file = attr_value(b, "file=\"".spec_bytes());
            let date = attr_value(b, "date=\"".spec_bytes());
            let time = attr_value(b, "time=\"".spec_bytes());
            let both = date is Some && time is Some;
            if unterminated(ty) || unterminated(comp) || unterminated(file) || (both && (
            unterminated(date) || unterminated(time))) {
                None
            } else {
                Some(
                    ParsedBytes {
                        level: match value_bytes(b, ty) {
                            Some(v) => Some(cmtrace_level(v)),
                            None => None,
                        },
                        timestamp: match (value_bytes(b, date), value_bytes(b, time)) {
                            (Some(d), Some(t)) => Some(d + " ".spec_bytes() + t),
                            _ => None,
                        },
                        component: value_bytes(b, comp),
                        source: value_bytes(b, file),
                        message: Some(b.subrange(s + 7, e)),
                    },
                )
            }
        },
        _ => None,
    }
}

/// The level of a recognised CMTrace line comes from its `type` attribute
/// alone: the value `2` is a warning, `3` an error, any other value
/// information, and a line without the attribute has no level.
pub proof fn lemma_cmtrace_type_level(b: Seq<u8>)
    requires
        spec_parse_cmtrace(b) is Some,
    ensures
        spec_parse_cmtrace(b)->0.level == match attr_value(b, "type=\"".spec_bytes()) {
            Some(Some((a, e))) => if b.subrange(a, e) == seq![50u8] {
                Some(LogLevel::Warn)
            } else if b.subrange(a, e) == seq![51u8] {
                Some(LogLevel::Error)
            } else {
                Some(LogLevel::Info)
            },
            _ => None::<LogLevel>,
        },
{
    reveal_strlit("2");
    reveal_strlit("3");
    vstd::utf8::is_ascii_chars_encode_utf8("2"@);
    vstd::utf8::is_ascii_chars_encode_utf8("3"@);
    assert("2".spec_bytes() =~= seq![50u8]);
    assert("3".spec_bytes() =~= seq![51u8]);
}

/// The other fields of a recognised CMTrace line: the message is the text
/// between the first `<![LOG[` and the first `]LOG]!` after it; the
/// component and the source are the values of `component="..."` and
/// `file="..."`; the timestamp is the `date` value, a space, then the
/// `time` value, present only when both are.
pub proof fn lemma_cmtrace_fields(b: Seq<u8>, s: int, e: int)
    requires
        spec_parse_cmtrace(b) is Some,
        first_occurrence(b, "<![LOG[".spec_bytes()) == Some(s),
        first_occurrence(b, "]LOG]!".spec_bytes()) == Some(e),
    ensures
        s + 7 <= e,
        spec_parse_cmtrace(b)->0.message == Some(b.subrange(s + 7, e)),
        spec_parse_cmtrace(b)->0.component == match attr_value(b, "component=\"".spec_bytes()) {
            Some(Some((a, z))) => Some(b.subrange(a, z)),
            _ => None::<Seq<u8>>,
        },
        spec_parse_cmtrace(b)->0.source == match attr_value(b, "file=\"".spec_bytes()) {
            Some(Some((a, z))) => Some(b.subrange(a, z)),
            _ => None::<Seq<u8>>,
        },
        spec_parse_cmtrace(b)->0.timestamp == match (
            attr_value(b, "date=\"".spec_bytes()),
            attr_value(b, "time=\"".spec_bytes()),
        ) {
            (Some(Some((da, dz))), Some(Some((ta, tz)))) => Some(b.subrange(da, dz) + seq![32u8] + b.subrange(ta, tz)),
            _ => None::<Seq<u8>>,
        },
{
    reveal_strlit(" ");
    vstd::utf8::is_ascii_chars_encode_utf8(" "@);
    assert(" ".spec_bytes() =~= seq![32u8]);
}

/// Finds the attribute `attr` and the closing quote of its value.
fn find_attr(line: &str, attr: &str) -> (r: Option<Option<(usize, usize)>>)
    requires
        attr.spec_bytes().len() > 0,
        forall|i: int| 0 <= i < attr.spec_bytes().len() ==> #[trigger] attr.spec_bytes()[i] < 0x80,
    ensures
        match r {
            None => attr_value(line.spec_bytes(), attr.spec_bytes()) is None,
            Some(None) => attr_value(line.spec_bytes(), attr.spec_bytes()) == Some(None::<(int, int)>),
            Some(Some((a, e))) => {
                &&& attr_value(line.spec_bytes(), attr.spec_bytes()) == Some(Some((a as int, e as int)))
                &&& a <= e <= line.spec_bytes().len()
                &&& is_char_boundary(line.spec_bytes(), a as int)
                &&& is_char_boundary(line.spec_bytes(), e as int)
            },
        },
{
    let b = line.as_bytes();
    let ab = attr.as_bytes();
    let p = match find_bytes(b, ab) {
        Some(p) => p,
        None => return None,
    };
    proof {
        lemma_find_from_sound(b@, attr.spec_bytes(), 0);
        assert(b@[p + attr.spec_bytes().len() - 1] == attr.spec_bytes()[attr.spec_bytes().len() - 1]) by {
            assert(b@.subrange(p as int, p + attr.spec_bytes().len())[attr.spec_bytes().len() - 1]
                == b@[p + attr.spec_bytes().len() - 1]);
        }
        lemma_ascii_boundaries(b@, p + attr.spec_bytes().len() - 1);
    }
    let blen = b.len();
    let a = p + ab.len();
    let rest = vstd::slice::slice_subrange(b, a, b.len());
    proof {
        reveal_strlit("\"");
    }
    match find_bytes(rest, "\"".as_bytes()) {
        None => Some(None),
        Some(q) => {
            proof {
                lemma_find_from_sound(rest@, "\"".spec_bytes(), 0);
                lemma_ascii_literal("\"");
                assert(rest@.subrange(q as int, q + 1)[0] == rest@[q as int]);
                assert(b@[a + q] == rest@[q as int]);
                lemma_ascii_boundaries(b@, a + q);
            }
            Some(Some((a, a + q)))
        },
    }
}

/// Extracts the fields of a CMTrace line.
fn parse_cmtrace(line: &str) -> (r: Option<ParsedLine>)
    ensures
        parsed_view(r) == spec_parse_cmtrace(line.spec_bytes()),
{
    let b = line.as_bytes();
    proof {
        reveal_strlit("<![LOG[");
        reveal_strlit("]LOG]!");
        reveal_strlit("type=\"");
        reveal_strlit("component=\"");
        reveal_strlit("file=\"");
        reveal_strlit("date=\"");
        reveal_strlit("time=\"");
        reveal_strlit(" ");
        lemma_ascii_literal("<![LOG[");
        lemma_ascii_literal("]LOG]!");
        lemma_ascii_literal("type=\"");
        lemma_ascii_literal("component=\"");
        lemma_ascii_literal("file=\"");
        lemma_ascii_literal("date=\"");
        lemma_ascii_literal("time=\"");
    }
    let start = match find_bytes(b, "<![LOG[".as_bytes()) {
        Some(s) => s,
        None => return None,
    };
    let end = match find_bytes(b, "]LOG]!".as_bytes()) {
        Some(e) => e,
        None => return None,
    };
    if end < start || end - start < 7 {
        return None;
    }
    proof {
        lemma_find_from_sound(b@, "<![LOG[".spec_bytes(), 0);
        lemma_find_from_sound(b@, "]LOG]!".spec_bytes(), 0);
        assert(b@[start + 6] == b@.subrange(start as int, start + 7)[6]);
        lemma_ascii_boundaries(b@, start + 6);
        assert(b@[end as int] == b@.subrange(end as int, end + 6)[0]);
        lemma_ascii_boundaries(b@, end as int);
    }
    let message = substring(line, start + 7, end);

    let ty = find_attr(line, "type=\"");
    let comp = find_attr(line, "component=\"");
    let file = find_attr(line, "file=\"");
    let date = find_attr(line, "date=\"");
    let time = find_attr(line, "time=\"");

    let level = match ty {
        None => None,
        Some(None) => return None,
        Some(Some((a, e))) => {
            let v = vstd::slice::slice_subrange(b, a, e);
            if bytes_eq(v, "2".as_bytes()) {
                Some(LogLevel::Warn)
            } else if bytes_eq(v, "3".as_bytes()) {
                Some(LogLevel::Error)
            } else {
                Some(LogLevel::Info)
            }
        },
    };
    let component = match comp {
        None => None,
        Some(None) => return None,
        Some(Some((a, e))) => Some(substring(line, a, e)),
    };
    let source = match file {
        None => None,
        Some(None) => return None,
        Some(Some((a, e))) => Some(substring(line, a, e)),
    };
    let timestamp = match (date, time) {
        (Some(d), Some(t)) => {
            match (d, t) {
                (Some((da, de)), Some((ta, te))) => {
                    let mut ts = substring(line, da, de);
                    let tm = substring(line, ta, te);
                    ts.append(" ");
                    ts.append(tm.as_str());
                    proof {
                        crate::text::lemma_encode_concat(
                            vstd::utf8::decode_utf8(b@.subrange(da as int, de as int)) + " "@,
                            tm@,
                        );
                        crate::text::lemma_encode_concat(
                            vstd::utf8::decode_utf8(b@.subrange(da as int, de as int)),
                            " "@,
                        );
                    }
                    Some(ts)
                },
                _ => return None,
            }
        },
        _ => None,
    };
    Some(ParsedLine { level, timestamp, component, source, message: Some(message) })
}

// ---------------------------------------------------------------------------
// JSON lines
// ---------------------------------------------------------------------------

/// The entries of a JSON object: each key with its value when that value is a string.
pub type JsonEntries = Seq<(Seq<char>, Option<Seq<char>>)>;

/// The first entry at or after `i` whose key is `key`: `Some(value)` when found.
pub open spec fn json_lookup_from(entries: JsonEntries, key: Seq<char>, i: int) -> Option<Option<Seq<char>>>
    decreases entries.len() - i,
{
    if i < 0 || i >= entries.len() {
        None
    } else if entries[i].0 == key {
        Some(entries[i].1)
    } else {
        json_lookup_from(entries, key, i + 1)
    }
}

/// The string value of the first of `keys` (tried from index `k` on) that the
/// object has; `None` when none is present or the first one present is not a
/// string.
pub open spec fn json_first_from(entries: JsonEntries, keys: Seq<Seq<char>>, k: int) -> Option<Seq<char>>
    decreases keys.len() - k,
{
    if k < 0 || k >= keys.len() {
        None
    } else {
        match json_lookup_from(entries, keys[k], 0) {
            Some(v) => v,
            None => json_first_from(entries, keys, k + 1),
        }
    }
}

pub open spec fn level_keys() -> Seq<Seq<char>> {
    seq!["level"@, "severity"@, "lvl"@]
}

pub open spec fn timestamp_keys() -> Seq<Seq<char>> {
    seq!["timestamp"@, "time"@, "ts"@, "@timestamp"@]
}

pub open spec fn component_keys() -> Seq<Seq<char>> {
    seq!["component"@, "logger"@, "name"@]
}

pub open spec fn source_keys() -> Seq<Seq<char>> {
    seq!["file"@, "caller"@, "src"@, "location"@]
}

pub open spec fn message_keys() -> Seq<Seq<char>> {
    seq!["message"@, "msg"@, "content"@, "text"@]
}

/// The UTF-8 bytes of optional characters.
pub open spec fn opt_encode(s: Option<Seq<char>>) -> Option<Seq<u8>> {
    match s {
        Some(t) => Some(encode_utf8(t)),
        None => None,
    }
}

/// What a JSON object line yields, given its entries.
pub open spec fn spec_json_fields(entries: JsonEntries) -> Option<ParsedBytes> {
    let level = match json_first_from(entries, level_keys(), 0) {
        Some(v) => spec_level_from_string(v),
        None => None,
    };
    let timestamp = opt_encode(json_first_from(entries, timestamp_keys(), 0));
    let component = opt_encode(json_first_from(entries, component_keys(), 0));
    let source = opt_encode(json_first_from(entries, source_keys(), 0));
    let message = opt_encode(json_first_from(entries, message_keys(), 0));
    if level is Some || timestamp is Some || component is Some || source is Some || message is Some {
        Some(ParsedBytes { level, timestamp, component, source, message })
    } else {
        None
    }
}

/// Looking keys up in order finds the first key of the list that the
/// object has: when `keys[k]` is the first present, first occurring at entry
/// `i`, the result is that entry's string value (nothing when the value is
/// not a string).
pub proof fn lemma_json_first_present(entries: JsonEntries, keys: Seq<Seq<char>>, k: int, i: int)
    requires
        0 <= k < keys.len(),
        0 <= i < entries.len(),
        entries[i].0 == keys[k],
        forall|j: int| 0 <= j < i ==> #[trigger] entries[j].0 != keys[k],
        forall|m: int, j: int| 0 <= m < k && 0 <= j < entries.len() ==> #[trigger] entries[j].0 != #[trigger] keys[m],
    ensures
        json_first_from(entries, keys, 0) == entries[i].1,
{
    lemma_json_first_from_skip(entries, keys, 0, k, i);
}

proof fn lemma_json_lookup_at(entries: JsonEntries, key: Seq<char>, from: int, i: int)
    requires
        0 <= from <= i < entries.len(),
        entries[i].0 == key,
        forall|j: int| from <= j < i ==> #[trigger] entries[j].0 != key,
    ensures
        json_lookup_from(entries, key, from) == Some(entries[i].1),
    decreases i - from,
{
    if from < i {
        lemma_json_lookup_at(entries, key, from + 1, i);
    }
}

proof fn lemma_json_lookup_absent(entries: JsonEntries, key: Seq<char>, from: int)
    requires
        0 <= from,
        forall|j: int| from <= j < entries.len() ==> #[trigger] entries[j].0 != key,
    ensures
        json_lookup_from(entries, key, from) is None,
    decreases entries.len() - from,
{
    if from < entries.len() {
        lemma_json_lookup_absent(entries, key, from + 1);
    }
}

proof fn lemma_json_first_from_skip(entries: JsonEntries, keys: Seq<Seq<char>>, m: int, k: int, i: int)
    requires
        0 <= m <= k < keys.len(),
        0 <= i < entries.len(),
        entries[i].0 == keys[k],
        forall|j: int| 0 <= j < i ==> #[trigger] entries[j].0 != keys[k],
        forall|a: int, j: int| 0 <= a < k && 0 <= j < entries.len() ==> #[trigger] entries[j].0 != #[trigger] keys[a],
    ensures
        json_first_from(entries, keys, m) == entries[i].1,
    decreases k - m,
{
    if m < k {
        assert forall|j: int| 0 <= j < entries.len() implies #[trigger] entries[j].0 != keys[m] by {
            assert(entries[j].0 != keys[m]);
        }
        lemma_json_lookup_absent(entries, keys[m], 0);
        lemma_json_first_from_skip(entries, keys, m + 1, k, i);
    } else {
        lemma_json_lookup_at(entries, keys[k], 0, i);
    }
}

/// The keys each field of a JSON line is read from, in order of preference:
/// the level from `level`, `severity`, `lvl` (a level name in any case);
/// the timestamp from `timestamp`, `time`, `ts`, `@timestamp`; the component
/// from `component`, `logger`, `name`; the source from `file`, `caller`,
/// `src`, `location`; the message from `message`, `msg`, `content`, `text`.
/// A line with none of these is not recognised.
pub proof fn lemma_json_keys(entries: JsonEntries)
    ensures
        ({
            let level = match json_first_from(entries, seq!["level"@, "severity"@, "lvl"@], 0) {
                Some(v) => spec_level_from_string(v),
                None => None,
            };
            let timestamp = opt_encode(json_first_from(entries, seq!["timestamp"@, "time"@, "ts"@, "@timestamp"@], 0));
            let component = opt_encode(json_first_from(entries, seq!["component"@, "logger"@, "name"@], 0));
            let source = opt_encode(json_first_from(entries, seq!["file"@, "caller"@, "src"@, "location"@], 0));
            let message = opt_encode(json_first_from(entries, seq!["message"@, "msg"@, "content"@, "text"@], 0));
            spec_json_fields(entries) == if level is None && timestamp is None && component is None && source is None
                && message is None {
                None
            } else {
                Some(ParsedBytes { level, timestamp, component, source, message })
            }
        }),
{
}

/// A JSON line: after trimming whitespace it starts with `{` and reads as a
/// JSON object; the fields come from the first present of several common
/// key names each.
pub open spec fn spec_parse_json(line: Seq<char>) -> Option<ParsedBytes> {
    let t = trim_chars(line);
    if t.len() == 0 || t[0] != '{' {
        None
    } else {
        match json_object_entries(t) {
            None => None,
            Some(entries) => spec_json_fields(entries),
        }
    }
}

/// Index of the first entry whose key is `key`.
fn json_find(entries: &Vec<(String, Option<String>)>, key: &str) -> (r: Option<usize>)
    ensures
        match r {
            Some(i) => i < entries@.len() && json_lookup_from(entries.deep_view(), key@, 0) == Some(
                entries.deep_view()[i as int].1,
            ),
            None => json_lookup_from(entries.deep_view(), key@, 0) is None,
        },
{
    let mut i: usize = 0;
    while i < entries.len()
        invariant
            i <= entries@.len(),
            json_lookup_from(entries.deep_view(), key@, 0) == json_lookup_from(entries.deep_view(), key@, i as int),
        decreases entries@.len() - i,
    {
        if str_eq(entries[i].0.as_str(), key) {
            return Some(i);
        }
        i += 1;
    }
    None
}

/// The string value of the first of `keys` that the object has.
fn json_first(entries: &Vec<(String, Option<String>)>, keys: &Vec<&str>) -> (r: Option<String>)
    ensures
        r.deep_view() == json_first_from(entries.deep_view(), keys@.map_values(|k: &str| k@), 0),
{
    let ghost kv = keys@.map_values(|k: &str| k@);
    let mut k: usize = 0;
    while k < keys.len()
        invariant
            k <= keys@.len(),
            kv == keys@.map_values(|k: &str| k@),
            json_first_from(entries.deep_view(), kv, 0) == json_first_from(entries.deep_view(), kv, k as int),
        decreases keys@.len() - k,
    {
        match json_find(entries, keys[k]) {
            Some(i) => {
                return match &entries[i].1 {
                    Some(s) => Some(s.clone()),
                    None => None,
                };
            },
            None => {},
        }
        k += 1;
    }
    None
}

/// Reads the fields of an already decoded JSON object.
pub fn json_fields(entries: &Vec<(String, Option<String>)>) -> (r: Option<ParsedLine>)
    ensures
        parsed_view(r) == spec_json_fields(entries.deep_view()),
{
    let level_k = vec!["level", "severity", "lvl"];
    let ts_k = vec!["timestamp", "time", "ts", "@timestamp"];
    let comp_k = vec!["component", "logger", "name"];
    let src_k = vec!["file", "caller", "src", "location"];
    let msg_k = vec!["message", "msg", "content", "text"];
    proof {
        assert(level_k@.map_values(|k: &str| k@) =~= level_keys());
        assert(ts_k@.map_values(|k: &str| k@) =~= timestamp_keys());
        assert(comp_k@.map_values(|k: &str| k@) =~= component_keys());
        assert(src_k@.map_values(|k: &str| k@) =~= source_keys());
        assert(msg_k@.map_values(|k: &str| k@) =~= message_keys());
    }
    let level = match json_first(entries, &level_k) {
        Some(v) => detect_level_from_string(v.as_str()),
        None => None,
    };
    let timestamp = json_first(entries, &ts_k);
    let component = json_first(entries, &comp_k);
    let source = json_first(entries, &src_k);
    let message = json_first(entries, &msg_k);
    if level.is_some() || timestamp.is_some() || component.is_some() || source.is_some() || message.is_some() {
        Some(ParsedLine { level, timestamp, component, source, message })
    } else {
        None
    }
}

/// Reads a JSON-per-line log record.
fn parse_json(line: &str) -> (r: Option<ParsedLine>)
    ensures
        parsed_view(r) == spec_parse_json(line@),
{
    let trimmed = trim(line);
    if trimmed.is_empty() {
        return None;
    }
    if trimmed.get_char(0) != '{' {
        return None;
    }
    match json_object_fields(trimmed) {
        None => None,
        Some(entries) => json_fields(&entries),
    }
}

// ---------------------------------------------------------------------------
// Nginx access lines
// ---------------------------------------------------------------------------

/// Nginx combined log line: client address, request time, request line, status.
pub const NGINX_LINE: &'static str = r#"^(\d+\.\d+\.\d+\.\d+) - .* \[([^\]]+)\] "([^"]*)" (\d+)"#;

/// Start of an nginx combined log line, used to recognise the format.
pub const NGINX_PREFIX: &'static str = r"^\d{1,3}\.\d{1,3}\.\d{1,3}\.\d{1,3} - .* \[";

/// Value of a run of ASCII digits.
pub open spec fn digits_value(d: Seq<u8>) -> nat
    decreases d.len(),
{
    if d.len() == 0 {
        0
    } else {
        digits_value(d.drop_last()) * 10 + (d.last() - 48) as nat
    }
}

pub open spec fn all_ascii_digits(d: Seq<u8>) -> bool {
    forall|i: int| 0 <= i < d.len() ==> 48 <= #[trigger] d[i] <= 57
}

/// `u16::from_str`: an optional `+`, then at least one ASCII digit, with a
/// value that fits in 16 bits.
pub open spec fn spec_parse_u16(b: Seq<u8>) -> Option<u16> {
    let d = if b.len() > 0 && b[0] == 43u8 { b.drop_first() } else { b };
    if d.len() == 0 || !all_ascii_digits(d) || digits_value(d) > 65535 {
        None
    } else {
        Some(digits_value(d) as u16)
    }
}

proof fn lemma_digits_value_prefix(d: Seq<u8>, i: int)
    requires
        0 <= i <= d.len(),
        all_ascii_digits(d),
    ensures
        digits_value(d.subrange(0, i)) <= digits_value(d),
    decreases d.len() - i,
{
    if i < d.len() {
        lemma_digits_value_prefix(d, i + 1);
        assert(d.subrange(0, i + 1).drop_last() =~= d.subrange(0, i));
    } else {
        assert(d.subrange(0, i) =~= d);
    }
}

/// Parses a decimal `u16` as `str::parse::<u16>` does.
pub fn parse_u16(s: &str) -> (r: Option<u16>)
    ensures
        r == spec_parse_u16(s.spec_bytes()),
{
    let b = s.as_bytes();
    let mut i: usize = 0;
    if b.len() > 0 && b[0] == 43 {
        i = 1;
    }
    let ghost d = if b@.len() > 0 && b@[0] == 43u8 { b@.drop_first() } else { b@ };
    let start = i;
    if i >= b.len() {
        return None;
    }
    let mut acc: u32 = 0;
    while i < b.len()
        invariant
            start <= i <= b@.len(),
            b@ == s.spec_bytes(),
            d == (if b@.len() > 0 && b@[0] == 43u8 { b@.drop_first() } else { b@ }),
            start == b@.len() - d.len(),
            d =~= b@.subrange(start as int, b@.len() as int),
            forall|j: int| 0 <= j < i - start ==> 48 <= #[trigger] d[j] <= 57,
            acc as nat == digits_value(d.subrange(0, i - start)),
            acc <= 65535,
        decreases b@.len() - i,
    {
        let c = b[i];
        if c < 48 || c > 57 {
            assert(d[i - start] == c);
            assert(!all_ascii_digits(d));
            return None;
        }
        let next = acc * 10 + (c - 48) as u32;
        proof {
            assert(d.subrange(0, i + 1 - start).drop_last() =~= d.subrange(0, i - start));
            assert(d[i - start] == c);
        }
        if next > 65535 {
            proof {
                if all_ascii_digits(d) {
                    lemma_digits_value_prefix(d, i + 1 - start);
                }
            }
            return None;
        }
        acc = next;
        i += 1;
    }
    proof {
        assert(d.subrange(0, d.len() as int) =~= d);
    }
    Some(acc as u16)
}

/// Status 500 and up is an error, 400 and up a warning, anything else information.
pub open spec fn nginx_level(status: u16) -> LogLevel {
    if status >= 500 {
        LogLevel::Error
    } else if status >= 400 {
        LogLevel::Warn
    } else {
        LogLevel::Info
    }
}

/// Capture group `i`, if the regex has it and it took part in the match.
pub open spec fn group(gs: Seq<Option<Seq<char>>>, i: int) -> Option<Seq<char>> {
    if 0 <= i < gs.len() {
        gs[i]
    } else {
        None
    }
}

/// What an nginx line yields, given the capture groups of `NGINX_LINE`.
pub open spec fn spec_nginx_fields(gs: Seq<Option<Seq<char>>>) -> Option<ParsedBytes> {
    match group(gs, 4) {
        None => None,
        Some(st) => match spec_parse_u16(encode_utf8(st)) {
            None => None,
            Some(code) => Some(
                ParsedBytes {
                    level: Some(nginx_level(code)),
                    timestamp: opt_encode(group(gs, 2)),
                    component: None,
                    source: opt_encode(group(gs, 1)),
                    message: opt_encode(group(gs, 3)),
                },
            ),
        },
    }
}

/// An nginx combined access line: client address as source, request time as
/// timestamp, request line as message, level from the status code.
pub open spec fn spec_parse_nginx(line: Seq<char>) -> Option<ParsedBytes> {
    if !regex_is_valid(NGINX_LINE@) {
        None
    } else {
        match regex_groups(NGINX_LINE@, line) {
            None => None,
            Some(gs) => spec_nginx_fields(gs),
        }
    }
}

/// An nginx line's level comes from its three-digit status: 500 and above
/// is an error, 400 to 499 a warning, anything lower information. Its source
/// is the client address (group 1), its timestamp the bracketed time (group
/// 2) and its message the request line (group 3).
pub proof fn lemma_nginx_status_level(gs: Seq<Option<Seq<char>>>, st: Seq<char>)
    requires
        group(gs, 4) == Some(st),
        encode_utf8(st).len() == 3,
        all_ascii_digits(encode_utf8(st)),
    ensures
        spec_nginx_fields(gs) is Some,
        ({
            let d = encode_utf8(st);
            let code = 100 * (d[0] - 48) + 10 * (d[1] - 48) + (d[2] - 48);
            spec_nginx_fields(gs)->0.level == Some(
                if code >= 500 {
                    LogLevel::Error
                } else if code >= 400 {
                    LogLevel::Warn
                } else {
                    LogLevel::Info
                },
            )
        }),
        spec_nginx_fields(gs)->0.source == opt_encode(group(gs, 1)),
        spec_nginx_fields(gs)->0.timestamp == opt_encode(group(gs, 2)),
        spec_nginx_fields(gs)->0.message == opt_encode(group(gs, 3)),
        spec_nginx_fields(gs)->0.component is None,
{
    let d = encode_utf8(st);
    assert(48 <= d[0] <= 57 && 48 <= d[1] <= 57 && 48 <= d[2] <= 57);
    assert(d.drop_last().drop_last().drop_last() =~= Seq::<u8>::empty());
    assert(d.drop_last().drop_last().last() == d[0]);
    assert(d.drop_last().last() == d[1]);
    assert(digits_value(d.drop_last().drop_last().drop_last()) == 0);
    assert(digits_value(d.drop_last().drop_last()) == (d[0] - 48));
    assert(digits_value(d.drop_last()) == (d[0] - 48) * 10 + (d[1] - 48));
    assert(digits_value(d) == ((d[0] - 48) * 10 + (d[1] - 48)) * 10 + (d[2] - 48));
    assert(d[0] != 43u8);
}

fn get_group(groups: &Vec<Option<String>>, i: usize) -> (r: Option<String>)
    ensures
        r.deep_view() == group(groups.deep_view(), i as int),
{
    if i < groups.len() {
        match &groups[i] {
            Some(s) => Some(s.clone()),
            None => None,
        }
    } else {
        None
    }
}

/// Builds the fields of an nginx line from the capture groups of `NGINX_LINE`.
pub fn nginx_fields(groups: &Vec<Option<String>>) -> (r: Option<ParsedLine>)
    ensures
        parsed_view(r) == spec_nginx_fields(groups.deep_view()),
{
    let source = get_group(groups, 1);
    let timestamp = get_group(groups, 2);
    let message = get_group(groups, 3);
    let status_str = match get_group(groups, 4) {
        Some(s) => s,
        None => return None,
    };
    let status = match parse_u16(status_str.as_str()) {
        Some(v) => v,
        None => return None,
    };
    let level = if status >= 500 {
        Some(LogLevel::Error)
    } else if status >= 400 {
        Some(LogLevel::Warn)
    } else {
        Some(LogLevel::Info)
    };
    Some(ParsedLine { level, timestamp, component: None, source, message })
}

/// Reads an nginx combined access log line.
fn parse_nginx(line: &str) -> (r: Option<ParsedLine>)
    ensures
        parsed_view(r) == spec_parse_nginx(line@),
{
    match regex_captures(NGINX_LINE, line) {
        None => None,
        Some(None) => None,
        Some(Some(groups)) => nginx_fields(&groups),
    }
}

// ---------------------------------------------------------------------------
// Dispatch by format
// ---------------------------------------------------------------------------

/// What parsing a line in a given format yields.
pub open spec fn spec_parse_with_format(line: Seq<char>, format: FileFormat) -> Option<ParsedBytes> {
    match format {
        FileFormat::CMTrace => spec_parse_cmtrace(encode_utf8(line)),
        FileFormat::Json => spec_parse_json(line),
        FileFormat::Nginx => spec_parse_nginx(line),
        FileFormat::Plain => spec_parse_plain(encode_utf8(line)),
    }
}

/// Parses a single line according to the file's format. Returns `None` if
/// nothing recognisable was found.
pub fn parse_with_format(line: &str, format: FileFormat) -> (r: Option<ParsedLine>)
    ensures
        parsed_view(r) == spec_parse_with_format(line@, format),
{
    match format {
        FileFormat::CMTrace => parse_cmtrace(line),
        FileFormat::Json => parse_json(line),
        FileFormat::Nginx => parse_nginx(line),
        FileFormat::Plain => parse_plain(line),
    }
}

// ---------------------------------------------------------------------------
// Format detection
// ---------------------------------------------------------------------------

/// The non-empty lines, in order.
pub open spec fn nonempty_lines(lines: Seq<Seq<char>>) -> Seq<Seq<char>>
    decreases lines.len(),
{
    if lines.len() == 0 {
        seq![]
    } else {
        let rest = nonempty_lines(lines.drop_last());
        if lines.last().len() > 0 {
            rest.push(lines.last())
        } else {
            rest
        }
    }
}

/// At most the first 20 elements.
pub open spec fn first_20(s: Seq<Seq<char>>) -> Seq<Seq<char>> {
    if s.len() > 20 {
        s.take(20)
    } else {
        s
    }
}

/// After trimming leading whitespace, the line starts with `{`.
pub open spec fn looks_like_json(l: Seq<char>) -> bool {
    let t = trim_start_chars(l);
    t.len() > 0 && t[0] == '{'
}

/// Number of lines that look like JSON objects.
pub open spec fn count_json(ls: Seq<Seq<char>>) -> nat
    decreases ls.len(),
{
    if ls.len() == 0 {
        0
    } else {
        count_json(ls.drop_last()) + if looks_like_json(ls.last()) { 1nat } else { 0nat }
    }
}

/// Number of lines on which `NGINX_PREFIX` matches.
pub open spec fn count_nginx(ls: Seq<Seq<char>>) -> nat
    decreases ls.len(),
{
    if ls.len() == 0 {
        0
    } else {
        count_nginx(ls.drop_last()) + if regex_finds(NGINX_PREFIX@, ls.last()) { 1nat } else { 0nat }
    }
}

/// Some line holds the CMTrace start marker `<![LOG[`.
pub open spec fn any_cmtrace(ls: Seq<Seq<char>>) -> bool {
    exists|i: int| 0 <= i < ls.len() && contains_seq(encode_utf8(#[trigger] ls[i]), "<![LOG[".spec_bytes())
}

/// Format detection over the first 20 non-empty lines: CMTrace if any line
/// holds `<![LOG[`; JSON if at least 80% start with `{`; nginx if at least
/// 70% match `NGINX_PREFIX`; plain text otherwise (and when no line is
/// non-empty). The ratios are compared exactly in integers: with at most 20
/// lines, `j / n >= 0.8` holds in `f64` exactly when `5 j >= 4 n`, and
/// `j / n >= 0.7` exactly when `10 j >= 7 n`.
pub open spec fn spec_detect_format(lines: Seq<Seq<char>>) -> FileFormat {
    let ne = first_20(nonempty_lines(lines));
    let n = ne.len();
    if n == 0 {
        FileFormat::Plain
    } else if any_cmtrace(ne) {
        FileFormat::CMTrace
    } else if 5 * count_json(ne) >= 4 * n {
        FileFormat::Json
    } else if regex_is_valid(NGINX_PREFIX@) && 10 * count_nginx(ne) >= 7 * n {
        FileFormat::Nginx
    } else {
        FileFormat::Plain
    }
}

/// How the format is chosen from the first 20 non-empty lines: none at all
/// is plain text; any of them holding the bytes `<![LOG[` makes it CMTrace;
/// otherwise at least four in five starting with `{` (after leading
/// whitespace) make it JSON; otherwise at least seven in ten matching the
/// nginx prefix make it nginx; anything else is plain text.
pub proof fn lemma_format_choice(lines: Seq<Seq<char>>)
    ensures
        ({
            let ne = first_20(nonempty_lines(lines));
            let n = ne.len();
            let cm = exists|i: int| 0 <= i < n && contains_seq(encode_utf8(#[trigger] ne[i]), seq![60u8, 33, 91, 76, 79, 71, 91]);
            spec_detect_format(lines) == if n == 0 {
                FileFormat::Plain
            } else if cm {
                FileFormat::CMTrace
            } else if count_json(ne) * 5 >= n * 4 {
                FileFormat::Json
            } else if regex_is_valid(NGINX_PREFIX@) && count_nginx(ne) * 10 >= n * 7 {
                FileFormat::Nginx
            } else {
                FileFormat::Plain
            }
        }),
{
    reveal_strlit("<![LOG[");
    vstd::utf8::is_ascii_chars_encode_utf8("<![LOG["@);
    assert("<![LOG[".spec_bytes() =~= seq![60u8, 33, 91, 76, 79, 71, 91]);
}

/// Level names, compared after upper-casing: `TRACE`; `DEBUG` or `DBG`;
/// `INFO`; `WARN` or `WARNING`; `ERROR` or `ERR`; `FATAL` or `CRITICAL`.
/// Any other name is no level.
pub proof fn lemma_level_names(u: Seq<char>)
    ensures
        spec_level_from_upper(u) == Some(LogLevel::Trace) <==> u == "TRACE"@,
        spec_level_from_upper(u) == Some(LogLevel::Debug) <==> (u == "DEBUG"@ || u == "DBG"@),
        spec_level_from_upper(u) == Some(LogLevel::Info) <==> u == "INFO"@,
        spec_level_from_upper(u) == Some(LogLevel::Warn) <==> (u == "WARN"@ || u == "WARNING"@),
        spec_level_from_upper(u) == Some(LogLevel::Error) <==> (u == "ERROR"@ || u == "ERR"@),
        spec_level_from_upper(u) == Some(LogLevel::Fatal) <==> (u == "FATAL"@ || u == "CRITICAL"@),
{
    reveal_strlit("TRACE");
    reveal_strlit("DEBUG");
    reveal_strlit("DBG");
    reveal_strlit("INFO");
    reveal_strlit("WARN");
    reveal_strlit("WARNING");
    reveal_strlit("ERROR");
    reveal_strlit("ERR");
    reveal_strlit("FATAL");
    reveal_strlit("CRITICAL");
    assert("TRACE"@[0] == 'T' && "DEBUG"@[0] == 'D' && "DBG"@[0] == 'D' && "INFO"@[0] == 'I');
    assert("WARN"@[0] == 'W' && "WARNING"@[0] == 'W' && "ERROR"@[0] == 'E' && "ERR"@[0] == 'E');
    assert("FATAL"@[0] == 'F' && "CRITICAL"@[0] == 'C');
}

/// The characters of each line.
pub open spec fn line_views(lines: Seq<&str>) -> Seq<Seq<char>> {
    lines.map_values(|l: &str| l@)
}

/// Detects the file format from its first lines.
pub fn detect_format(lines: &[&str]) -> (r: FileFormat)
    ensures
        r == spec_detect_format(line_views(lines@)),
{
    let ghost all = line_views(lines@);
    let mut ne: Vec<&str> = Vec::new();
    let mut i: usize = 0;
    while i < lines.len()
        invariant
            i <= lines@.len(),
            all == line_views(lines@),
            line_views(ne@) == first_20(nonempty_lines(all.take(i as int))),
        decreases lines@.len() - i,
    {
        let l = lines[i];
        proof {
            assert(all.take(i + 1).drop_last() =~= all.take(i as int));
            assert(all.take(i + 1).last() == l@);
        }
        let ghost before = ne@;
        if !l.is_empty() && ne.len() < 20 {
            ne.push(l);
            proof {
                assert(line_views(ne@) =~= line_views(before).push(l@));
            }
        }
        proof {
            let full = nonempty_lines(all.take(i as int));
            if l@.len() > 0 && full.len() >= 20 {
                assert(first_20(full.push(l@)) =~= first_20(full));
            }
        }
        i += 1;
    }
    proof {
        assert(all.take(lines@.len() as int) =~= all);
    }
    let ghost sample = line_views(ne@);
    let n = ne.len();
    if n == 0 {
        return FileFormat::Plain;
    }
    let mut k: usize = 0;
    while k < n
        invariant
            n == ne@.len(),
            k <= n,
            sample == line_views(ne@),
            sample == first_20(nonempty_lines(line_views(lines@))),
            forall|j: int| 0 <= j < k ==> !contains_seq(encode_utf8(#[trigger] sample[j]), "<![LOG[".spec_bytes()),
        decreases n - k,
    {
        if find_bytes(ne[k].as_bytes(), "<![LOG[".as_bytes()).is_some() {
            assert(contains_seq(encode_utf8(sample[k as int]), "<![LOG[".spec_bytes()));
            return FileFormat::CMTrace;
        }
        k += 1;
    }
    let mut json_count: usize = 0;
    let mut k: usize = 0;
    while k < n
        invariant
            n == ne@.len(),
            n <= 20,
            k <= n,
            sample == line_views(ne@),
            json_count as nat == count_json(sample.take(k as int)),
            json_count <= k,
        decreases n - k,
    {
        proof {
            assert(sample.take(k + 1).drop_last() =~= sample.take(k as int));
        }
        let t = trim_start(ne[k]);
        if !t.is_empty() && t.get_char(0) == '{' {
            json_count += 1;
        }
        k += 1;
    }
    proof {
        assert(sample.take(n as int) =~= sample);
    }
    if 5 * json_count >= 4 * n {
        return FileFormat::Json;
    }
    if regex_compiles(NGINX_PREFIX) {
        let mut nginx_count: usize = 0;
        let mut k: usize = 0;
        while k < n
            invariant
                n == ne@.len(),
                n <= 20,
                k <= n,
                regex_is_valid(NGINX_PREFIX@),
                sample == line_views(ne@),
                nginx_count as nat == count_nginx(sample.take(k as int)),
                nginx_count <= k,
            decreases n - k,
        {
            proof {
                assert(sample.take(k + 1).drop_last() =~= sample.take(k as int));
            }
            if regex_is_match(NGINX_PREFIX, ne[k]) {
                nginx_count += 1;
            }
            k += 1;
        }
        proof {
            assert(sample.take(n as int) =~= sample);
        }
        if 10 * nginx_count >= 7 * n {
            return FileFormat::Nginx;
        }
    }
    FileFormat::Plain
}

} // verus!
