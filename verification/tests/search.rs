use std::path::PathBuf;

use logspike_core::search::DEFAULT_MAX_RESULTS;
use logspike_core::{Error, LogFile, SearchOptions, Searcher};

fn write_lines(lines: &[&str]) -> LogFile {
    let mut out = Vec::new();
    for l in lines {
        out.extend_from_slice(l.as_bytes());
        out.push(b'\n');
    }
    LogFile::from_bytes(PathBuf::from("search.log"), out).unwrap()
}

fn opts(pattern: &str, case_sensitive: bool, regex: bool, max_results: Option<usize>) -> SearchOptions {
    SearchOptions { pattern: pattern.to_owned(), case_sensitive, regex, max_results }
}

#[test]
fn finds_literal_matches() {
    let lf = write_lines(&["alpha apple", "beta", "gamma apple pie"]);
    let hits = Searcher::run(
        &lf,
        SearchOptions { pattern: "apple".into(), case_sensitive: true, regex: false, max_results: None },
    )
    .unwrap();
    assert_eq!(hits.len(), 2);
    assert_eq!(hits[0].line_number, 0);
    assert_eq!(hits[1].line_number, 2);
}

#[test]
fn case_insensitive_literal() {
    let lf = write_lines(&["ERROR boom", "info ok", "Error again"]);
    let hits = Searcher::run(
        &lf,
        SearchOptions { pattern: "error".into(), case_sensitive: false, regex: false, max_results: None },
    )
    .unwrap();
    assert_eq!(hits.len(), 2);
}

#[test]
fn regex_match() {
    let lf = write_lines(&["id=42 ok", "id=7 fail", "id=999 ok"]);
    let hits = Searcher::run(
        &lf,
        SearchOptions { pattern: r"id=\d{2,}".into(), case_sensitive: true, regex: true, max_results: None },
    )
    .unwrap();
    assert_eq!(hits.len(), 2);
    assert_eq!(hits[0].line_number, 0);
    assert_eq!(hits[1].line_number, 2);
}

#[test]
fn respects_max_results() {
    let mut lines: Vec<String> = (0..10_000).map(|i| format!("hit_{i} hit")).collect();
    lines.push("tail".into());
    let refs: Vec<&str> = lines.iter().map(String::as_str).collect();
    let lf = write_lines(&refs);
    let hits = Searcher::run(
        &lf,
        SearchOptions { pattern: "hit".into(), case_sensitive: true, regex: false, max_results: Some(50) },
    )
    .unwrap();
    assert_eq!(hits.len(), 50);
}

// ---------------------------------------------------------------------------
// Further cases
// ---------------------------------------------------------------------------

#[test]
fn match_positions_within_line() {
    let lf = write_lines(&["xx", "ab apple apple"]);
    let hits = Searcher::run(&lf, opts("apple", true, false, None)).unwrap();
    assert_eq!(hits.len(), 2);
    assert_eq!(hits[0].line_number, 1);
    assert_eq!(hits[0].byte_offset, 3);
    assert_eq!(hits[0].match_start, 3);
    assert_eq!(hits[0].match_end, 8);
    assert_eq!(hits[1].match_start, 9);
    assert_eq!(hits[1].match_end, 14);
}

#[test]
fn case_sensitive_literal_misses_other_case() {
    let lf = write_lines(&["ERROR boom", "Error again", "error here"]);
    let hits = Searcher::run(&lf, opts("error", true, false, None)).unwrap();
    assert_eq!(hits.len(), 1);
    assert_eq!(hits[0].line_number, 2);
}

#[test]
fn literal_matches_do_not_overlap() {
    let lf = write_lines(&["aaaa"]);
    let hits = Searcher::run(&lf, opts("aa", true, false, None)).unwrap();
    assert_eq!(hits.len(), 2);
    assert_eq!(hits[0].match_start, 0);
    assert_eq!(hits[1].match_start, 2);
}

#[test]
fn regex_ignoring_case() {
    let lf = write_lines(&["Warn: a", "warn: b", "info"]);
    let hits = Searcher::run(&lf, opts("warn:", false, true, None)).unwrap();
    assert_eq!(hits.len(), 2);
    let strict = Searcher::run(&lf, opts("warn:", true, true, None)).unwrap();
    assert_eq!(strict.len(), 1);
    assert_eq!(strict[0].line_number, 1);
}

#[test]
fn invalid_regex_is_refused() {
    let lf = write_lines(&["anything"]);
    let r = Searcher::run(&lf, opts("(unclosed", true, true, None));
    assert!(matches!(r, Err(Error::Regex(_))));
    // The same text is a fine literal.
    let lf2 = write_lines(&["a (unclosed paren"]);
    let hits = Searcher::run(&lf2, opts("(unclosed", true, false, None)).unwrap();
    assert_eq!(hits.len(), 1);
    assert_eq!(hits[0].match_start, 2);
}

#[test]
fn zero_limit_gives_nothing() {
    let lf = write_lines(&["hit hit"]);
    let hits = Searcher::run(&lf, opts("hit", true, false, Some(0))).unwrap();
    assert!(hits.is_empty());
}

#[test]
fn default_limit_applies() {
    assert_eq!(DEFAULT_MAX_RESULTS, 100_000);
    let lines: Vec<String> = (0..100).map(|_| "x".repeat(1001)).collect();
    let refs: Vec<&str> = lines.iter().map(String::as_str).collect();
    let lf = write_lines(&refs);
    let hits = Searcher::run(&lf, opts("x", true, false, None)).unwrap();
    assert_eq!(hits.len(), 100_000);
    assert_eq!(hits[99_999].line_number, 99);
}

#[test]
fn results_are_sorted_across_chunks() {
    // About three mebibytes, so the search runs over several chunks.
    let line = "needle ".repeat(150);
    let lines: Vec<&str> = (0..3000).map(|_| line.as_str()).collect();
    let lf = write_lines(&lines);
    let hits = Searcher::run(&lf, opts("needle", true, false, Some(1_000_000))).unwrap();
    assert_eq!(hits.len(), 3000 * 150);
    for w in hits.windows(2) {
        assert!(
            w[0].line_number < w[1].line_number
                || (w[0].line_number == w[1].line_number && w[0].match_start < w[1].match_start)
        );
    }
    assert_eq!(hits[150].line_number, 1);
    assert_eq!(hits[150].byte_offset, line.len() as u64 + 1);
}

#[test]
fn empty_regex_match_at_end_of_chunk_names_closing_line() {
    // An empty match after the last byte lies on the closing entry of the table.
    let lf = write_lines(&["a"]);
    let hits = Searcher::run(&lf, opts("$", true, true, None)).unwrap();
    assert_eq!(hits.len(), 1);
    assert_eq!(hits[0].line_number, 1);
    assert_eq!(hits[0].match_start, 0);
}
