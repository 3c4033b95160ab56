use std::path::PathBuf;

use logspike_core::index::build_offsets;
use logspike_core::{Error, FileFormat, LogFile};

fn file_of_lines(lines: &[&str]) -> Vec<u8> {
    let mut out = Vec::new();
    for l in lines {
        out.extend_from_slice(l.as_bytes());
        out.push(b'\n');
    }
    out
}

fn open(bytes: Vec<u8>) -> LogFile {
    LogFile::from_bytes(PathBuf::from("test.log"), bytes).unwrap()
}

#[test]
fn indexes_basic_lines() {
    let lf = open(file_of_lines(&["alpha", "beta", "gamma"]));
    assert_eq!(lf.line_count(), 3);
    assert_eq!(lf.line(0).unwrap().text, "alpha");
    assert_eq!(lf.line(2).unwrap().text, "gamma");
}

#[test]
fn range_clamps_to_file_length() {
    let lf = open(file_of_lines(&["a", "b", "c"]));
    let rows = lf.range(0..1000);
    assert_eq!(rows.len(), 3);
}

#[test]
fn resync_picks_up_appended_lines() {
    let mut lf = open(file_of_lines(&["one", "two"]));
    assert_eq!(lf.line_count(), 2);

    let grown = file_of_lines(&["one", "two", "three", "four"]);
    let added = lf.resync(grown);
    assert_eq!(added, 2);
    assert_eq!(lf.line_count(), 4);
    assert_eq!(lf.line(3).unwrap().text, "four");
}

#[test]
fn handles_crlf_line_endings() {
    let lf = open(b"hello\r\nworld\r\n".to_vec());
    assert_eq!(lf.line_count(), 2);
    assert_eq!(lf.line(0).unwrap().text, "hello");
    assert_eq!(lf.line(1).unwrap().text, "world");
}

#[test]
fn rejects_empty_file() {
    assert!(matches!(LogFile::from_bytes(PathBuf::from("empty.log"), Vec::new()), Err(Error::EmptyFile(_))));
}

#[test]
fn resync_repairs_unterminated_last_line() {
    // Initial content has no trailing newline — the last "line" is partial.
    let mut lf = open(b"first\nsecond_par".to_vec());
    assert_eq!(lf.line_count(), 2);
    assert_eq!(lf.line(1).unwrap().text, "second_par");

    // The rest of the second line plus a complete third line arrive.
    lf.resync(b"first\nsecond_partial\nthird\n".to_vec());
    assert_eq!(lf.line_count(), 3);
    assert_eq!(lf.line(1).unwrap().text, "second_partial");
    assert_eq!(lf.line(2).unwrap().text, "third");
}

// ---------------------------------------------------------------------------
// Further cases
// ---------------------------------------------------------------------------

#[test]
fn offsets_of_terminated_and_unterminated_content() {
    assert_eq!(build_offsets(b"ab\ncd\n", 0), vec![0, 3, 6]);
    assert_eq!(build_offsets(b"ab\ncd", 0), vec![0, 3, 5]);
    assert_eq!(build_offsets(b"\n\n", 0), vec![0, 1, 2]);
    // A scan that starts mid-file keeps its start as the first entry.
    assert_eq!(build_offsets(b"ab\ncd\nef", 3), vec![3, 6, 8]);
}

#[test]
fn line_past_end_is_refused() {
    let lf = open(file_of_lines(&["only"]));
    match lf.line(1) {
        Err(Error::LineOutOfRange { requested, total }) => {
            assert_eq!(requested, 1);
            assert_eq!(total, 1);
        },
        _ => panic!("expected LineOutOfRange"),
    }
}

#[test]
fn line_carries_number_offset_and_parse() {
    let lf = open(file_of_lines(&["x", "2026-04-27T10:00:00 ERROR boom"]));
    let l = lf.line(1).unwrap();
    assert_eq!(l.number, 1);
    assert_eq!(l.byte_offset, 2);
    let p = l.parsed.unwrap();
    assert_eq!(p.timestamp.as_deref(), Some("2026-04-27T10:00:00"));
    assert!(lf.line(0).unwrap().parsed.is_none());
}

#[test]
fn range_window_inside_and_past_end() {
    let lf = open(file_of_lines(&["a", "b", "c", "d"]));
    let rows = lf.range(1..3);
    assert_eq!(rows.len(), 2);
    assert_eq!(rows[0].text, "b");
    assert_eq!(rows[0].number, 1);
    assert_eq!(rows[1].text, "c");
    assert_eq!(lf.range(10..20).len(), 0);
    assert_eq!(lf.range(2..100).len(), 2);
    // Reversed once clamped: empty.
    assert_eq!(lf.range(3..1).len(), 0);
    assert_eq!(lf.range(100..2).len(), 0);
}

#[test]
fn every_line_reads_even_when_cut_at_the_head() {
    let mut long = "x".repeat(119);
    long.push('é');
    long.push_str(" tail");
    let lf = open(file_of_lines(&[long.as_str(), "]LOG]!<![LOG[ odd"]));
    assert_eq!(lf.line_count(), 2);
    assert_eq!(lf.line(0).unwrap().text, long);
    assert!(lf.line(0).unwrap().parsed.is_none());
    assert_eq!(lf.range(0..2).len(), 2);
}

#[test]
fn invalid_utf8_is_replaced() {
    let lf = open(vec![b'o', b'k', 0xff, b'!', b'\n']);
    assert_eq!(lf.line(0).unwrap().text, "ok\u{FFFD}!");
}

#[test]
fn resync_without_growth_changes_nothing() {
    let mut lf = open(file_of_lines(&["one", "two"]));
    assert_eq!(lf.resync(b"one".to_vec()), 0);
    assert_eq!(lf.line_count(), 2);
    assert_eq!(lf.byte_len(), 8);
    assert_eq!(lf.resync(file_of_lines(&["one", "two"])), 0);
    assert_eq!(lf.line(1).unwrap().text, "two");
}

#[test]
fn resync_growth_within_last_line_counts_zero() {
    let mut lf = open(b"a\nbc".to_vec());
    assert_eq!(lf.resync(b"a\nbcd".to_vec()), 0);
    assert_eq!(lf.byte_len(), 5);
    assert_eq!(lf.line(1).unwrap().text, "bcd");
}

#[test]
fn detects_format_of_json_file() {
    let lf = open(file_of_lines(&[r#"{"level":"info","msg":"a"}"#, r#"{"level":"warn","msg":"b"}"#]));
    assert_eq!(lf.format(), FileFormat::Json);
    assert_eq!(lf.path(), &PathBuf::from("test.log"));
}

#[test]
fn single_line_without_newline() {
    let lf = open(b"lonely".to_vec());
    assert_eq!(lf.line_count(), 1);
    assert_eq!(lf.line(0).unwrap().text, "lonely");
}
