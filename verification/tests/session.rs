use std::path::PathBuf;
use std::sync::Arc;

use logspike_core::{Error, LogFile, LogLevel, Session, View};

fn file(name: &str, lines: &[&str]) -> LogFile {
    let mut out = Vec::new();
    for l in lines {
        out.extend_from_slice(l.as_bytes());
        out.push(b'\n');
    }
    LogFile::from_bytes(PathBuf::from(name), out).unwrap()
}

fn texts(view: &View) -> Vec<String> {
    view.range(0..view.line_count()).into_iter().map(|l| l.line.text).collect()
}

#[test]
fn single_file_session_keeps_order() {
    let s = Session::new(vec![file("a.log", &["one", "two", "three"])]);
    assert_eq!(s.line_count(), 3);
    let l = s.line(1).unwrap();
    assert_eq!(l.line.text, "two");
    assert_eq!(l.line.number, 1);
    assert_eq!(l.source_id, 0);
}

#[test]
fn empty_session_has_no_lines() {
    let s = Session::new(Vec::new());
    assert_eq!(s.line_count(), 0);
    assert!(matches!(s.line(0), Err(Error::LineOutOfRange { requested: 0, total: 0 })));
}

#[test]
fn sessions_merge_chronologically() {
    let a = file("a.log", &["2026-01-01T00:00:01 INFO a1", "2026-01-01T00:00:03 INFO a2"]);
    let b = file("b.log", &["2026-01-01T00:00:02 WARN b1", "2026-01-01T00:00:04 ERROR b2"]);
    let s = Session::new(vec![a, b]);
    assert_eq!(s.line_count(), 4);
    let order: Vec<(u32, String)> = s.range(0..4).into_iter().map(|l| (l.source_id, l.line.text)).collect();
    assert_eq!(order[0], (0, "2026-01-01T00:00:01 INFO a1".to_owned()));
    assert_eq!(order[1], (1, "2026-01-01T00:00:02 WARN b1".to_owned()));
    assert_eq!(order[2], (0, "2026-01-01T00:00:03 INFO a2".to_owned()));
    assert_eq!(order[3], (1, "2026-01-01T00:00:04 ERROR b2".to_owned()));
    // Session line numbers replace the per-file ones.
    assert_eq!(s.line(3).unwrap().line.number, 3);
}

#[test]
fn lines_without_timestamp_come_last_in_file_order() {
    let a = file("a.log", &["no time here", "2026-01-01T00:00:05 INFO late"]);
    let b = file("b.log", &["2026-01-01T00:00:01 INFO early"]);
    let s = Session::new(vec![a, b]);
    let order: Vec<String> = s.range(0..3).into_iter().map(|l| l.line.text).collect();
    // The head of `a` has no timestamp, so `b`'s head goes first; then `a`
    // is the only file left and its lines follow in order.
    assert_eq!(order, vec!["2026-01-01T00:00:01 INFO early", "no time here", "2026-01-01T00:00:05 INFO late"]);
}

#[test]
fn equal_timestamps_prefer_lower_file() {
    let a = file("a.log", &["2026-01-01T00:00:01 INFO from a"]);
    let b = file("b.log", &["2026-01-01T00:00:01 INFO from b"]);
    let s = Session::new(vec![b, a]);
    assert_eq!(s.line(0).unwrap().source_id, 0);
    assert_eq!(s.line(0).unwrap().line.text, "2026-01-01T00:00:01 INFO from b");
}

#[test]
fn view_without_levels_shows_everything() {
    let s = Arc::new(Session::new(vec![file("a.log", &["INFO a", "plain", "ERROR c"])]));
    let v = View::new(s, Vec::new());
    assert_eq!(v.line_count(), 3);
}

#[test]
fn view_filters_by_level() {
    let s = Arc::new(Session::new(vec![file("a.log", &["INFO a", "plain", "ERROR c", "WARN d", "ERROR e"])]));
    let v = View::new(s, vec![LogLevel::Error, LogLevel::Warn]);
    assert_eq!(v.line_count(), 3);
    assert_eq!(texts(&v), vec!["ERROR c", "WARN d", "ERROR e"]);
    let l = v.line(1).unwrap();
    assert_eq!(l.line.number, 1);
    assert!(matches!(v.line(3), Err(Error::LineOutOfRange { requested: 3, total: 3 })));
}

#[test]
fn view_sorts_by_level_text_stably() {
    let s = Arc::new(Session::new(vec![file("a.log", &["WARN one", "ERROR two", "WARN three", "ERROR four"])]));
    let mut v = View::new(s, Vec::new());
    v.sort("level".to_owned(), "asc".to_owned());
    // "Some(Error)" sorts before "Some(Warn)"; equal keys keep their order.
    assert_eq!(texts(&v), vec!["ERROR two", "ERROR four", "WARN one", "WARN three"]);
    v.sort("level".to_owned(), "desc".to_owned());
    assert_eq!(texts(&v), vec!["WARN one", "WARN three", "ERROR two", "ERROR four"]);
}

#[test]
fn view_sorts_by_message_and_number() {
    let s = Arc::new(Session::new(vec![file("a.log", &["b", "c", "a"])]));
    let mut v = View::new(s, Vec::new());
    v.sort("message".to_owned(), "asc".to_owned());
    assert_eq!(texts(&v), vec!["a", "b", "c"]);
    // Any other column sorts by line number, as text.
    v.sort("number".to_owned(), "desc".to_owned());
    assert_eq!(texts(&v), vec!["a", "c", "b"]);
}

#[test]
fn view_sorts_by_number_as_text() {
    let lines: Vec<String> = (0..12).map(|i| format!("line {i}")).collect();
    let refs: Vec<&str> = lines.iter().map(String::as_str).collect();
    let s = Arc::new(Session::new(vec![file("a.log", &refs)]));
    let mut v = View::new(s, Vec::new());
    v.sort("other".to_owned(), "asc".to_owned());
    let got = texts(&v);
    // "10" and "11" sort between "1" and "2".
    assert_eq!(&got[0..4], &["line 0", "line 1", "line 10", "line 11"]);
}

#[test]
fn view_sorts_by_timestamp() {
    let s = Arc::new(Session::new(vec![file(
        "a.log",
        &["2026-01-01T00:00:03 INFO c", "no stamp", "2026-01-01T00:00:01 INFO a"],
    )]));
    let mut v = View::new(s, Vec::new());
    v.sort("timestamp".to_owned(), "asc".to_owned());
    assert_eq!(texts(&v), vec!["no stamp", "2026-01-01T00:00:01 INFO a", "2026-01-01T00:00:03 INFO c"]);
}

#[test]
fn view_range_clamps() {
    let s = Arc::new(Session::new(vec![file("a.log", &["a", "b", "c"])]));
    let v = View::new(s, Vec::new());
    assert_eq!(v.range(1..100).len(), 2);
    assert_eq!(v.range(5..9).len(), 0);
}

#[test]
fn merge_keeps_each_file_in_order() {
    // `a` is not itself in time order; the merge still takes its lines in
    // file order, each exactly once.
    let a = file("a.log", &["2026-01-01T00:00:05 INFO a1", "2026-01-01T00:00:01 INFO a2"]);
    let b = file("b.log", &["2026-01-01T00:00:03 INFO b1"]);
    let s = Session::new(vec![a, b]);
    let order: Vec<(u32, String)> = s.range(0..3).into_iter().map(|l| (l.source_id, l.line.text)).collect();
    assert_eq!(
        order,
        vec![
            (1, "2026-01-01T00:00:03 INFO b1".to_owned()),
            (0, "2026-01-01T00:00:05 INFO a1".to_owned()),
            (0, "2026-01-01T00:00:01 INFO a2".to_owned()),
        ]
    );
}

#[test]
fn sorting_a_single_line_view_reads_nothing() {
    let s = Arc::new(Session::new(vec![file("a.log", &["only"])]));
    let mut v = View::new(s, Vec::new());
    v.sort("message".to_owned(), "desc".to_owned());
    assert_eq!(texts(&v), vec!["only"]);
}

#[test]
fn merge_and_views_take_lines_cut_at_the_head() {
    let mut long = "2026-01-01T00:00:02 INFO ".to_owned();
    long.push_str(&"z".repeat(94));
    long.push('é');
    let a = file("a.log", &["2026-01-01T00:00:01 ERROR a", long.as_str()]);
    let b = file("b.log", &["]LOG]!<![LOG[ not cmtrace", "2026-01-01T00:00:03 WARN b"]);
    let s = Arc::new(Session::new(vec![a, b]));
    assert_eq!(s.line_count(), 4);
    assert_eq!(s.line(1).unwrap().line.text, long);
    let v = View::new(s.clone(), vec![LogLevel::Info]);
    assert_eq!(texts(&v), vec![long.clone()]);
    let mut all = View::new(s, Vec::new());
    all.sort("message".to_owned(), "asc".to_owned());
    assert_eq!(all.line_count(), 4);
    assert_eq!(all.range(3..1).len(), 0);
}
