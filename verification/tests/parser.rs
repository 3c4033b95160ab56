use logspike_core::parser::{
    contains_ascii_ci, detect_format, detect_level, detect_level_from_string, detect_timestamp, parse,
    parse_with_format, parse_u16,
};
use logspike_core::{FileFormat, LogLevel};

#[test]
fn detects_common_levels() {
    assert_eq!(detect_level("2026-04-27T10:00:00 INFO server started"), Some(LogLevel::Info));
    assert_eq!(detect_level("ERROR: something blew up"), Some(LogLevel::Error));
    assert_eq!(detect_level("[warn] disk almost full"), Some(LogLevel::Warn));
    assert_eq!(detect_level("plain text line"), None);
}

#[test]
fn extracts_iso_timestamp_prefix() {
    let p = parse("2026-04-27T12:34:56.789Z INFO ready").unwrap();
    assert_eq!(p.level, Some(LogLevel::Info));
    assert_eq!(p.timestamp.as_deref(), Some("2026-04-27T12:34:56.789Z"));
}

#[test]
fn returns_none_for_unmarked_lines() {
    assert!(parse("just a log line with nothing useful").is_none());
}

#[test]
fn detects_cmtrace_format() {
    let lines = vec![
        "<![LOG[Starting CCMEXEC service...]LOG]!><time=\"14:38:19.048-120\" date=\"04-01-2022\" component=\"CcmExec\" context=\"\" type=\"1\" thread=\"6320\" file=\"entrypoint.cpp:3340\">",
    ];
    assert_eq!(detect_format(&lines), FileFormat::CMTrace);
}

#[test]
fn detects_json_format() {
    let lines = vec![
        r#"{"level":"info","msg":"server started","timestamp":"2026-04-27T10:00:00Z"}"#,
        r#"{"level":"info","msg":"ready","timestamp":"2026-04-27T10:00:01Z"}"#,
    ];
    assert_eq!(detect_format(&lines), FileFormat::Json);
}

#[test]
fn detects_nginx_format() {
    let lines = vec![
        r#"192.168.1.1 - - [27/Apr/2026:12:34:56 +0000] "GET /index.html HTTP/1.1" 200 1234 "-" "Mozilla/5.0""#,
        r#"192.168.1.2 - - [27/Apr/2026:12:34:57 +0000] "POST /api/users HTTP/1.1" 201 567 "-" "curl""#,
    ];
    assert_eq!(detect_format(&lines), FileFormat::Nginx);
}

#[test]
fn parses_cmtrace_line() {
    let line = r#"<![LOG[Starting CCMEXEC service...]LOG]!><time="14:38:19.048-120" date="04-01-2022" component="CcmExec" context="" type="1" thread="6320" file="entrypoint.cpp:3340">"#;
    let p = parse_with_format(line, FileFormat::CMTrace).unwrap();
    assert_eq!(p.level, Some(LogLevel::Info));
    assert_eq!(p.component.as_deref(), Some("CcmExec"));
    assert_eq!(p.source.as_deref(), Some("entrypoint.cpp:3340"));
    assert_eq!(p.message.as_deref(), Some("Starting CCMEXEC service..."));
}

#[test]
fn parses_json_line() {
    let line = r#"{"level":"error","msg":"database error","timestamp":"2026-04-27T10:00:00Z","logger":"db"}"#;
    let p = parse_with_format(line, FileFormat::Json).unwrap();
    assert_eq!(p.level, Some(LogLevel::Error));
    assert_eq!(p.message.as_deref(), Some("database error"));
    assert_eq!(p.component.as_deref(), Some("db"));
}

#[test]
fn parses_nginx_line() {
    let line = r#"192.168.1.1 - - [27/Apr/2026:12:34:56 +0000] "GET /index.html HTTP/1.1" 200 1234 "-" "Mozilla/5.0""#;
    let p = parse_with_format(line, FileFormat::Nginx).unwrap();
    assert_eq!(p.level, Some(LogLevel::Info));
    assert_eq!(p.source.as_deref(), Some("192.168.1.1"));
    assert_eq!(p.message.as_deref(), Some("GET /index.html HTTP/1.1"));
}

#[test]
fn parses_nginx_error() {
    let line = r#"192.168.1.1 - - [27/Apr/2026:12:34:56 +0000] "GET /missing HTTP/1.1" 404 1234 "-" "Mozilla/5.0""#;
    let p = parse_with_format(line, FileFormat::Nginx).unwrap();
    assert_eq!(p.level, Some(LogLevel::Warn));
}

#[test]
fn parses_nginx_server_error() {
    let line = r#"192.168.1.1 - - [27/Apr/2026:12:34:56 +0000] "GET /api HTTP/1.1" 503 1234 "-" "Mozilla/5.0""#;
    let p = parse_with_format(line, FileFormat::Nginx).unwrap();
    assert_eq!(p.level, Some(LogLevel::Error));
}

// ---------------------------------------------------------------------------
// Further cases
// ---------------------------------------------------------------------------

#[test]
fn level_words_are_case_insensitive() {
    assert_eq!(detect_level_from_string("warning"), Some(LogLevel::Warn));
    assert_eq!(detect_level_from_string("Fatal"), Some(LogLevel::Fatal));
    assert_eq!(detect_level_from_string("critical"), Some(LogLevel::Fatal));
    assert_eq!(detect_level_from_string("crit"), None);
    assert_eq!(detect_level_from_string("dbg"), Some(LogLevel::Debug));
    assert_eq!(detect_level_from_string("nope"), None);
}

#[test]
fn level_markers_by_priority() {
    // FATAL is looked for before ERROR.
    assert_eq!(detect_level("FATAL ERROR in core"), Some(LogLevel::Fatal));
    assert_eq!(detect_level("trace: entering"), Some(LogLevel::Trace));
    assert_eq!(detect_level("debug value=1"), Some(LogLevel::Debug));
}

#[test]
fn timestamp_needs_date_shape() {
    assert_eq!(detect_timestamp("2026-04-27 10:00:00 hello").as_deref(), Some("2026-04-27"));
    assert_eq!(detect_timestamp("27/04/2026 hello"), None);
    assert_eq!(detect_timestamp("short"), None);
}

#[test]
fn ascii_case_insensitive_contains() {
    assert!(contains_ascii_ci("Hello WORLD", "world"));
    assert!(!contains_ascii_ci("ab", "abc"));
}

#[test]
fn plain_format_keeps_whole_line_as_message() {
    let p = parse_with_format("2026-04-27T10:00:00 WARN low disk", FileFormat::Plain).unwrap();
    assert_eq!(p.level, Some(LogLevel::Warn));
    assert_eq!(p.message.as_deref(), Some("2026-04-27T10:00:00 WARN low disk"));
    assert_eq!(p.component, None);
}

#[test]
fn json_without_object_is_none() {
    assert!(parse_with_format("not json at all", FileFormat::Json).is_none());
    assert!(parse_with_format("[1,2,3]", FileFormat::Json).is_none());
}

#[test]
fn json_alternative_keys() {
    let line = r#"{"severity":"WARNING","message":"slow","time":"2026-04-27T10:00:00Z","component":"net"}"#;
    let p = parse_with_format(line, FileFormat::Json).unwrap();
    assert_eq!(p.level, Some(LogLevel::Warn));
    assert_eq!(p.message.as_deref(), Some("slow"));
    assert_eq!(p.timestamp.as_deref(), Some("2026-04-27T10:00:00Z"));
    assert_eq!(p.component.as_deref(), Some("net"));
}

#[test]
fn nginx_non_matching_line_is_none() {
    assert!(parse_with_format("hello world", FileFormat::Nginx).is_none());
}

#[test]
fn nginx_timestamp_and_component() {
    let line = r#"10.0.0.5 - bob [27/Apr/2026:12:34:56 +0000] "GET / HTTP/1.1" 301 0 "-" "curl""#;
    let p = parse_with_format(line, FileFormat::Nginx).unwrap();
    assert_eq!(p.level, Some(LogLevel::Info));
    assert_eq!(p.timestamp.as_deref(), Some("27/Apr/2026:12:34:56 +0000"));
}

#[test]
fn cmtrace_error_type() {
    let line = r#"<![LOG[Disk failure]LOG]!><time="14:38:19.048-120" date="04-01-2022" component="Disk" context="" type="3" thread="1" file="disk.cpp:1">"#;
    let p = parse_with_format(line, FileFormat::CMTrace).unwrap();
    assert_eq!(p.level, Some(LogLevel::Error));
    assert_eq!(p.message.as_deref(), Some("Disk failure"));
}

#[test]
fn cmtrace_without_markers_is_none() {
    assert!(parse_with_format("plain text", FileFormat::CMTrace).is_none());
}

#[test]
fn detects_plain_format_for_mixed_lines() {
    let lines = vec!["hello", "world", ""];
    assert_eq!(detect_format(&lines), FileFormat::Plain);
    let empty: Vec<&str> = vec![];
    assert_eq!(detect_format(&empty), FileFormat::Plain);
}

#[test]
fn head_is_cut_at_a_character_boundary() {
    // Byte 120 falls inside the two-byte 'é': the head stops before it.
    let mut s = "a".repeat(119);
    s.push('é');
    assert!(parse(&s).is_none());
    assert_eq!(detect_level(&s), None);
    assert!(parse_with_format(&s, FileFormat::Plain).is_none());
    // A level word inside the shortened head is still found.
    let mut w = "WARN ".to_owned();
    w.push_str(&"b".repeat(114));
    w.push('é');
    w.push_str(" ERROR only after the head");
    assert_eq!(detect_level(&w), Some(LogLevel::Warn));
    // "ERROR" starting at byte 118 would need bytes past the head.
    let mut late = "c".repeat(118);
    late.push_str("ERROR");
    assert_eq!(detect_level(&late), None);
}

#[test]
fn cmtrace_end_marker_before_start_is_unrecognised() {
    assert!(parse_with_format("]LOG]!<![LOG[x", FileFormat::CMTrace).is_none());
    assert!(parse_with_format("]LOG]!<![LOG[", FileFormat::CMTrace).is_none());
    let p = parse_with_format("<![LOG[]LOG]!", FileFormat::CMTrace).unwrap();
    assert_eq!(p.message.as_deref(), Some(""));
}

#[test]
fn parses_decimal_status() {
    assert_eq!(parse_u16("404"), Some(404));
    assert_eq!(parse_u16("65535"), Some(65535));
    assert_eq!(parse_u16("65536"), None);
    assert_eq!(parse_u16(""), None);
    assert_eq!(parse_u16("4x4"), None);
}

#[test]
fn json_line_may_be_padded_with_whitespace() {
    let line = "  \t{\"level\":\"debug\",\"msg\":\"padded\"}  ";
    let p = parse_with_format(line, FileFormat::Json).unwrap();
    assert_eq!(p.level, Some(LogLevel::Debug));
    assert_eq!(p.message.as_deref(), Some("padded"));
}

#[test]
fn indented_json_lines_are_detected() {
    let lines = vec!["   {\"a\":1}", "\t{\"b\":2}", "{\"c\":3}", "{\"d\":4}", "plain"];
    // Four of five non-empty lines start with `{` once leading blanks go: 80%.
    assert_eq!(detect_format(&lines), FileFormat::Json);
    let fewer = vec!["{\"a\":1}", "x", "y"];
    assert_eq!(detect_format(&fewer), FileFormat::Plain);
}
