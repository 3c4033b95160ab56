use std::path::PathBuf;

use logspike_core::handles::{is_log_file, last_timestamp};
use logspike_core::{FileId, LogFile, SessionId, ViewId, ViewMeta};

#[test]
fn log_extensions() {
    for ext in ["log", "txt", "out", "err", "trace"] {
        assert!(is_log_file(ext), "{ext}");
    }
    for ext in ["", "LOG", "json", "logs", "tx"] {
        assert!(!is_log_file(ext), "{ext}");
    }
}

#[test]
fn last_timestamp_of_file() {
    let lf = LogFile::from_bytes(
        PathBuf::from("a.log"),
        b"2026-01-01T00:00:00 INFO a\n2026-01-02T00:00:00 INFO b\n".to_vec(),
    )
    .unwrap();
    assert_eq!(last_timestamp(&lf).as_deref(), Some("2026-01-02T00:00:00"));
    let plain = LogFile::from_bytes(PathBuf::from("b.log"), b"2026-01-01T00:00:00 x\nno stamp\n".to_vec()).unwrap();
    assert_eq!(last_timestamp(&plain), None);
}

#[test]
fn handles_compare_by_value() {
    assert_eq!(FileId(3), FileId(3));
    assert_ne!(SessionId(1), SessionId(2));
    let m = ViewMeta { id: ViewId(7), line_count: 12 };
    assert_eq!(m.id, ViewId(7));
    assert_eq!(m.line_count, 12);
}
