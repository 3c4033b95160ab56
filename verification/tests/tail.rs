use std::path::PathBuf;

use logspike_core::tail::{action_for, handle_event, TailAction, WatchKind};
use logspike_core::{LogFile, TailEvent};

fn open(bytes: &[u8]) -> LogFile {
    LogFile::from_bytes(PathBuf::from("tail.log"), bytes.to_vec()).unwrap()
}

#[test]
fn actions_by_kind() {
    assert_eq!(action_for(WatchKind::ModifyData), TailAction::Resync);
    assert_eq!(action_for(WatchKind::ModifyAny), TailAction::Resync);
    assert_eq!(action_for(WatchKind::RemoveFile), TailAction::Removed);
    assert_eq!(action_for(WatchKind::RemoveAny), TailAction::Removed);
    assert_eq!(action_for(WatchKind::Other), TailAction::Ignore);
}

#[test]
fn growth_is_reported_as_appended() {
    let mut lf = open(b"first\n");
    let ev = handle_event(WatchKind::ModifyData, &mut lf, Some(b"first\nsecond\nthird\n".to_vec()));
    assert_eq!(ev, Some(TailEvent::Appended { count: 2, total_lines: 3 }));
    assert_eq!(lf.line_count(), 3);
    assert_eq!(lf.line(2).unwrap().text, "third");
}

#[test]
fn shrinking_is_reported_as_rotated() {
    let mut lf = open(b"first\nsecond\n");
    let ev = handle_event(WatchKind::ModifyAny, &mut lf, Some(b"new\n".to_vec()));
    assert_eq!(ev, Some(TailEvent::Rotated));
    // The index is left as it was; the caller reopens.
    assert_eq!(lf.line_count(), 2);
}

#[test]
fn unchanged_or_partial_growth_reports_nothing() {
    let mut lf = open(b"first\nsec");
    assert_eq!(handle_event(WatchKind::ModifyData, &mut lf, Some(b"first\nsec".to_vec())), None);
    assert_eq!(handle_event(WatchKind::ModifyData, &mut lf, Some(b"first\nsecond".to_vec())), None);
    assert_eq!(lf.line(1).unwrap().text, "second");
}

#[test]
fn failed_read_reports_nothing() {
    let mut lf = open(b"first\n");
    assert_eq!(handle_event(WatchKind::ModifyData, &mut lf, None), None);
    assert_eq!(lf.line_count(), 1);
}

#[test]
fn removal_and_other_events() {
    let mut lf = open(b"first\n");
    assert_eq!(handle_event(WatchKind::RemoveFile, &mut lf, None), Some(TailEvent::Removed));
    assert_eq!(handle_event(WatchKind::RemoveAny, &mut lf, Some(b"x\ny\nz\n".to_vec())), Some(TailEvent::Removed));
    assert_eq!(handle_event(WatchKind::Other, &mut lf, Some(b"first\nmore\n".to_vec())), None);
    assert_eq!(lf.line_count(), 1);
}
