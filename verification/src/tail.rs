//! Live-tail decisions.
//!
//! Watching a file is the caller's business (it needs the operating system's
//! notification mechanism and a thread); what a notification means for the
//! index is decided here. A data change makes the caller read the file and
//! hand its content back; growth extends the index and is reported as
//! `Appended`, shrinking is reported as `Rotated` (the caller is expected to
//! reopen the file), and deletion as `Removed`.
use vstd::prelude::*;
use crate::index::LogFile;

verus! {

/// Notifications a tailer emits.
#[derive(Debug, Clone, Copy, PartialEq, Eq, Structural)]
pub enum TailEvent {
    /// `count` lines were appended; total now `total_lines`.
    Appended { count: u64, total_lines: u64 },
    /// File was truncated or rotated; caller should reopen.
    Rotated,
    /// File was deleted while watching.
    Removed,
}

/// The kinds of file-system notification that matter to a tailer.
#[derive(Debug, Clone, Copy, PartialEq, Eq, Structural)]
pub enum WatchKind {
    /// The file's data changed.
    ModifyData,
    /// The file changed in an unspecified way.
    ModifyAny,
    /// The file was removed.
    RemoveFile,
    /// Something was removed, kind unspecified.
    RemoveAny,
    /// Any other notification.
    Other,
}

/// What the caller does with a notification.
#[derive(Debug, Clone, Copy, PartialEq, Eq, Structural)]
pub enum TailAction {
    /// Read the file and hand its content to `handle_event`.
    Resync,
    /// Report `TailEvent::Removed`.
    Removed,
    /// Nothing.
    Ignore,
}

/// A data change (of any kind) to the file.
pub open spec fn is_modify(kind: WatchKind) -> bool {
    kind == WatchKind::ModifyData || kind == WatchKind::ModifyAny
}

/// A removal (of the file, or unspecified).
pub open spec fn is_remove(kind: WatchKind) -> bool {
    kind == WatchKind::RemoveFile || kind == WatchKind::RemoveAny
}

/// What a notification asks for: modifications a resync, removals a
/// `Removed` event, anything else nothing.
pub fn action_for(kind: WatchKind) -> (r: TailAction)
    ensures
        is_modify(kind) <==> r == TailAction::Resync,
        is_remove(kind) <==> r == TailAction::Removed,
        !is_modify(kind) && !is_remove(kind) <==> r == TailAction::Ignore,
{
    match kind {
        WatchKind::ModifyData | WatchKind::ModifyAny => TailAction::Resync,
        WatchKind::RemoveFile | WatchKind::RemoveAny => TailAction::Removed,
        WatchKind::Other => TailAction::Ignore,
    }
}

/// Handles one notification for `file`. For a modification, `current` is the
/// file's content as read now (`None` when reading failed, which is passed
/// over); the index is resynced with it and the growth reported as
/// `Appended`, or, when nothing was gained and the file is now shorter than
/// what was indexed, `Rotated`. A removal is reported as `Removed`; anything
/// else is ignored. Only a modification with content changes the index.
pub fn handle_event(kind: WatchKind, file: &mut LogFile, current: Option<Vec<u8>>) -> (r: Option<TailEvent>)
    requires
        old(file).wf(),
        current matches Some(c) ==> c@.len() <= 0x7fff_ffff_ffff_ffff,
    ensures
        final(file).wf(),
        final(file).file_path() == old(file).file_path(),
        final(file).file_format() == old(file).file_format(),
        !(is_modify(kind) && current is Some) ==> *final(file) == *old(file),
        is_remove(kind) ==> r == Some(TailEvent::Removed),
        !is_modify(kind) && !is_remove(kind) ==> r is None,
        is_modify(kind) && current is None ==> r is None,
        is_modify(kind) ==> (current matches Some(c) ==> {
            &&& c@.len() <= old(file).content().len() ==> final(file).content() == old(file).content()
                && final(file).table() == old(file).table()
            &&& c@.len() > old(file).content().len() ==> final(file).content() == c@
                && final(file).table() == crate::index::resynced_table(old(file).table(), c@)
            &&& final(file).num_lines() > old(file).num_lines() ==> r == Some(
                TailEvent::Appended {
                    count: (final(file).num_lines() - old(file).num_lines()) as u64,
                    total_lines: final(file).num_lines() as u64,
                },
            )
            &&& final(file).num_lines() <= old(file).num_lines() ==> (r == if c@.len() < old(file).content().len() {
                Some(TailEvent::Rotated)
            } else {
                None
            })
        }),
{
    match kind {
        WatchKind::ModifyData | WatchKind::ModifyAny => {
            let bytes = match current {
                Some(b) => b,
                None => return None,
            };
            let len_on_disk = bytes.len() as u64;
            let count = file.resync(bytes);
            if count == 0 {
                if len_on_disk < file.byte_len() {
                    Some(TailEvent::Rotated)
                } else {
                    None
                }
            } else {
                Some(TailEvent::Appended { count, total_lines: file.line_count() })
            }
        },
        WatchKind::RemoveFile | WatchKind::RemoveAny => Some(TailEvent::Removed),
        WatchKind::Other => None,
    }
}

} // verus!
