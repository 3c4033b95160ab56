//! Opaque handles for open files, sessions and views, and the small facts
//! a front end asks about them.
use vstd::prelude::*;
use crate::index::LogFile;
use crate::parser::opt_bytes;
use crate::session::line_timestamp;

verus! {

/// Opaque handle of an open file.
#[derive(Debug, Clone, Copy, PartialEq, Eq, Structural, Hash)]
pub struct FileId(pub u64);

/// Opaque handle of a session.
#[derive(Debug, Clone, Copy, PartialEq, Eq, Structural, Hash)]
pub struct SessionId(pub u64);

/// Opaque handle of a view.
#[derive(Debug, Clone, Copy, PartialEq, Eq, Structural, Hash)]
pub struct ViewId(pub u64);

/// What the front end is told about a view.
#[derive(Debug, Clone, Copy, PartialEq, Eq, Structural)]
pub struct ViewMeta {
    pub id: ViewId,
    pub line_count: u64,
}

/// Whether a file with this extension (without the dot; empty when there is
/// none) is taken for a log: `log`, `txt`, `out`, `err` or `trace`.
pub fn is_log_file(extension: &str) -> (r: bool)
    ensures
        r == (extension@ == "log"@ || extension@ == "txt"@ || extension@ == "out"@ || extension@ == "err"@
            || extension@ == "trace"@),
{
    crate::parser::str_eq(extension, "log") || crate::parser::str_eq(extension, "txt") || crate::parser::str_eq(
        extension,
        "out",
    ) || crate::parser::str_eq(extension, "err") || crate::parser::str_eq(extension, "trace")
}

/// The timestamp of the last line of a file, if it has lines and parsing
/// finds one there.
pub fn last_timestamp(log: &LogFile) -> (r: Option<String>)
    requires
        log.wf(),
    ensures
        log.num_lines() == 0 ==> r is None,
        log.num_lines() > 0 ==> opt_bytes(r) == line_timestamp(*log, log.num_lines() - 1),
{
    let line_count = log.line_count();
    if line_count > 0 {
        match log.line(line_count - 1) {
            Ok(l) => match l.parsed {
                Some(p) => p.timestamp,
                None => None,
            },
            Err(_) => None,
        }
    } else {
        None
    }
}

} // verus!
