//! The library's error type.
use std::path::PathBuf;
use vstd::prelude::*;

verus! {

/// Everything that can go wrong when indexing, reading or searching a log.
#[derive(Debug)]
pub enum Error {
    /// Reading the file failed.
    Io { path: PathBuf, source: std::io::Error },
    /// The file holds no bytes.
    EmptyFile(PathBuf),
    /// A line number at or past the number of lines was asked for.
    LineOutOfRange { requested: u64, total: u64 },
    /// Bytes that are not UTF-8 where UTF-8 was needed.
    InvalidUtf8 { offset: u64 },
    /// A search pattern did not compile.
    Regex(regex::Error),
    /// The file watcher failed.
    Watcher(notify::Error),
}

/// Convenience alias used throughout the crate.
pub type Result<T> = std::result::Result<T, Error>;

impl Error {
    /// Attaches a path to a raw I/O error.
    pub fn io(path: PathBuf, source: std::io::Error) -> (r: Self)
        ensures
            r matches Error::Io { path: p, source: s } && p == path && s == source,
    {
        Error::Io { path, source }
    }
}

} // verus!
