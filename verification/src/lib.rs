//! Log indexing, parsing, searching and tailing for a log viewer.
//!
//! A `LogFile` indexes a file's bytes by line; lines are parsed on demand
//! into level, timestamp, component, source and message according to the
//! detected format (plain text, JSON, CMTrace or nginx). A `Session` merges
//! several files chronologically and a `View` filters and sorts a session.
//! `Searcher` finds literal or regex matches, and the tail module decides
//! what a file-system notification means for an index.
use vstd::prelude::*;

pub mod text;
pub mod trusted;
pub mod parser;
pub mod error;
pub mod index;
pub mod sort;
pub mod session;
pub mod search;
pub mod tail;
pub mod handles;

pub use error::{Error, Result};
pub use index::{LineRange, LogFile, LogLine};
pub use session::{Session, SessionLine, View};
pub use parser::{FileFormat, LogLevel, ParsedLine};
pub use search::{Match, SearchOptions, Searcher};
pub use tail::TailEvent;
pub use handles::{FileId, SessionId, ViewId, ViewMeta};

verus! {

} // verus!
