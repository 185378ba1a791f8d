//! The per-item facts a faceted picker groups its rows by: the accept
//! string, the directory / git / recent / heading flags, and the clocks the
//! time lenses compare against (absent where no clock may be read).

use vstd::prelude::*;

verus! {

/// One picker row as its lens buckets see it.
#[derive(Debug, Clone, Copy, PartialEq, Eq)]
pub struct FacetItem<'a> {
    /// The text the row accepts (a root-relative path, a name, a heading).
    pub accept: &'a str,
    /// A directory row.
    pub is_dir: bool,
    /// A directory that is a git repository.
    pub is_git: bool,
    /// In the recently-opened list.
    pub recent: bool,
    /// A document-heading row.
    pub heading: bool,
    /// The row's own time, millis since the epoch.
    pub ts: Option<u64>,
    /// The reference "now", when a clock may be read.
    pub now: Option<u64>,
    /// When this session started, when known.
    pub session_start: Option<u64>,
}

} // verus!
