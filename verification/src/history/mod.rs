//! Automatic local snapshots for loose files: the on-disk log format, the
//! aged retention ladder that keeps the log small, the store operations over
//! the filesystem seam, and the timeline picker's read model.

pub mod codec;
pub mod prune;
pub mod store;
pub mod picker;

pub use picker::{
    auto_description, clamp_line_col, clock_hm, first_changed_line, line_diff_counts, mark_session_start,
    relative_label, rows_from, session_epoch_ms, source_path, timeline_rows, SessionEpoch, TimelineRow,
};
pub use codec::Entry;
pub use prune::prune_ladder;
pub use store::{
    git_repo_root, is_git_managed, list, load, now_millis, record, record_at, record_pinned, rename, Snapshot,
};
