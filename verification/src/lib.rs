//! Snapshot and cross-file block-match engine.
//!
//! The crate compares two ordered sets of `(path, text)` files and reports
//! spans of identical lines that appear verbatim in different files, grouped
//! by file pair and tagged as first-seen ("moved") or repeated ("added")
//! occurrences.  It also carries the small deterministic helpers of the
//! surrounding snapshot tool: file-list ordering, token-bounded splitting and
//! path filtering.

pub mod args;
pub mod block_hash;
pub mod crossfile;
pub mod matcher;
pub mod scanner;
pub mod snapshot;
pub mod structural;
pub mod text;
pub mod types;

pub use args::Args;
pub use args::Cli;
pub use args::Commands;
pub use block_hash::hash_block;
pub use block_hash::hash_line;
pub use crossfile::annotation_for_line;
pub use crossfile::group_and_filter_matches;
pub use matcher::build_index;
pub use matcher::find_block_matches;
pub use matcher::find_block_matches_multi;
pub use scanner::matches_filters;
pub use scanner::parse_patterns;
pub use snapshot::prepare_file_list;
pub use snapshot::split_files_by_tokens;
pub use structural::extend_structural_block;
pub use structural::is_boundary;
pub use types::BlockMatch;
pub use types::BlockWithVote;
pub use types::FileEntry;
pub use types::GroupedMatches;
