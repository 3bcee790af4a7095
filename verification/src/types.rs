//! The data model of the block-match engine: matched blocks, voted blocks,
//! grouped results and file-list entries.

use vstd::prelude::*;

verus! {

/// A span of identical lines found in two files: `from_range` lines of
/// `from_file` equal `to_range` lines of `to_file`.  Both ranges are
/// half-open `[start, end)` line intervals.
#[derive(Debug)]
pub struct BlockMatch {
    pub from_file: String,
    pub from_range: (usize, usize),
    pub to_file: String,
    pub to_range: (usize, usize),
}

impl Clone for BlockMatch {
    fn clone(&self) -> (r: BlockMatch)
        ensures
            r == *self,
    {
        BlockMatch {
            from_file: self.from_file.clone(),
            from_range: (self.from_range.0, self.from_range.1),
            to_file: self.to_file.clone(),
            to_range: (self.to_range.0, self.to_range.1),
        }
    }
}

/// The mathematical value of a [`BlockMatch`]: paths as character sequences,
/// ranges as unbounded integers.
#[verifier::ext_equal]
pub ghost struct BlockMatchView {
    pub from_file: Seq<char>,
    pub from_range: (int, int),
    pub to_file: Seq<char>,
    pub to_range: (int, int),
}

impl View for BlockMatch {
    type V = BlockMatchView;

    open spec fn view(&self) -> BlockMatchView {
        BlockMatchView {
            from_file: self.from_file@,
            from_range: (self.from_range.0 as int, self.from_range.1 as int),
            to_file: self.to_file@,
            to_range: (self.to_range.0 as int, self.to_range.1 as int),
        }
    }
}

impl PartialEq for BlockMatch {
    fn eq(&self, other: &BlockMatch) -> (r: bool) {
        self.from_file == other.from_file && self.from_range.0 == other.from_range.0
            && self.from_range.1 == other.from_range.1 && self.to_file == other.to_file
            && self.to_range.0 == other.to_range.0 && self.to_range.1 == other.to_range.1
    }
}

impl vstd::std_specs::cmp::PartialEqSpecImpl for BlockMatch {
    open spec fn obeys_eq_spec() -> bool {
        true
    }

    open spec fn eq_spec(&self, other: &BlockMatch) -> bool {
        &&& self.from_file@ == other.from_file@
        &&& self.from_range == other.from_range
        &&& self.to_file@ == other.to_file@
        &&& self.to_range == other.to_range
    }
}

/// A [`BlockMatch`] tagged by the duplicate vote: `is_addition` is false for
/// the first match carrying a given block content, true for every later
/// match with byte-identical content.
#[derive(Debug, Clone)]
pub struct BlockWithVote {
    pub block: BlockMatch,
    pub is_addition: bool,
}

/// The mathematical value of a [`BlockWithVote`].
#[verifier::ext_equal]
pub ghost struct BlockWithVoteView {
    pub block: BlockMatchView,
    pub is_addition: bool,
}

impl View for BlockWithVote {
    type V = BlockWithVoteView;

    open spec fn view(&self) -> BlockWithVoteView {
        BlockWithVoteView { block: self.block@, is_addition: self.is_addition }
    }
}

impl PartialEq for BlockWithVote {
    fn eq(&self, other: &BlockWithVote) -> (r: bool) {
        self.block == other.block && self.is_addition == other.is_addition
    }
}

impl vstd::std_specs::cmp::PartialEqSpecImpl for BlockWithVote {
    open spec fn obeys_eq_spec() -> bool {
        true
    }

    open spec fn eq_spec(&self, other: &BlockWithVote) -> bool {
        &&& vstd::std_specs::cmp::PartialEqSpec::eq_spec(&self.block, &other.block)
        &&& self.is_addition == other.is_addition
    }
}

/// All voted matches of one `(from_file, to_file)` pair, in the order the
/// matches arrived from the matcher.
#[derive(Debug, Clone)]
pub struct GroupedMatches {
    pub from_file: String,
    pub to_file: String,
    pub blocks: Vec<BlockWithVote>,
}

/// The mathematical value of a [`GroupedMatches`].
#[verifier::ext_equal]
pub ghost struct GroupedMatchesView {
    pub from_file: Seq<char>,
    pub to_file: Seq<char>,
    pub blocks: Seq<BlockWithVoteView>,
}

impl View for GroupedMatches {
    type V = GroupedMatchesView;

    open spec fn view(&self) -> GroupedMatchesView {
        GroupedMatchesView {
            from_file: self.from_file@,
            to_file: self.to_file@,
            blocks: self.blocks@.map_values(|b: BlockWithVote| b@),
        }
    }
}

impl PartialEq for GroupedMatches {
    fn eq(&self, other: &GroupedMatches) -> (r: bool) {
        self.from_file == other.from_file && self.to_file == other.to_file
            && self.blocks == other.blocks
    }
}

impl vstd::std_specs::cmp::PartialEqSpecImpl for GroupedMatches {
    open spec fn obeys_eq_spec() -> bool {
        true
    }

    open spec fn eq_spec(&self, other: &GroupedMatches) -> bool {
        &&& self.from_file@ == other.from_file@
        &&& self.to_file@ == other.to_file@
        &&& vstd::std_specs::cmp::PartialEqSpec::eq_spec(&self.blocks, &other.blocks)
    }
}

/// One file of a snapshot: its path and its line count.
#[derive(Debug, Clone)]
pub struct FileEntry {
    pub path: String,
    pub line_count: usize,
}

/// The mathematical value of a [`FileEntry`].
#[verifier::ext_equal]
pub ghost struct FileEntryView {
    pub path: Seq<char>,
    pub line_count: int,
}

impl View for FileEntry {
    type V = FileEntryView;

    open spec fn view(&self) -> FileEntryView {
        FileEntryView { path: self.path@, line_count: self.line_count as int }
    }
}

impl PartialEq for FileEntry {
    fn eq(&self, other: &FileEntry) -> (r: bool) {
        self.path == other.path && self.line_count == other.line_count
    }
}

impl vstd::std_specs::cmp::PartialEqSpecImpl for FileEntry {
    open spec fn obeys_eq_spec() -> bool {
        true
    }

    open spec fn eq_spec(&self, other: &FileEntry) -> bool {
        self.path@ == other.path@ && self.line_count == other.line_count
    }
}

} // verus!
