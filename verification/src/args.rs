//! The command-line data model: the top-level invocation, its one
//! subcommand, and the snapshot flags, with the pure normalization rules
//! that the snapshot run applies to them.

use vstd::prelude::*;
use vstd::string::StringExecFns;
use crate::text::{has_suffix, str_ends_with};

verus! {

/// The snapshot flags: scan root, filters, content and format switches,
/// pattern sources and output target.
#[derive(Debug)]
pub struct Args {
    /// Root directory to scan.
    pub dir: String,
    /// Show only files with these extensions.
    pub show: Vec<String>,
    /// Print file contents as well.
    pub contents: bool,
    /// Output in Markdown format.
    pub md: bool,
    /// Restrict output to these files, directories or globs.
    pub only: Vec<String>,
    /// Do not display line counts in the file index.
    pub no_lines: bool,
    /// Inline patterns to ignore.
    pub ignore: Vec<String>,
    /// Blacklist patterns: from a file, or entered interactively.
    pub black: Option<Option<String>>,
    /// Manifest of files to show: from a file, or entered interactively.
    pub white: Option<Option<String>>,
    /// Shortcut for a manifest run with contents written to a file.
    pub whited: Option<Option<String>>,
    /// Shortcut for a contents run written to a file.
    pub printed: Option<Option<String>>,
    /// Split output into token-bounded packets of this many thousand tokens.
    pub split: Option<Option<usize>>,
    /// Write output to this file instead of standard output.
    pub out: Option<String>,
    /// Align diff tags to a fixed column.
    pub align_tags: bool,
}

/// The one subcommand: compare two sets of files.
#[derive(Debug)]
pub enum Commands {
    /// Compare the `from` set against the `to` set.
    Diff { from: Vec<String>, to: Vec<String>, align_tags: bool },
}

/// A full invocation: an optional subcommand and the snapshot flags.
#[derive(Debug)]
pub struct Cli {
    pub command: Option<Commands>,
    pub args: Args,
}

/// The output path a shortcut names: its argument, or the default.
pub open spec fn shortcut_target(opt: Option<String>) -> Seq<char> {
    match opt {
        Some(name) => name@,
        None => ("SHOW.md")@,
    }
}

impl Args {
    /// Apply the output shortcuts: either shortcut turns contents on and
    /// directs output to the named file (or the default); the manifest
    /// shortcut additionally arms interactive manifest entry when no
    /// manifest was given.  The contents shortcut's target wins when both
    /// are present.
    pub fn apply_shortcuts(self) -> (r: Args)
        ensures
            r.dir == self.dir && r.show == self.show && r.md == self.md && r.only == self.only,
            r.no_lines == self.no_lines && r.ignore == self.ignore && r.black == self.black,
            r.whited == self.whited && r.printed == self.printed && r.split == self.split,
            r.align_tags == self.align_tags,
            r.contents == (self.contents || (self.whited is Some) || (self.printed is Some)),
            ((self.whited is Some) && (self.white is None)) ==> (r.white == Some(
                Option::<String>::None,
            )),
            !((self.whited is Some) && (self.white is None)) ==> r.white == self.white,
            (self.printed is Some) ==> (r.out is Some) && (r.out->0)@ == shortcut_target(
                self.printed->0,
            ),
            ((self.printed is None) && (self.whited is Some)) ==> (r.out is Some) && (r.out->0)@
                == shortcut_target(self.whited->0),
            ((self.printed is None) && (self.whited is None)) ==> r.out == self.out,
    {
        let Args {
            dir,
            show,
            contents,
            md,
            only,
            no_lines,
            ignore,
            black,
            white,
            whited,
            printed,
            split,
            out,
            align_tags,
        } = self;
        let mut contents2 = contents;
        let mut out2 = out;
        let mut white2 = white;
        match &whited {
            Some(opt) => {
                contents2 = true;
                out2 = Some(
                    match opt {
                        Some(name) => name.clone(),
                        None => String::from_str("SHOW.md"),
                    },
                );
                if white2.is_none() {
                    white2 = Some(None);
                }
            },
            None => {},
        }
        match &printed {
            Some(opt) => {
                contents2 = true;
                out2 = Some(
                    match opt {
                        Some(name) => name.clone(),
                        None => String::from_str("SHOW.md"),
                    },
                );
            },
            None => {},
        }
        Args {
            dir,
            show,
            contents: contents2,
            md,
            only,
            no_lines,
            ignore,
            black,
            white: white2,
            whited,
            printed,
            split,
            out: out2,
            align_tags,
        }
    }
}

/// Whether the snapshot is rendered as Markdown: an output file ending in
/// `.md` forces it, otherwise the Markdown flag decides.
pub fn wants_markdown(out: &Option<String>, md: bool) -> (r: bool)
    ensures
        r == (match out {
            Some(name) => has_suffix(name@, (".md")@),
            None => md,
        }),
{
    match out {
        Some(name) => str_ends_with(name.as_str(), ".md"),
        None => md,
    }
}

} // verus!
