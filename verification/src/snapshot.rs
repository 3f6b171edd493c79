//! What was seen on disk, as plain values.
//!
//! The library never touches the disk. Whoever calls it expands each pattern
//! and reads each file, and hands over what came back: for a pattern the
//! entries that it matched, for a file its bytes. A pattern that was not
//! expanded counts as one that matched nothing, a file that was not read as
//! one that cannot be read.

use crate::order::same_text;
use vstd::prelude::*;

verus! {

/// One entry that a pattern matched.
#[derive(Debug, Clone)]
pub struct Candidate {
    /// The entry's path, as it is displayed.
    pub path: String,
    /// Whether the entry is a regular file.
    pub is_file: bool,
}

/// What expanding one pattern gave.
#[derive(Debug, Clone)]
pub enum Expansion {
    /// The pattern is not a well-formed glob.
    Malformed,
    /// The entries that the pattern matched, in the order they were found.
    Matches(Vec<Candidate>),
}

/// A pattern, joined to the root where it is relative, with its expansion.
#[derive(Debug, Clone)]
pub struct PatternExpansion {
    /// The pattern as it was expanded.
    pub pattern: String,
    /// What expanding it gave.
    pub expansion: Expansion,
}

/// A file that was read, with its content.
#[derive(Debug, Clone)]
pub struct FileContent {
    /// The file's path, as it is displayed.
    pub path: String,
    /// All the bytes of the file.
    pub bytes: Vec<u8>,
}

/// The expansions and file contents that a key is computed from. Where a
/// pattern or a path occurs twice, the first entry counts.
#[derive(Debug, Clone)]
pub struct Snapshot {
    /// The patterns that were expanded.
    pub expansions: Vec<PatternExpansion>,
    /// The files that were read.
    pub contents: Vec<FileContent>,
}

/// A [`Candidate`] as the contracts read it.
pub struct CandidateView {
    pub path: Seq<char>,
    pub is_file: bool,
}

/// An [`Expansion`] as the contracts read it.
pub enum ExpansionView {
    Malformed,
    Matches(Seq<CandidateView>),
}

/// A [`Snapshot`] as the contracts read it.
pub struct SnapshotView {
    pub expansions: Seq<(Seq<char>, ExpansionView)>,
    pub contents: Seq<(Seq<char>, Seq<u8>)>,
}

impl View for Candidate {
    type V = CandidateView;

    open spec fn view(&self) -> CandidateView {
        CandidateView { path: self.path@, is_file: self.is_file }
    }
}

/// The entries of `found` as the contracts read them, in order.
pub open spec fn candidates(found: Seq<Candidate>) -> Seq<CandidateView> {
    Seq::new(found.len(), |i: int| found[i]@)
}

impl View for Expansion {
    type V = ExpansionView;

    open spec fn view(&self) -> ExpansionView {
        match self {
            Expansion::Malformed => ExpansionView::Malformed,
            Expansion::Matches(found) => ExpansionView::Matches(candidates(found@)),
        }
    }
}

impl View for Snapshot {
    type V = SnapshotView;

    open spec fn view(&self) -> SnapshotView {
        SnapshotView {
            expansions: Seq::new(
                self.expansions@.len(),
                |i: int| (self.expansions@[i].pattern@, self.expansions@[i].expansion@),
            ),
            contents: Seq::new(
                self.contents@.len(),
                |i: int| (self.contents@[i].path@, self.contents@[i].bytes@),
            ),
        }
    }
}

/// The value of the first entry of `entries` under `key`, if there is one.
pub open spec fn find<V>(entries: Seq<(Seq<char>, V)>, key: Seq<char>) -> Option<V>
    decreases entries.len(),
{
    if entries.len() == 0 {
        None
    } else if entries[0].0 == key {
        Some(entries[0].1)
    } else {
        find(entries.drop_first(), key)
    }
}

impl SnapshotView {
    /// What expanding `pattern` gave, if it was expanded.
    pub open spec fn expansion_of(self, pattern: Seq<char>) -> Option<ExpansionView> {
        find(self.expansions, pattern)
    }

    /// The bytes of the file at `path`, if it was read.
    pub open spec fn content_of(self, path: Seq<char>) -> Option<Seq<u8>> {
        find(self.contents, path)
    }
}

impl Snapshot {
    /// A snapshot in which nothing was expanded or read.
    pub fn new() -> (snapshot: Snapshot)
        ensures
            snapshot@.expansions.len() == 0,
            snapshot@.contents.len() == 0,
    {
        Snapshot { expansions: Vec::new(), contents: Vec::new() }
    }

    /// Looks up what expanding `pattern` gave.
    pub fn expansion(&self, pattern: &str) -> (found: Option<&Expansion>)
        ensures
            match found {
                Some(e) => self@.expansion_of(pattern@) == Some(e@),
                None => self@.expansion_of(pattern@) is None,
            },
    {
        let ghost all = self@.expansions;
        let mut i: usize = 0;
        assert(all.skip(0) == all);
        while i < self.expansions.len()
            invariant
                i <= self.expansions.len(),
                all == self@.expansions,
                find(all, pattern@) == find(all.skip(i as int), pattern@),
            decreases self.expansions.len() - i,
        {
            assert(all.skip(i as int).drop_first() == all.skip(i + 1));
            if same_text(self.expansions[i].pattern.as_str(), pattern) {
                return Some(&self.expansions[i].expansion);
            }
            i += 1;
        }
        None
    }

    /// Looks up the bytes of the file at `path`.
    pub fn content(&self, path: &str) -> (found: Option<&Vec<u8>>)
        ensures
            match found {
                Some(bytes) => self@.content_of(path@) == Some(bytes@),
                None => self@.content_of(path@) is None,
            },
    {
        let ghost all = self@.contents;
        let mut i: usize = 0;
        assert(all.skip(0) == all);
        while i < self.contents.len()
            invariant
                i <= self.contents.len(),
                all == self@.contents,
                find(all, path@) == find(all.skip(i as int), path@),
            decreases self.contents.len() - i,
        {
            assert(all.skip(i as int).drop_first() == all.skip(i + 1));
            if same_text(self.contents[i].path.as_str(), path) {
                return Some(&self.contents[i].bytes);
            }
            i += 1;
        }
        None
    }
}

} // verus!
