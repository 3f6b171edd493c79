//! From files to one digest: each file's digest, and the digest of the list
//! of paths with their digests.

use crate::digest::{digest_of, digest_text};
use crate::error::{CacheKeyError, Failure};
use crate::manifest::{manifest, pairs, write_manifest};
use crate::order::{sorted_copy, text_order, texts};
use crate::snapshot::{Snapshot, SnapshotView};
use vstd::prelude::*;
use vstd::string::*;
use vstd::utf8::*;

verus! {

/// Computes digests of files and of lists of files.
#[derive(Debug, Clone, Copy)]
pub struct HashCalculator;

/// The digest of the file at `file`, which fails where the file was not
/// read.
pub open spec fn file_hash(snapshot: SnapshotView, file: Seq<char>) -> Result<Seq<char>, Failure> {
    match snapshot.content_of(file) {
        Some(bytes) => Ok(digest_text(bytes)),
        None => Err(Failure::FileReadError { path: file }),
    }
}

/// The position of the first file at or after `from` that was not read.
pub open spec fn first_unreadable(
    snapshot: SnapshotView,
    files: Seq<Seq<char>>,
    from: int,
) -> Option<int>
    decreases files.len() - from,
{
    if from < 0 || from >= files.len() {
        None
    } else if snapshot.content_of(files[from]) is None {
        Some(from)
    } else {
        first_unreadable(snapshot, files, from + 1)
    }
}

/// What [`first_unreadable`] finds: the first file from `from` on that was
/// not read, or that there is none.
pub proof fn lemma_first_unreadable(snapshot: SnapshotView, files: Seq<Seq<char>>, from: int)
    requires
        0 <= from,
    ensures
        match first_unreadable(snapshot, files, from) {
            Some(i) => from <= i < files.len() && snapshot.content_of(files[i]) is None
                && forall|j: int|
                from <= j < i ==> snapshot.content_of(#[trigger] files[j]) is Some,
            None => forall|j: int|
                from <= j < files.len() ==> snapshot.content_of(#[trigger] files[j]) is Some,
        },
    decreases files.len() - from,
{
    if from < files.len() && snapshot.content_of(files[from]) is Some {
        lemma_first_unreadable(snapshot, files, from + 1);
    }
}

/// Each of `files` with the digest of its content.
pub open spec fn digests(snapshot: SnapshotView, files: Seq<Seq<char>>) -> Seq<
    (Seq<char>, Seq<char>),
> {
    Seq::new(
        files.len(),
        |i: int| (files[i], digest_text(snapshot.content_of(files[i])->Some_0)),
    )
}

/// The text that stands for `files`: the manifest of the files, taken in
/// the order of their paths, whatever order they are given in.
pub open spec fn hashed_text(snapshot: SnapshotView, files: Seq<Seq<char>>) -> Seq<char> {
    manifest(digests(snapshot, files.sort_by(text_order())))
}

/// The digest of a list of files. The first of them, in the order of their
/// paths, that was not read fails the whole; else the result is the digest
/// of the text that stands for the files, which for no files is the digest
/// of no bytes.
pub open spec fn files_hash(snapshot: SnapshotView, files: Seq<Seq<char>>) -> Result<
    Seq<char>,
    Failure,
> {
    let ordered = files.sort_by(text_order());
    match first_unreadable(snapshot, ordered, 0) {
        Some(i) => Err(Failure::FileReadError { path: ordered[i] }),
        None => Ok(digest_text(encode_utf8(hashed_text(snapshot, files)))),
    }
}

impl HashCalculator {
    /// The digest of the file at `file`, from its bytes in `snapshot`.
    /// Fails with `FileReadError` exactly where the snapshot holds no such
    /// file.
    pub fn calculate_single_file_hash(file: &str, snapshot: &Snapshot) -> (result: Result<
        String,
        CacheKeyError,
    >)
        ensures
            match result {
                Ok(digest) => file_hash(snapshot@, file@) == Ok::<Seq<char>, Failure>(digest@)
                    && digest@.len() == 64,
                Err(e) => file_hash(snapshot@, file@) == Err::<Seq<char>, Failure>(e@),
            },
    {
        match snapshot.content(file) {
            Some(bytes) => Ok(digest_of(bytes.as_slice())),
            None => Err(CacheKeyError::FileReadError { path: String::from_str(file) }),
        }
    }

    /// The digest of `files`, from their bytes in `snapshot`. The result
    /// is the one that [`files_hash`] describes.
    pub fn calculate_files_hash(files: &[String], snapshot: &Snapshot) -> (result: Result<
        String,
        CacheKeyError,
    >)
        ensures
            match result {
                Ok(digest) => files_hash(snapshot@, texts(files@)) == Ok::<Seq<char>, Failure>(
                    digest@,
                ) && digest@.len() == 64,
                Err(e) => files_hash(snapshot@, texts(files@)) == Err::<Seq<char>, Failure>(e@),
            },
    {
        let ordered = sorted_copy(files);
        let ghost paths = texts(ordered@);
        let mut entries: Vec<(String, String)> = Vec::new();
        let mut i: usize = 0;
        assert(pairs(entries@) =~= digests(snapshot@, paths).take(0));
        while i < ordered.len()
            invariant
                i <= ordered.len(),
                paths == texts(ordered@),
                paths == texts(files@).sort_by(text_order()),
                first_unreadable(snapshot@, paths, 0) == first_unreadable(
                    snapshot@,
                    paths,
                    i as int,
                ),
                pairs(entries@) == digests(snapshot@, paths).take(i as int),
            decreases ordered.len() - i,
        {
            let path = &ordered[i];
            assert(path@ == paths[i as int]);
            match Self::calculate_single_file_hash(path.as_str(), snapshot) {
                Ok(digest) => {
                    let ghost before = pairs(entries@);
                    let ghost entry = (path@, digest@);
                    entries.push((path.clone(), digest));
                    proof {
                        let want = digests(snapshot@, paths);
                        assert(pairs(entries@) =~= before.push(entry));
                        assert(want[i as int] == entry);
                        assert(want.take(i + 1) =~= want.take(i as int).push(entry));
                    }
                },
                Err(e) => {
                    return Err(e);
                },
            }
            i += 1;
        }
        assert(digests(snapshot@, paths).take(i as int) == digests(snapshot@, paths));
        let text = write_manifest(entries.as_slice());
        Ok(digest_of(text.as_str().as_bytes()))
    }
}

} // verus!
