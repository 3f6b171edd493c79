//! From a key's patterns to the key: resolve, digest, put the prefix in
//! front.

use crate::error::{CacheKeyError, Failure};
use crate::file_matcher::{resolution, FileMatcher};
use crate::hash_calculator::{files_hash, HashCalculator};
use crate::setting::{Key, KeyView};
use crate::snapshot::{Snapshot, SnapshotView};
use vstd::prelude::*;
use vstd::string::*;

verus! {

/// Makes cache keys for the files under one root directory, up to a limit.
#[derive(Debug, Clone)]
pub struct CacheKeyGenerator {
    max_files: usize,
    base_path: String,
}

/// A digest with the prefix in front of it, and a hyphen between the two;
/// the digest alone where there is no prefix.
pub open spec fn with_prefix(prefix: Option<Seq<char>>, digest: Seq<char>) -> Seq<char> {
    match prefix {
        Some(p) => p + seq!['-'] + digest,
        None => digest,
    }
}

/// The key of `key`: its patterns resolved under `base` with at most
/// `limit` files, the digest of those files, and the prefix. A failure of
/// either step is the failure of the whole.
pub open spec fn key_of(
    limit: nat,
    base: Seq<char>,
    snapshot: SnapshotView,
    key: KeyView,
) -> Result<Seq<char>, Failure> {
    match resolution(limit, snapshot, base, key.files) {
        Err(e) => Err(e),
        Ok(files) => match files_hash(snapshot, files) {
            Err(e) => Err(e),
            Ok(digest) => Ok(with_prefix(key.prefix, digest)),
        },
    }
}

impl CacheKeyGenerator {
    /// The most files that a key may be made from.
    pub closed spec fn limit(&self) -> nat {
        self.max_files as nat
    }

    /// The directory that patterns are relative to and files must lie in.
    pub closed spec fn root(&self) -> Seq<char> {
        self.base_path@
    }

    /// A generator for the files under `base_path`.
    pub fn new(max_files: usize, base_path: String) -> (generator: Self)
        ensures
            generator.limit() == max_files,
            generator.root() == base_path@,
    {
        Self { max_files, base_path }
    }

    /// The most files that a key may be made from.
    pub fn max_files(&self) -> (n: usize)
        ensures
            n == self.limit(),
    {
        self.max_files
    }

    /// The directory that patterns are relative to and files must lie in.
    pub fn base_path(&self) -> (path: &str)
        ensures
            path@ == self.root(),
    {
        self.base_path.as_str()
    }

    /// Puts the prefix, if there is one, in front of a digest.
    pub fn compose(prefix: &Option<String>, digest: String) -> (key: String)
        ensures
            key@ == with_prefix(
                match prefix {
                    Some(p) => Some(p@),
                    None => None,
                },
                digest@,
            ),
    {
        match prefix {
            Some(p) => {
                proof {
                    reveal_strlit("-");
                }
                let mut key = p.clone();
                key.append("-");
                key.append(digest.as_str());
                assert(key@ =~= p@ + seq!['-'] + digest@);
                key
            },
            None => digest,
        }
    }

    /// Makes the key of `key_config` from what `snapshot` holds of the
    /// files under the root. The result is the one that [`key_of`]
    /// describes.
    pub fn generate_key(&self, key_config: &Key, snapshot: &Snapshot) -> (result: Result<
        String,
        CacheKeyError,
    >)
        ensures
            match result {
                Ok(key) => key_of(self.limit(), self.root(), snapshot@, key_config@) == Ok::<
                    Seq<char>,
                    Failure,
                >(key@),
                Err(e) => key_of(self.limit(), self.root(), snapshot@, key_config@) == Err::<
                    Seq<char>,
                    Failure,
                >(e@),
            },
            result matches Ok(key) ==> key@.len() == 64 + match key_config.prefix {
                Some(p) => p@.len() + 1,
                None => 0,
            },
    {
        let matcher = FileMatcher::with_max_files(self.max_files);
        let files = match matcher.resolve_patterns(
            key_config.files.as_slice(),
            self.base_path.as_str(),
            snapshot,
        ) {
            Ok(files) => files,
            Err(e) => {
                return Err(e);
            },
        };
        let digest = match HashCalculator::calculate_files_hash(files.as_slice(), snapshot) {
            Ok(digest) => digest,
            Err(e) => {
                return Err(e);
            },
        };
        Ok(Self::compose(&key_config.prefix, digest))
    }
}

} // verus!
