//! From patterns to files: which of the entries that the patterns matched
//! go into a key.

use crate::error::{CacheKeyError, Failure};
use crate::guarantees::resolved_files_lie_within_root;
use crate::order::{
    insert_unique, lemma_listing_unique, listing, sorted, texts,
};
use crate::path::{begins_with, components, join, joined, parts_of, split, within};
use crate::snapshot::{
    candidates, Candidate, CandidateView, Expansion, ExpansionView, Snapshot, SnapshotView,
};
use vstd::prelude::*;
use vstd::seq_lib::*;

verus! {

/// The number of files that a matcher admits unless told otherwise.
pub const MAX_FILES: usize = 50;

/// Resolves patterns to files, up to a limit.
#[derive(Debug, Clone, Copy)]
pub struct FileMatcher {
    max_files: usize,
}

/// An entry that resolution keeps: a regular file at or below the root.
pub open spec fn keeps(entry: CandidateView, base: Seq<char>) -> bool {
    entry.is_file && within(entry.path, base)
}

/// The expansion of `pattern`, looked up as joined to `base`, says that the
/// pattern is malformed.
pub open spec fn malformed(snapshot: SnapshotView, base: Seq<char>, pattern: Seq<char>) -> bool {
    snapshot.expansion_of(joined(base, pattern)) == Some(ExpansionView::Malformed)
}

/// The entries that `pattern` matched: none where it was not expanded or is
/// malformed.
pub open spec fn matched(snapshot: SnapshotView, base: Seq<char>, pattern: Seq<char>) -> Seq<
    CandidateView,
> {
    match snapshot.expansion_of(joined(base, pattern)) {
        Some(ExpansionView::Matches(found)) => found,
        _ => Seq::<CandidateView>::empty(),
    }
}

/// The paths of the entries among `found` that resolution keeps.
pub open spec fn kept(found: Seq<CandidateView>, base: Seq<char>) -> Set<Seq<char>> {
    Set::new(
        |path: Seq<char>|
            exists|j: int|
                0 <= j < found.len() && (#[trigger] found[j]).path == path && keeps(found[j], base),
    )
}

/// The files that `patterns` select: each path that some pattern matched
/// and resolution keeps, once.
pub open spec fn resolved(snapshot: SnapshotView, base: Seq<char>, patterns: Seq<Seq<char>>) -> Set<
    Seq<char>,
> {
    Set::new(
        |path: Seq<char>|
            exists|i: int|
                0 <= i < patterns.len() && kept(
                    matched(snapshot, base, #[trigger] patterns[i]),
                    base,
                ).contains(path),
    )
}

/// The position of the first malformed pattern at or after `from`.
pub open spec fn first_malformed(
    snapshot: SnapshotView,
    base: Seq<char>,
    patterns: Seq<Seq<char>>,
    from: int,
) -> Option<int>
    decreases patterns.len() - from,
{
    if from < 0 || from >= patterns.len() {
        None
    } else if malformed(snapshot, base, patterns[from]) {
        Some(from)
    } else {
        first_malformed(snapshot, base, patterns, from + 1)
    }
}

/// What resolving `patterns` gives. The first malformed pattern fails the
/// whole; else more files than `limit` do; else the files come back, each
/// once, sorted by path.
pub open spec fn resolution(
    limit: nat,
    snapshot: SnapshotView,
    base: Seq<char>,
    patterns: Seq<Seq<char>>,
) -> Result<Seq<Seq<char>>, Failure> {
    match first_malformed(snapshot, base, patterns, 0) {
        Some(i) => Err(Failure::PatternMatchError { pattern: patterns[i] }),
        None => {
            let files = resolved(snapshot, base, patterns);
            if files.len() > limit {
                Err(Failure::TooManyFiles { count: files.len(), limit })
            } else {
                Ok(listing(files))
            }
        },
    }
}

/// What [`first_malformed`] finds: the first malformed pattern from `from`
/// on, or that there is none.
pub proof fn lemma_first_malformed(
    snapshot: SnapshotView,
    base: Seq<char>,
    patterns: Seq<Seq<char>>,
    from: int,
)
    requires
        0 <= from,
    ensures
        match first_malformed(snapshot, base, patterns, from) {
            Some(i) => from <= i < patterns.len() && malformed(snapshot, base, patterns[i])
                && forall|j: int|
                from <= j < i ==> !malformed(snapshot, base, #[trigger] patterns[j]),
            None => forall|j: int|
                from <= j < patterns.len() ==> !malformed(snapshot, base, #[trigger] patterns[j]),
        },
    decreases patterns.len() - from,
{
    if from < patterns.len() && !malformed(snapshot, base, patterns[from]) {
        lemma_first_malformed(snapshot, base, patterns, from + 1);
    }
}

/// The entries that resolution keeps of one expansion are finitely many.
pub proof fn lemma_kept_finite(found: Seq<CandidateView>, base: Seq<char>)
    ensures
        kept(found, base).finite(),
{
    let paths = found.map_values(|entry: CandidateView| entry.path);
    seq_to_set_is_finite(paths);
    assert forall|path: Seq<char>| kept(found, base).contains(path) implies paths.to_set().contains(
        path,
    ) by {
        let j = choose|j: int|
            0 <= j < found.len() && (#[trigger] found[j]).path == path && keeps(found[j], base);
        assert(paths[j] == path);
    }
    vstd::set_lib::lemma_set_subset_finite(paths.to_set(), kept(found, base));
}

/// The files that patterns select are finitely many.
pub proof fn lemma_resolved_finite(
    snapshot: SnapshotView,
    base: Seq<char>,
    patterns: Seq<Seq<char>>,
)
    ensures
        resolved(snapshot, base, patterns).finite(),
    decreases patterns.len(),
{
    if patterns.len() == 0 {
        assert(resolved(snapshot, base, patterns) =~= Set::<Seq<char>>::empty());
    } else {
        let before = patterns.drop_last();
        let last = patterns.last();
        lemma_resolved_finite(snapshot, base, before);
        lemma_kept_finite(matched(snapshot, base, last), base);
        let both = resolved(snapshot, base, before).union(
            kept(matched(snapshot, base, last), base),
        );
        assert forall|path: Seq<char>| resolved(snapshot, base, patterns).contains(
            path,
        ) implies both.contains(path) by {
            let i = choose|i: int|
                0 <= i < patterns.len() && kept(
                    matched(snapshot, base, #[trigger] patterns[i]),
                    base,
                ).contains(path);
            if i < before.len() {
                assert(before[i] == patterns[i]);
            }
        }
        vstd::set_lib::lemma_set_subset_finite(both, resolved(snapshot, base, patterns));
    }
}

/// What one more pattern adds to the files that the patterns before it
/// select.
proof fn lemma_resolved_push(
    snapshot: SnapshotView,
    base: Seq<char>,
    patterns: Seq<Seq<char>>,
    pattern: Seq<char>,
)
    ensures
        resolved(snapshot, base, patterns.push(pattern)) == resolved(
            snapshot,
            base,
            patterns,
        ).union(kept(matched(snapshot, base, pattern), base)),
{
    let more = patterns.push(pattern);
    let left = resolved(snapshot, base, more);
    let right = resolved(snapshot, base, patterns).union(
        kept(matched(snapshot, base, pattern), base),
    );
    assert forall|path: Seq<char>| left.contains(path) <==> right.contains(path) by {
        if left.contains(path) {
            let i = choose|i: int|
                0 <= i < more.len() && kept(
                    matched(snapshot, base, #[trigger] more[i]),
                    base,
                ).contains(path);
            if i < patterns.len() {
                assert(more[i] == patterns[i]);
            }
        }
        if resolved(snapshot, base, patterns).contains(path) {
            let i = choose|i: int|
                0 <= i < patterns.len() && kept(
                    matched(snapshot, base, #[trigger] patterns[i]),
                    base,
                ).contains(path);
            assert(more[i] == patterns[i]);
        }
        if kept(matched(snapshot, base, pattern), base).contains(path) {
            assert(more[patterns.len() as int] == pattern);
        }
    }
    assert(left =~= right);
}

/// Adds to `files` the paths of the entries of `found` that resolution
/// keeps. `root` holds the components of `base_path`.
fn take_in(
    files: &mut Vec<String>,
    found: &Vec<Candidate>,
    base_path: &str,
    root: &Vec<Vec<char>>,
)
    requires
        sorted(texts(old(files)@)),
        texts(old(files)@).no_duplicates(),
        parts_of(root@) == components(base_path@),
    ensures
        sorted(texts(final(files)@)),
        texts(final(files)@).no_duplicates(),
        texts(final(files)@).to_set() == texts(old(files)@).to_set().union(
            kept(candidates(found@), base_path@),
        ),
{
    let ghost entries = candidates(found@);
    let ghost start = texts(files@).to_set();
    let mut j: usize = 0;
    assert(start.union(kept(entries.take(0), base_path@)) =~= start);
    while j < found.len()
        invariant
            j <= found.len(),
            entries == candidates(found@),
            entries.len() == found.len(),
            parts_of(root@) == components(base_path@),
            sorted(texts(files@)),
            texts(files@).no_duplicates(),
            texts(files@).to_set() == start.union(kept(entries.take(j as int), base_path@)),
        decreases found.len() - j,
    {
        let entry = &found[j];
        assert(entry@ == entries[j as int]);
        let ghost before = kept(entries.take(j as int), base_path@);
        let ghost after = kept(entries.take(j + 1), base_path@);
        let keep = entry.is_file && begins_with(&split(entry.path.as_str()), root);
        proof {
            let now = entries.take(j + 1);
            let add = if keep {
                before.insert(entry.path@)
            } else {
                before
            };
            assert forall|path: Seq<char>| after.contains(path) <==> add.contains(path) by {
                if after.contains(path) {
                    let m = choose|m: int|
                        0 <= m < now.len() && (#[trigger] now[m]).path == path && keeps(
                            now[m],
                            base_path@,
                        );
                    if m < j {
                        assert(entries.take(j as int)[m] == now[m]);
                    }
                }
                if before.contains(path) {
                    let m = choose|m: int|
                        0 <= m < j && (#[trigger] entries.take(j as int)[m]).path == path && keeps(
                            entries.take(j as int)[m],
                            base_path@,
                        );
                    assert(now[m] == entries.take(j as int)[m]);
                }
                if keep && path == entry.path@ {
                    assert(now[j as int] == entry@);
                }
            }
            assert(after =~= add);
        }
        if keep {
            insert_unique(files, entry.path.as_str());
            assert(texts(files@).to_set() =~= start.union(after));
        }
        j += 1;
    }
    assert(entries.take(j as int) == entries);
}

impl FileMatcher {
    /// The most files that this matcher admits.
    pub closed spec fn limit(&self) -> nat {
        self.max_files as nat
    }

    /// A matcher that admits [`MAX_FILES`] files.
    pub fn new() -> (matcher: Self)
        ensures
            matcher.limit() == MAX_FILES,
    {
        Self { max_files: MAX_FILES }
    }

    /// A matcher that admits `max_files` files.
    pub fn with_max_files(max_files: usize) -> (matcher: Self)
        ensures
            matcher.limit() == max_files,
    {
        Self { max_files }
    }

    /// The most files that this matcher admits.
    pub fn max_files(&self) -> (n: usize)
        ensures
            n == self.limit(),
    {
        self.max_files
    }

    /// The patterns as they are to be expanded: each joined to `base_path`
    /// unless it is absolute.
    pub fn full_patterns(patterns: &[String], base_path: &str) -> (full: Vec<String>)
        ensures
            full.len() == patterns.len(),
            forall|i: int|
                0 <= i < full.len() ==> (#[trigger] full[i])@ == joined(base_path@, patterns[i]@),
    {
        let mut full: Vec<String> = Vec::new();
        let mut i: usize = 0;
        while i < patterns.len()
            invariant
                i <= patterns.len(),
                full.len() == i,
                forall|k: int|
                    0 <= k < i ==> (#[trigger] full[k])@ == joined(base_path@, patterns[k]@),
            decreases patterns.len() - i,
        {
            full.push(join(base_path, patterns[i].as_str()));
            i += 1;
        }
        full
    }

    /// Resolves `patterns` against what `snapshot` holds of their
    /// expansions under `base_path`. The result is the one that
    /// [`resolution`] describes.
    pub fn resolve_patterns(
        &self,
        patterns: &[String],
        base_path: &str,
        snapshot: &Snapshot,
    ) -> (result: Result<Vec<String>, CacheKeyError>)
        ensures
            match result {
                Ok(files) => resolution(self.limit(), snapshot@, base_path@, texts(patterns@))
                    == Ok::<Seq<Seq<char>>, Failure>(texts(files@)),
                Err(e) => resolution(self.limit(), snapshot@, base_path@, texts(patterns@))
                    == Err::<Seq<Seq<char>>, Failure>(e@),
            },
            result matches Ok(files) ==> files.len() <= self.limit() && forall|k: int|
                0 <= k < files.len() ==> within(#[trigger] files[k]@, base_path@),
    {
        let ghost all = texts(patterns@);
        let root = split(base_path);
        let mut files: Vec<String> = Vec::new();
        let mut i: usize = 0;
        assert(texts(files@).to_set() =~= resolved(snapshot@, base_path@, all.take(0)));
        while i < patterns.len()
            invariant
                i <= patterns.len(),
                all == texts(patterns@),
                parts_of(root@) == components(base_path@),
                first_malformed(snapshot@, base_path@, all, 0) == first_malformed(
                    snapshot@,
                    base_path@,
                    all,
                    i as int,
                ),
                sorted(texts(files@)),
                texts(files@).no_duplicates(),
                texts(files@).to_set() == resolved(snapshot@, base_path@, all.take(i as int)),
            decreases patterns.len() - i,
        {
            let pattern = &patterns[i];
            assert(pattern@ == all[i as int]);
            let full = join(base_path, pattern.as_str());
            proof {
                lemma_resolved_push(snapshot@, base_path@, all.take(i as int), all[i as int]);
                assert(all.take(i as int).push(all[i as int]) == all.take(i + 1));
            }
            match snapshot.expansion(full.as_str()) {
                None => {
                    assert(kept(matched(snapshot@, base_path@, all[i as int]), base_path@)
                        =~= Set::<Seq<char>>::empty());
                    assert(texts(files@).to_set() =~= resolved(
                        snapshot@,
                        base_path@,
                        all.take(i + 1),
                    ));
                },
                Some(Expansion::Malformed) => {
                    return Err(CacheKeyError::PatternMatchError { pattern: pattern.clone() });
                },
                Some(Expansion::Matches(found)) => {
                    take_in(&mut files, found, base_path, &root);
                },
            }
            i += 1;
        }
        assert(all.take(i as int) == all);
        proof {
            lemma_listing_unique(texts(files@), resolved(snapshot@, base_path@, all));
        }
        if files.len() > self.max_files {
            return Err(
                CacheKeyError::TooManyFiles { count: files.len(), limit: self.max_files },
            );
        }
        proof {
            resolved_files_lie_within_root(self.limit(), snapshot@, base_path@, all);
            assert forall|k: int| 0 <= k < files.len() implies within(
                #[trigger] files[k]@,
                base_path@,
            ) by {
                assert(texts(files@)[k] == files[k]@);
            }
        }
        Ok(files)
    }
}

impl Default for FileMatcher {
    /// A matcher that admits [`MAX_FILES`] files.
    fn default() -> (matcher: Self)
        ensures
            matcher.limit() == MAX_FILES,
    {
        Self::new()
    }
}

} // verus!
