//! What holds of every key, proved from the definitions that the
//! functions' contracts use.

use crate::cache_key::{key_of, with_prefix};
use crate::digest::{digest_text, is_hex_text, lemma_hex_injective, sha256_digest};
use crate::error::Failure;
use crate::file_matcher::{
    first_malformed, keeps, kept, lemma_first_malformed, lemma_resolved_finite, malformed,
    matched, resolution, resolved,
};
use crate::hash_calculator::{digests, files_hash, hashed_text, lemma_first_unreadable};
use crate::manifest::{
    ends_a_line, has_hex_digests, lemma_digest_is_hex, lemma_manifest_tells_digests,
    lemma_manifest_tells_entries, manifest,
};
use crate::order::{lemma_listing, lemma_text_order_total, listing, sorted, text_order};
use crate::path::{joined, within};
use crate::setting::KeyView;
use crate::snapshot::{CandidateView, SnapshotView};
use vstd::prelude::*;
use vstd::seq_lib::*;
use vstd::utf8::*;

verus! {

/// Files outside the root never come back: every file that resolution
/// gives is a regular file that some pattern matched and that lies at or
/// below the root. The files come back sorted, each once, and no more of
/// them than the limit.
pub proof fn resolved_files_lie_within_root(
    limit: nat,
    snapshot: SnapshotView,
    base: Seq<char>,
    patterns: Seq<Seq<char>>,
)
    requires
        resolution(limit, snapshot, base, patterns) is Ok,
    ensures
        ({
            let files = resolution(limit, snapshot, base, patterns)->Ok_0;
            &&& files.len() <= limit
            &&& sorted(files)
            &&& files.no_duplicates()
            &&& files.to_set() == resolved(snapshot, base, patterns)
            &&& forall|k: int| 0 <= k < files.len() ==> within(#[trigger] files[k], base)
        }),
{
    let files = resolution(limit, snapshot, base, patterns)->Ok_0;
    let all = resolved(snapshot, base, patterns);
    lemma_resolved_finite(snapshot, base, patterns);
    lemma_listing(all);
    assert forall|k: int| 0 <= k < files.len() implies within(#[trigger] files[k], base) by {
        assert(files.to_set().contains(files[k]));
        assert(all.contains(files[k]));
    }
}

/// More files than the limit fail, whatever else holds of them: unless a
/// pattern is malformed, resolution fails with `TooManyFiles` exactly
/// where the patterns select more files than the limit, and the failure
/// carries the number of files selected and the limit.
pub proof fn too_many_files_fail(
    limit: nat,
    snapshot: SnapshotView,
    base: Seq<char>,
    patterns: Seq<Seq<char>>,
)
    requires
        first_malformed(snapshot, base, patterns, 0) is None,
    ensures
        resolved(snapshot, base, patterns).len() > limit ==> resolution(
            limit,
            snapshot,
            base,
            patterns,
        ) == Err::<Seq<Seq<char>>, Failure>(
            Failure::TooManyFiles { count: resolved(snapshot, base, patterns).len(), limit },
        ),
        resolved(snapshot, base, patterns).len() <= limit ==> resolution(
            limit,
            snapshot,
            base,
            patterns,
        ) is Ok,
{
}

/// Two snapshots say the same of a key's patterns: each pattern is
/// malformed in both or in neither, and matched the same entries in both,
/// in whatever order.
pub open spec fn same_matches(
    first: SnapshotView,
    second: SnapshotView,
    base: Seq<char>,
    patterns: Seq<Seq<char>>,
) -> bool {
    forall|i: int|
        0 <= i < patterns.len() ==> malformed(first, base, #[trigger] patterns[i]) == malformed(
            second,
            base,
            patterns[i],
        ) && matched(first, base, patterns[i]).to_multiset() == matched(
            second,
            base,
            patterns[i],
        ).to_multiset()
}

/// Two snapshots hold the same bytes for every file, or for both none.
pub open spec fn same_contents(first: SnapshotView, second: SnapshotView) -> bool {
    forall|path: Seq<char>| first.content_of(path) == second.content_of(path)
}

/// What one of two lists with the same elements holds, the other holds.
proof fn lemma_permutation_holds<A>(first: Seq<A>, second: Seq<A>, item: A)
    requires
        first.to_multiset() == second.to_multiset(),
        first.contains(item),
    ensures
        second.contains(item),
{
    to_multiset_contains(first, item);
    to_multiset_contains(second, item);
}

/// Entries in another order are kept to the same paths.
proof fn lemma_kept_of_permutation(
    first: Seq<CandidateView>,
    second: Seq<CandidateView>,
    base: Seq<char>,
)
    requires
        first.to_multiset() == second.to_multiset(),
    ensures
        kept(first, base) == kept(second, base),
{
    assert forall|path: Seq<char>| kept(first, base).contains(path) <==> kept(
        second,
        base,
    ).contains(path) by {
        if kept(first, base).contains(path) {
            let j = choose|j: int|
                0 <= j < first.len() && (#[trigger] first[j]).path == path && keeps(first[j], base);
            assert(first.contains(first[j]));
            lemma_permutation_holds(first, second, first[j]);
            let k = choose|k: int| 0 <= k < second.len() && second[k] == first[j];
            assert(second[k].path == path && keeps(second[k], base));
        }
        if kept(second, base).contains(path) {
            let j = choose|j: int|
                0 <= j < second.len() && (#[trigger] second[j]).path == path && keeps(
                    second[j],
                    base,
                );
            assert(second.contains(second[j]));
            lemma_permutation_holds(second, first, second[j]);
            let k = choose|k: int| 0 <= k < first.len() && first[k] == second[j];
            assert(first[k].path == path && keeps(first[k], base));
        }
    }
    assert(kept(first, base) =~= kept(second, base));
}

/// Snapshots that say the same of the patterns resolve them alike.
proof fn lemma_resolution_of_same_matches(
    limit: nat,
    first: SnapshotView,
    second: SnapshotView,
    base: Seq<char>,
    patterns: Seq<Seq<char>>,
)
    requires
        same_matches(first, second, base, patterns),
    ensures
        resolution(limit, first, base, patterns) == resolution(limit, second, base, patterns),
{
    lemma_first_malformed(first, base, patterns, 0);
    lemma_first_malformed(second, base, patterns, 0);
    let a = resolved(first, base, patterns);
    let b = resolved(second, base, patterns);
    assert forall|path: Seq<char>| a.contains(path) <==> b.contains(path) by {
        if a.contains(path) {
            let i = choose|i: int|
                0 <= i < patterns.len() && kept(
                    matched(first, base, #[trigger] patterns[i]),
                    base,
                ).contains(path);
            lemma_kept_of_permutation(
                matched(first, base, patterns[i]),
                matched(second, base, patterns[i]),
                base,
            );
        }
        if b.contains(path) {
            let i = choose|i: int|
                0 <= i < patterns.len() && kept(
                    matched(second, base, #[trigger] patterns[i]),
                    base,
                ).contains(path);
            lemma_kept_of_permutation(
                matched(first, base, patterns[i]),
                matched(second, base, patterns[i]),
                base,
            );
        }
    }
    assert(a =~= b);
}

/// Snapshots with the same contents give a list of files the same digest.
proof fn lemma_files_hash_of_same_contents(
    first: SnapshotView,
    second: SnapshotView,
    files: Seq<Seq<char>>,
)
    requires
        same_contents(first, second),
    ensures
        files_hash(first, files) == files_hash(second, files),
{
    let ordered = files.sort_by(text_order());
    lemma_first_unreadable(first, ordered, 0);
    lemma_first_unreadable(second, ordered, 0);
    assert(digests(first, ordered) =~= digests(second, ordered));
}

/// The key does not depend on the order in which directories are listed:
/// snapshots in which each pattern matched the same entries, in whatever
/// order, and which hold the same contents give the same key, or the same
/// failure.
pub proof fn listing_order_is_immaterial(
    limit: nat,
    base: Seq<char>,
    first: SnapshotView,
    second: SnapshotView,
    key: KeyView,
)
    requires
        same_matches(first, second, base, key.files),
        same_contents(first, second),
    ensures
        key_of(limit, base, first, key) == key_of(limit, base, second, key),
{
    lemma_resolution_of_same_matches(limit, first, second, base, key.files);
    if resolution(limit, first, base, key.files) is Ok {
        lemma_files_hash_of_same_contents(
            first,
            second,
            resolution(limit, first, base, key.files)->Ok_0,
        );
    }
}

/// The key is determined by what was seen: snapshots that hold the same
/// expansion for each pattern of the key and the same contents give the
/// same key, or the same failure, however often the key is made.
pub proof fn same_observations_same_key(
    limit: nat,
    base: Seq<char>,
    first: SnapshotView,
    second: SnapshotView,
    key: KeyView,
)
    requires
        forall|i: int|
            0 <= i < key.files.len() ==> first.expansion_of(joined(base, #[trigger] key.files[i]))
                == second.expansion_of(joined(base, key.files[i])),
        same_contents(first, second),
    ensures
        key_of(limit, base, first, key) == key_of(limit, base, second, key),
{
    listing_order_is_immaterial(limit, base, first, second, key);
}

/// The key does not depend on the order of the patterns: two keys with the
/// same prefix whose patterns are the same, in whatever order, select the
/// same files; and unless a pattern is malformed, they give the same key,
/// or the same failure. A malformed pattern fails both, each with the
/// first such pattern in its own order.
pub proof fn pattern_order_is_immaterial(
    limit: nat,
    base: Seq<char>,
    snapshot: SnapshotView,
    first: KeyView,
    second: KeyView,
)
    requires
        first.files.to_multiset() == second.files.to_multiset(),
        first.prefix == second.prefix,
    ensures
        resolved(snapshot, base, first.files) == resolved(snapshot, base, second.files),
        first_malformed(snapshot, base, first.files, 0) is None <==> first_malformed(
            snapshot,
            base,
            second.files,
            0,
        ) is None,
        first_malformed(snapshot, base, first.files, 0) is None ==> key_of(
            limit,
            base,
            snapshot,
            first,
        ) == key_of(limit, base, snapshot, second),
        key_of(limit, base, snapshot, first) is Ok ==> key_of(limit, base, snapshot, second)
            == key_of(limit, base, snapshot, first),
{
    let p = first.files;
    let q = second.files;
    lemma_first_malformed(snapshot, base, p, 0);
    lemma_first_malformed(snapshot, base, q, 0);
    assert forall|i: int| 0 <= i < p.len() implies q.contains(#[trigger] p[i]) by {
        assert(p.contains(p[i]));
        lemma_permutation_holds(p, q, p[i]);
    }
    assert forall|i: int| 0 <= i < q.len() implies p.contains(#[trigger] q[i]) by {
        assert(q.contains(q[i]));
        lemma_permutation_holds(q, p, q[i]);
    }
    let a = resolved(snapshot, base, p);
    let b = resolved(snapshot, base, q);
    assert forall|path: Seq<char>| a.contains(path) <==> b.contains(path) by {
        if a.contains(path) {
            let i = choose|i: int|
                0 <= i < p.len() && kept(matched(snapshot, base, #[trigger] p[i]), base).contains(
                    path,
                );
            assert(q.contains(p[i]));
            let j = choose|j: int| 0 <= j < q.len() && q[j] == p[i];
            assert(kept(matched(snapshot, base, q[j]), base).contains(path));
        }
        if b.contains(path) {
            let i = choose|i: int|
                0 <= i < q.len() && kept(matched(snapshot, base, #[trigger] q[i]), base).contains(
                    path,
                );
            assert(p.contains(q[i]));
            let j = choose|j: int| 0 <= j < p.len() && p[j] == q[i];
            assert(kept(matched(snapshot, base, p[j]), base).contains(path));
        }
    }
    assert(a =~= b);
    if first_malformed(snapshot, base, p, 0) is Some {
        let i = first_malformed(snapshot, base, p, 0)->Some_0;
        assert(q.contains(p[i]));
        let j = choose|j: int| 0 <= j < q.len() && q[j] == p[i];
        assert(malformed(snapshot, base, q[j]));
    }
    if first_malformed(snapshot, base, q, 0) is Some {
        let i = first_malformed(snapshot, base, q, 0)->Some_0;
        assert(p.contains(q[i]));
        let j = choose|j: int| 0 <= j < p.len() && p[j] == q[i];
        assert(malformed(snapshot, base, p[j]));
    }
}

/// How a key is put together: where a key is made, it is the digest of
/// the resolved files, with the prefix and a hyphen in front of it where
/// the key has a prefix, and alone where it has none.
pub proof fn key_is_prefix_and_digest(
    limit: nat,
    base: Seq<char>,
    snapshot: SnapshotView,
    key: KeyView,
)
    requires
        key_of(limit, base, snapshot, key) is Ok,
    ensures
        resolution(limit, snapshot, base, key.files) is Ok,
        files_hash(snapshot, resolution(limit, snapshot, base, key.files)->Ok_0) is Ok,
        ({
            let made = key_of(limit, base, snapshot, key)->Ok_0;
            let digest = files_hash(
                snapshot,
                resolution(limit, snapshot, base, key.files)->Ok_0,
            )->Ok_0;
            match key.prefix {
                Some(prefix) => made == prefix + seq!['-'] + digest,
                None => made == digest,
            }
        }),
{
}

/// Making a key fails only of a malformed pattern, of too many files or
/// of a file that was not read: never of the digest itself.
pub proof fn digest_never_fails(limit: nat, base: Seq<char>, snapshot: SnapshotView, key: KeyView)
    ensures
        key_of(limit, base, snapshot, key) != Err::<Seq<char>, Failure>(
            Failure::HashCalculationError,
        ),
{
}

/// Patterns that match nothing give a key all the same: where no pattern
/// is malformed and no file is selected, the key is the digest of no
/// bytes, behind the prefix if there is one.
pub proof fn nothing_matched_gives_empty_digest(
    limit: nat,
    base: Seq<char>,
    snapshot: SnapshotView,
    key: KeyView,
)
    requires
        first_malformed(snapshot, base, key.files, 0) is None,
        resolved(snapshot, base, key.files) == Set::<Seq<char>>::empty(),
    ensures
        resolution(limit, snapshot, base, key.files) == Ok::<Seq<Seq<char>>, Failure>(
            Seq::<Seq<char>>::empty(),
        ),
        key_of(limit, base, snapshot, key) == Ok::<Seq<char>, Failure>(
            with_prefix(key.prefix, digest_text(Seq::<u8>::empty())),
        ),
{
    broadcast use group_to_multiset_ensures;

    let none = Set::<Seq<char>>::empty();
    lemma_listing(none);
    let files = listing(none);
    assert(files =~= Seq::<Seq<char>>::empty());
    lemma_text_order_total();
    files.lemma_sort_by_ensures(text_order());
    let ordered = files.sort_by(text_order());
    assert(ordered.len() == 0) by {
        assert(ordered.to_multiset().len() == files.to_multiset().len());
    }
    assert(digests(snapshot, ordered) =~= Seq::<(Seq<char>, Seq<char>)>::empty());
    assert(encode_utf8(Seq::<char>::empty()) =~= Seq::<u8>::empty());
}

/// SHA-256 tells `a` and `b` apart: they are the same bytes, or their
/// digests differ. No two runs of bytes are known of which this fails, but
/// there are more runs of bytes than digests, so it fails of some.
pub open spec fn told_apart(a: Seq<u8>, b: Seq<u8>) -> bool {
    a == b || sha256_digest(a) != sha256_digest(b)
}

/// The digests of files that were all read, in the order of their paths.
proof fn lemma_read_files(snapshot: SnapshotView, files: Seq<Seq<char>>)
    requires
        files_hash(snapshot, files) is Ok,
    ensures
        ({
            let ordered = files.sort_by(text_order());
            let entries = digests(snapshot, ordered);
            &&& ordered.to_multiset() == files.to_multiset()
            &&& entries.len() == ordered.len()
            &&& forall|i: int| 0 <= i < ordered.len() ==> files.contains(#[trigger] ordered[i])
            &&& forall|i: int|
                0 <= i < ordered.len() ==> snapshot.content_of(#[trigger] ordered[i]) is Some
            &&& has_hex_digests(entries)
            &&& files_hash(snapshot, files) == Ok::<Seq<char>, Failure>(
                digest_text(encode_utf8(manifest(entries))),
            )
        }),
{
    let ordered = files.sort_by(text_order());
    let entries = digests(snapshot, ordered);
    lemma_text_order_total();
    files.lemma_sort_by_ensures(text_order());
    lemma_first_unreadable(snapshot, ordered, 0);
    assert forall|i: int| 0 <= i < ordered.len() implies files.contains(#[trigger] ordered[i]) by {
        assert(ordered.contains(ordered[i]));
    }
    assert forall|i: int| 0 <= i < entries.len() implies is_hex_text(
        (#[trigger] entries[i]).1,
    ) by {
        lemma_digest_is_hex(snapshot.content_of(ordered[i])->Some_0);
    }
}

/// Two texts with the same UTF-8 encoding are the same text.
proof fn lemma_encoding_injective(a: Seq<char>, b: Seq<char>)
    requires
        encode_utf8(a) == encode_utf8(b),
    ensures
        a == b,
{
    encode_utf8_decode_utf8(a);
    encode_utf8_decode_utf8(b);
}

/// Texts that SHA-256 tells apart have different digests as the keys show
/// them.
proof fn lemma_digests_differ(first: Seq<char>, second: Seq<char>)
    requires
        first != second,
        told_apart(encode_utf8(first), encode_utf8(second)),
    ensures
        digest_text(encode_utf8(first)) != digest_text(encode_utf8(second)),
{
    if encode_utf8(first) == encode_utf8(second) {
        lemma_encoding_injective(first, second);
    }
    if digest_text(encode_utf8(first)) == digest_text(encode_utf8(second)) {
        lemma_hex_injective(
            sha256_digest(encode_utf8(first)),
            sha256_digest(encode_utf8(second)),
        );
    }
}

/// A change of content changes the digest. Where the content of one of
/// the files differs between two snapshots, the digests of the files
/// differ too, provided SHA-256 tells the two contents apart, and the two
/// texts that stand for the files.
pub proof fn changed_content_changes_digest(
    before: SnapshotView,
    after: SnapshotView,
    files: Seq<Seq<char>>,
    changed: int,
)
    requires
        0 <= changed < files.len(),
        files_hash(before, files) is Ok,
        files_hash(after, files) is Ok,
        before.content_of(files[changed]) != after.content_of(files[changed]),
        told_apart(
            before.content_of(files[changed])->Some_0,
            after.content_of(files[changed])->Some_0,
        ),
        told_apart(
            encode_utf8(hashed_text(before, files)),
            encode_utf8(hashed_text(after, files)),
        ),
    ensures
        files_hash(before, files) != files_hash(after, files),
{
    let path = files[changed];
    let ordered = files.sort_by(text_order());
    let first = digests(before, ordered);
    let second = digests(after, ordered);
    lemma_read_files(before, files);
    lemma_read_files(after, files);
    assert(files.contains(path));
    lemma_permutation_holds(files, ordered, path);
    let j = choose|j: int| 0 <= j < ordered.len() && ordered[j] == path;
    let old = before.content_of(path)->Some_0;
    let new = after.content_of(path)->Some_0;
    assert(before.content_of(ordered[j]) is Some);
    assert(after.content_of(ordered[j]) is Some);
    assert(old != new);
    assert(first[j].1 != second[j].1) by {
        if digest_text(old) == digest_text(new) {
            lemma_hex_injective(sha256_digest(old), sha256_digest(new));
        }
    }
    if manifest(first) == manifest(second) {
        lemma_manifest_tells_digests(first, second);
    }
    lemma_digests_differ(manifest(first), manifest(second));
}

/// A change of path changes the digest. Where one of the files is given
/// another path, the digest of the files changes, whatever the files
/// hold, provided no path seems to end a line of a manifest, as a path
/// without a line feed never does, and SHA-256 tells the two texts that
/// stand for the files apart.
pub proof fn renamed_file_changes_digest(
    before: SnapshotView,
    after: SnapshotView,
    files: Seq<Seq<char>>,
    renamed: int,
    path: Seq<char>,
)
    requires
        0 <= renamed < files.len(),
        path != files[renamed],
        forall|i: int| 0 <= i < files.len() ==> !ends_a_line(#[trigger] files[i]),
        !ends_a_line(path),
        files_hash(before, files) is Ok,
        files_hash(after, files.update(renamed, path)) is Ok,
        told_apart(
            encode_utf8(hashed_text(before, files)),
            encode_utf8(hashed_text(after, files.update(renamed, path))),
        ),
    ensures
        files_hash(before, files) != files_hash(after, files.update(renamed, path)),
{
    let moved = files.update(renamed, path);
    let old_order = files.sort_by(text_order());
    let new_order = moved.sort_by(text_order());
    let first = digests(before, old_order);
    let second = digests(after, new_order);
    lemma_read_files(before, files);
    lemma_read_files(after, moved);
    if manifest(first) == manifest(second) {
        assert forall|i: int| 0 <= i < first.len() implies !ends_a_line(
            (#[trigger] first[i]).0,
        ) by {
            assert(files.contains(old_order[i]));
        }
        assert forall|i: int| 0 <= i < second.len() implies !ends_a_line(
            (#[trigger] second[i]).0,
        ) by {
            assert(moved.contains(new_order[i]));
            let k = choose|k: int| 0 <= k < moved.len() && moved[k] == new_order[i];
            if k != renamed {
                assert(moved[k] == files[k]);
            }
        }
        lemma_manifest_tells_entries(first, second);
        assert(old_order =~= new_order) by {
            assert forall|i: int| 0 <= i < old_order.len() implies old_order[i] == new_order[i] by {
                assert(first[i].0 == old_order[i]);
                assert(second[i].0 == new_order[i]);
            }
        }
        // The two lists then hold the old path equally often, which they
        // do not.
        to_multiset_update(files, renamed, path);
        to_multiset_contains(files, files[renamed]);
        assert(files.contains(files[renamed]));
        assert(moved.to_multiset().count(files[renamed]) == files.to_multiset().count(
            files[renamed],
        ) - 1);
    }
    lemma_digests_differ(manifest(first), manifest(second));
}

} // verus!
