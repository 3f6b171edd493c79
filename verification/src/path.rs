//! Paths as the library reads them: strings that are split at `/`.
//!
//! A path is taken apart into components the way a Unix path is: a leading
//! `/` is the root, a leading `.` is the current directory, and empty pieces
//! and further `.` pieces count for nothing.

use vstd::prelude::*;
use vstd::string::*;

verus! {

/// The character that separates the pieces of a path.
pub const SEPARATOR: char = '/';

/// The character of which the name of the current directory consists.
pub const DOT: char = '.';

/// A path that starts at the root.
pub open spec fn is_absolute(path: Seq<char>) -> bool {
    path.len() > 0 && path[0] == SEPARATOR
}

/// Whether a separator has to be put behind `base` before a path is
/// appended.
pub open spec fn needs_separator(base: Seq<char>) -> bool {
    base.len() > 0 && base.last() != SEPARATOR
}

/// `pattern` as it is looked up: itself where it is absolute, else appended
/// to `base`, with one separator between the two unless `base` is empty or
/// already ends in one.
pub open spec fn joined(base: Seq<char>, pattern: Seq<char>) -> Seq<char> {
    if is_absolute(pattern) {
        pattern
    } else if needs_separator(base) {
        base + seq![SEPARATOR] + pattern
    } else {
        base + pattern
    }
}

/// The stretches of `path` between separators, in order. A path without a
/// separator is one piece; a separator at either end leaves an empty piece
/// there.
pub open spec fn pieces(path: Seq<char>) -> Seq<Seq<char>>
    decreases path.len(),
{
    if path.len() == 0 {
        seq![Seq::<char>::empty()]
    } else {
        let before = pieces(path.drop_last());
        if path.last() == SEPARATOR {
            before.push(Seq::<char>::empty())
        } else {
            before.drop_last().push(before.last().push(path.last()))
        }
    }
}

/// A piece that names something: not empty and not `.`.
pub open spec fn is_name(piece: Seq<char>) -> bool {
    piece.len() > 0 && piece != seq![DOT]
}

/// [`is_name`] as a predicate.
pub open spec fn names() -> spec_fn(Seq<char>) -> bool {
    |piece: Seq<char>| is_name(piece)
}

/// What stands in front of the names of a path, from whether the path is
/// absolute and its first piece: the root for an absolute path, the
/// current directory for a relative path whose first piece is `.`.
pub open spec fn head_of(absolute: bool, first_piece: Seq<char>) -> Seq<Seq<char>> {
    if absolute {
        seq![seq![SEPARATOR]]
    } else if first_piece == seq![DOT] {
        seq![seq![DOT]]
    } else {
        Seq::<Seq<char>>::empty()
    }
}

/// What stands in front of the names of `path`.
pub open spec fn head(path: Seq<char>) -> Seq<Seq<char>> {
    head_of(is_absolute(path), pieces(path)[0])
}

/// The components of `path`: its head, then its names in order.
pub open spec fn components(path: Seq<char>) -> Seq<Seq<char>> {
    head(path) + pieces(path).filter(names())
}

/// `path` lies at or below `root`: the components of `root` are the first
/// components of `path`.
pub open spec fn within(path: Seq<char>, root: Seq<char>) -> bool {
    components(root).is_prefix_of(components(path))
}

/// What the vectors of `parts` hold, in order.
pub open spec fn parts_of(parts: Seq<Vec<char>>) -> Seq<Seq<char>> {
    Seq::new(parts.len(), |i: int| parts[i]@)
}

/// The first piece of a path ends at its first separator: once a second
/// piece has begun, more characters leave the first as it is.
proof fn lemma_first_piece_stays(path: Seq<char>, next: char)
    requires
        pieces(path).len() > 1,
    ensures
        pieces(path.push(next))[0] == pieces(path)[0],
        pieces(path.push(next)).len() > 1,
{
    assert(path.push(next).drop_last() == path);
}

/// Whether `path` starts at the root.
fn starts_at_root(path: &str) -> (r: bool)
    ensures
        r == is_absolute(path@),
{
    let mut chars = path.chars();
    match chars.next() {
        Some(c) => c == SEPARATOR,
        None => false,
    }
}

/// Whether a separator has to be put behind `base`.
fn lacks_separator(base: &str) -> (r: bool)
    ensures
        r == needs_separator(base@),
{
    let mut last: Option<char> = None;
    for c in it: base.chars()
        invariant
            it.seq() == base@,
            last == if it.index() > 0 {
                Some(base@[it.index() - 1])
            } else {
                None
            },
    {
        last = Some(c);
    }
    match last {
        Some(c) => c != SEPARATOR,
        None => false,
    }
}

/// Joins a pattern to the directory it is relative to.
pub fn join(base: &str, pattern: &str) -> (full: String)
    ensures
        full@ == joined(base@, pattern@),
{
    if starts_at_root(pattern) {
        return String::from_str(pattern);
    }
    let mut full = String::from_str(base);
    if lacks_separator(base) {
        proof {
            reveal_strlit("/");
        }
        full.append("/");
        assert(full@ =~= base@ + seq![SEPARATOR]);
    }
    full.append(pattern);
    full
}

/// Whether `piece` is the one character `.`.
fn is_dot(piece: &Vec<char>) -> (r: bool)
    ensures
        r == (piece@ == seq![DOT]),
{
    let r = piece.len() == 1 && piece[0] == DOT;
    proof {
        if r {
            assert(piece@ =~= seq![DOT]);
        }
    }
    r
}

/// Takes a path apart into its components.
pub fn split(path: &str) -> (parts: Vec<Vec<char>>)
    ensures
        parts_of(parts@) == components(path@),
{
    let absolute = starts_at_root(path);
    let mut parts: Vec<Vec<char>> = Vec::new();
    if absolute {
        let mut root: Vec<char> = Vec::new();
        root.push(SEPARATOR);
        parts.push(root);
        assert(parts_of(parts@) =~= seq![seq![SEPARATOR]]);
    }
    let mut current: Vec<char> = Vec::new();
    let mut first = true;
    let ghost lead: Seq<Seq<char>> = if absolute {
        seq![seq![SEPARATOR]]
    } else {
        Seq::<Seq<char>>::empty()
    };
    assert(parts_of(parts@) =~= lead);
    proof {
        assert(path@.take(0) =~= Seq::<char>::empty());
        reveal(Seq::filter);
        assert(pieces(path@.take(0)).drop_last() =~= Seq::<Seq<char>>::empty());
    }
    for c in it: path.chars()
        invariant
            it.seq() == path@,
            absolute == is_absolute(path@),
            lead == if absolute {
                seq![seq![SEPARATOR]]
            } else {
                Seq::<Seq<char>>::empty()
            },
            pieces(path@.take(it.index() as int)).len() >= 1,
            first == (pieces(path@.take(it.index() as int)).len() == 1),
            current@ == pieces(path@.take(it.index() as int)).last(),
            parts_of(parts@) == (if first {
                lead
            } else {
                head_of(absolute, pieces(path@.take(it.index() as int))[0])
            }) + pieces(path@.take(it.index() as int)).drop_last().filter(names()),
    {
        let ghost i = it.index() as int;
        let ghost before = pieces(path@.take(i));
        let ghost old_parts = parts_of(parts@);
        proof {
            assert(path@.take(i + 1).drop_last() == path@.take(i));
            assert(path@.take(i + 1).last() == path@[i]);
            if !first {
                lemma_first_piece_stays(path@.take(i), path@[i]);
                assert(path@.take(i).push(path@[i]) == path@.take(i + 1));
            }
        }
        if c == SEPARATOR {
            proof {
                let after = pieces(path@.take(i + 1));
                assert(after == before.push(Seq::<char>::empty()));
                assert(after.drop_last() == before);
                assert(before == before.drop_last().push(before.last()));
                before.drop_last().lemma_filter_push(before.last(), names());
                assert(after[0] == before[0]);
            }
            let dot = is_dot(&current);
            if (first && !absolute && dot) || (current.len() > 0 && !dot) {
                parts.push(current);
                assert(parts_of(parts@) =~= old_parts.push(before.last()));
            }
            current = Vec::new();
            first = false;
        } else {
            current.push(c);
            proof {
                let after = pieces(path@.take(i + 1));
                assert(after.drop_last() == before.drop_last());
                if !first {
                    assert(after[0] == before[0]);
                }
            }
        }
    }
    proof {
        assert(path@.take(path@.len() as int) == path@);
        let all = pieces(path@);
        assert(all == all.drop_last().push(all.last()));
        all.drop_last().lemma_filter_push(all.last(), names());
    }
    let ghost old_parts = parts_of(parts@);
    let dot = is_dot(&current);
    if (first && !absolute && dot) || (current.len() > 0 && !dot) {
        parts.push(current);
        assert(parts_of(parts@) =~= old_parts.push(pieces(path@).last()));
    }
    parts
}

/// Whether two components are the same.
fn same_part(a: &Vec<char>, b: &Vec<char>) -> (r: bool)
    ensures
        r == (a@ == b@),
{
    if a.len() != b.len() {
        return false;
    }
    let mut i: usize = 0;
    while i < a.len()
        invariant
            i <= a.len(),
            a.len() == b.len(),
            forall|k: int| 0 <= k < i ==> a@[k] == b@[k],
        decreases a.len() - i,
    {
        if a[i] != b[i] {
            return false;
        }
        i += 1;
    }
    assert(a@ =~= b@);
    true
}

/// Decides whether a path with the components `inner` lies at or below
/// one with the components `outer`.
pub fn begins_with(inner: &Vec<Vec<char>>, outer: &Vec<Vec<char>>) -> (r: bool)
    ensures
        r == parts_of(outer@).is_prefix_of(parts_of(inner@)),
{
    if outer.len() > inner.len() {
        return false;
    }
    let ghost want = parts_of(outer@);
    let ghost have = parts_of(inner@);
    let mut i: usize = 0;
    while i < outer.len()
        invariant
            i <= outer.len(),
            outer.len() <= inner.len(),
            want == parts_of(outer@),
            have == parts_of(inner@),
            forall|k: int| 0 <= k < i ==> want[k] == have[k],
        decreases outer.len() - i,
    {
        if !same_part(&outer[i], &inner[i]) {
            assert(want[i as int] == outer@[i as int]@);
            assert(have[i as int] == inner@[i as int]@);
            assert(have.subrange(0, want.len() as int)[i as int] == have[i as int]);
            return false;
        }
        i += 1;
    }
    assert(want =~= have.subrange(0, want.len() as int));
    true
}

/// Decides whether `path` lies at or below `root`.
pub fn lies_within(path: &str, root: &str) -> (r: bool)
    ensures
        r == within(path@, root@),
{
    let outer = split(root);
    let inner = split(path);
    begins_with(&inner, &outer)
}

} // verus!
