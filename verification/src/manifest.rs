//! The text whose digest stands for a list of files: one line for each
//! file, its path and the digest of its content.

use crate::digest::{
    digest_text, is_hex_char, is_hex_text, lemma_hex_char_is_plain, lemma_hex_chars, sha256_digest,
};
use vstd::prelude::*;
use vstd::string::*;

verus! {

/// One line of a manifest: a path, a colon, the digest of the file there.
pub open spec fn line(entry: (Seq<char>, Seq<char>)) -> Seq<char> {
    entry.0 + seq![':'] + entry.1
}

/// The lines of `entries`, in order, with a line feed between each two.
pub open spec fn manifest(entries: Seq<(Seq<char>, Seq<char>)>) -> Seq<char>
    decreases entries.len(),
{
    if entries.len() == 0 {
        Seq::<char>::empty()
    } else if entries.len() == 1 {
        line(entries[0])
    } else {
        manifest(entries.drop_last()) + seq!['\n'] + line(entries.last())
    }
}

/// The pairs of `entries` as the contracts read them, in order.
pub open spec fn pairs(entries: Seq<(String, String)>) -> Seq<(Seq<char>, Seq<char>)> {
    Seq::new(entries.len(), |i: int| (entries[i].0@, entries[i].1@))
}

/// Writes the manifest of `entries`, each a path with a digest.
pub fn write_manifest(entries: &[(String, String)]) -> (text: String)
    ensures
        text@ == manifest(pairs(entries@)),
{
    let ghost all = pairs(entries@);
    let mut text = String::new();
    let mut i: usize = 0;
    assert(all.take(0) =~= Seq::<(Seq<char>, Seq<char>)>::empty());
    while i < entries.len()
        invariant
            i <= entries.len(),
            all == pairs(entries@),
            text@ == manifest(all.take(i as int)),
        decreases entries.len() - i,
    {
        proof {
            reveal_strlit("\n");
            reveal_strlit(":");
            assert(all.take(i + 1).drop_last() == all.take(i as int));
            assert(all.take(i + 1).last() == all[i as int]);
        }
        let ghost before = text@;
        if i > 0 {
            text.append("\n");
        }
        text.append(entries[i].0.as_str());
        text.append(":");
        text.append(entries[i].1.as_str());
        proof {
            let entry = all[i as int];
            if i > 0 {
                assert(text@ =~= before + seq!['\n'] + line(entry));
            } else {
                assert(text@ =~= line(entry));
                assert(all.take(1)[0] == entry);
            }
        }
        i += 1;
    }
    assert(all.take(i as int) == all);
    text
}

/// A text in which a line of a manifest seems to end: somewhere in it
/// stand a colon, then hexadecimal digits or none, then a line feed. A
/// text without a line feed is no such text.
pub open spec fn ends_a_line(text: Seq<char>) -> bool {
    exists|i: int, j: int|
        0 <= i < j < text.len() && text[i] == ':' && text[j] == '\n' && is_hex_text(
            #[trigger] text.subrange(i + 1, j),
        )
}

/// A digest consists of hexadecimal digits.
pub proof fn lemma_digest_is_hex(data: Seq<u8>)
    ensures
        is_hex_text(digest_text(data)),
{
    lemma_hex_chars(sha256_digest(data));
}

/// Where two texts end in a colon and a digest, and are the same text, the
/// digests are the same and so is what stands before the colon.
pub proof fn lemma_split_at_colon(a: Seq<char>, d: Seq<char>, b: Seq<char>, e: Seq<char>)
    requires
        a + seq![':'] + d == b + seq![':'] + e,
        is_hex_text(d),
        is_hex_text(e),
    ensures
        a == b,
        d == e,
{
    let x = a + seq![':'] + d;
    let y = b + seq![':'] + e;
    assert(x.len() == a.len() + 1 + d.len());
    assert(y.len() == b.len() + 1 + e.len());
    if d.len() < e.len() {
        assert(x[a.len() as int] == ':');
        assert(y[a.len() as int] == e[a.len() - b.len() - 1]);
        lemma_hex_char_is_plain(e[a.len() - b.len() - 1]);
    } else if e.len() < d.len() {
        assert(y[b.len() as int] == ':');
        assert(x[b.len() as int] == d[b.len() - a.len() - 1]);
        lemma_hex_char_is_plain(d[b.len() - a.len() - 1]);
    }
    assert(a =~= b) by {
        assert forall|i: int| 0 <= i < a.len() implies a[i] == b[i] by {
            assert(x[i] == a[i]);
            assert(y[i] == b[i]);
        }
    }
    assert(d =~= e) by {
        assert forall|i: int| 0 <= i < d.len() implies d[i] == e[i] by {
            assert(x[a.len() + 1 + i] == d[i]);
            assert(y[b.len() + 1 + i] == e[i]);
        }
    }
}

/// What stands in a manifest before the path of its last line: nothing
/// for one line, else the lines before with a line feed behind them.
pub open spec fn lead(entries: Seq<(Seq<char>, Seq<char>)>) -> Seq<char> {
    if entries.len() <= 1 {
        Seq::<char>::empty()
    } else {
        manifest(entries.drop_last()) + seq!['\n']
    }
}

/// A manifest with a line in it ends in that line's path, a colon and its
/// digest.
pub proof fn lemma_manifest_end(entries: Seq<(Seq<char>, Seq<char>)>)
    requires
        entries.len() > 0,
    ensures
        manifest(entries) == lead(entries) + entries.last().0 + seq![':'] + entries.last().1,
        manifest(entries).len() > 0,
{
    let end = entries.last();
    assert(manifest(entries) =~= lead(entries) + end.0 + seq![':'] + end.1);
}

/// The entries of `entries` have hexadecimal digests.
pub open spec fn has_hex_digests(entries: Seq<(Seq<char>, Seq<char>)>) -> bool {
    forall|i: int| 0 <= i < entries.len() ==> is_hex_text((#[trigger] entries[i]).1)
}

/// No path of `entries` seems to end a line.
pub open spec fn has_clear_paths(entries: Seq<(Seq<char>, Seq<char>)>) -> bool {
    forall|i: int| 0 <= i < entries.len() ==> !ends_a_line((#[trigger] entries[i]).0)
}

/// What holds of all entries holds of all but the last.
proof fn lemma_drop_last_keeps(entries: Seq<(Seq<char>, Seq<char>)>)
    requires
        entries.len() > 0,
    ensures
        has_hex_digests(entries) ==> has_hex_digests(entries.drop_last()),
        has_clear_paths(entries) ==> has_clear_paths(entries.drop_last()),
{
    let fewer = entries.drop_last();
    assert forall|i: int| 0 <= i < fewer.len() implies #[trigger] fewer[i] == entries[i] by {}
    if has_hex_digests(entries) {
        assert forall|i: int| 0 <= i < fewer.len() implies is_hex_text((#[trigger] fewer[i]).1) by {
            assert(fewer[i] == entries[i]);
        }
    }
    if has_clear_paths(entries) {
        assert forall|i: int| 0 <= i < fewer.len() implies !ends_a_line(
            (#[trigger] fewer[i]).0,
        ) by {
            assert(fewer[i] == entries[i]);
        }
    }
}

/// Two texts of which one stands at the front of the other, with a line
/// feed as its last character: the same manifests with a line feed behind
/// them are the same manifests.
proof fn lemma_same_lead(
    first: Seq<(Seq<char>, Seq<char>)>,
    second: Seq<(Seq<char>, Seq<char>)>,
)
    requires
        first.len() > 1,
        second.len() > 1,
        lead(first) == lead(second),
    ensures
        manifest(first.drop_last()) == manifest(second.drop_last()),
{
    let m = manifest(first.drop_last());
    let n = manifest(second.drop_last());
    assert(m.len() + 1 == lead(first).len());
    assert(n.len() + 1 == lead(second).len());
    assert forall|i: int| 0 <= i < m.len() implies m[i] == n[i] by {
        assert(lead(first)[i] == m[i]);
        assert(lead(second)[i] == n[i]);
    }
    assert(m =~= n);
}

/// Two texts that are the same and end in texts of the same length have
/// the same ends and the same beginnings.
proof fn lemma_same_parts(a: Seq<char>, p: Seq<char>, b: Seq<char>, q: Seq<char>)
    requires
        a + p == b + q,
        p.len() == q.len(),
    ensures
        a == b,
        p == q,
{
    let x = a + p;
    let y = b + q;
    assert(x.len() == a.len() + p.len());
    assert(y.len() == b.len() + q.len());
    assert forall|i: int| 0 <= i < a.len() implies a[i] == b[i] by {
        assert(x[i] == a[i]);
        assert(y[i] == b[i]);
    }
    assert forall|i: int| 0 <= i < p.len() implies p[i] == q[i] by {
        assert(x[a.len() + i] == p[i]);
        assert(y[b.len() + i] == q[i]);
    }
    assert(a =~= b);
    assert(p =~= q);
}

/// Entries with the same paths and hexadecimal digests have the same
/// manifest only where they have the same digests.
pub proof fn lemma_manifest_tells_digests(
    first: Seq<(Seq<char>, Seq<char>)>,
    second: Seq<(Seq<char>, Seq<char>)>,
)
    requires
        first.len() == second.len(),
        forall|i: int| 0 <= i < first.len() ==> (#[trigger] first[i]).0 == second[i].0,
        has_hex_digests(first),
        has_hex_digests(second),
        manifest(first) == manifest(second),
    ensures
        first == second,
    decreases first.len(),
{
    if first.len() == 0 {
        assert(first =~= second);
    } else {
        let a = first.last();
        let b = second.last();
        lemma_manifest_end(first);
        lemma_manifest_end(second);
        lemma_split_at_colon(lead(first) + a.0, a.1, lead(second) + b.0, b.1);
        lemma_same_parts(lead(first), a.0, lead(second), b.0);
        assert(a == b);
        if first.len() > 1 {
            lemma_same_lead(first, second);
            lemma_drop_last_keeps(first);
            lemma_drop_last_keeps(second);
            assert forall|i: int| 0 <= i < first.drop_last().len() implies (
            #[trigger] first.drop_last()[i]).0 == second.drop_last()[i].0 by {
                assert(first.drop_last()[i] == first[i]);
                assert(second.drop_last()[i] == second[i]);
            }
            lemma_manifest_tells_digests(first.drop_last(), second.drop_last());
        } else {
            assert(first.drop_last() =~= second.drop_last());
        }
        assert(first =~= first.drop_last().push(a));
        assert(second =~= second.drop_last().push(b));
    }
}

/// Where the lines before the last end later in one manifest than in
/// another that reads the same, the last path of the other seems to end a
/// line: it holds the end of the line before the last.
proof fn lemma_longer_lead_ends_a_line(
    first: Seq<(Seq<char>, Seq<char>)>,
    second: Seq<(Seq<char>, Seq<char>)>,
)
    requires
        first.len() > 0,
        second.len() > 0,
        has_hex_digests(first),
        lead(first) + first.last().0 == lead(second) + second.last().0,
        lead(first).len() > lead(second).len(),
    ensures
        ends_a_line(second.last().0),
{
    let x = lead(first) + first.last().0;
    let y = lead(second) + second.last().0;
    let path = second.last().0;
    let before = first.drop_last();
    let line = before.last();
    lemma_manifest_end(before);
    // Where the colon and the line feed of the line before the last stand.
    let colon: int = (lead(before).len() + line.0.len()) as int;
    let feed: int = colon + 1 + line.1.len();
    assert(feed == lead(first).len() - 1);
    assert(x[colon] == ':') by {
        assert(x[colon] == lead(first)[colon]);
        assert(lead(first)[colon] == manifest(before)[colon]);
    }
    assert(x[feed] == '\n') by {
        assert(x[feed] == lead(first)[feed]);
    }
    assert forall|k: int| colon < k < feed implies is_hex_char(#[trigger] x[k]) by {
        assert(x[k] == lead(first)[k]);
        assert(lead(first)[k] == manifest(before)[k]);
        assert(manifest(before)[k] == line.1[k - colon - 1]);
    }
    let start = lead(second).len() as int;
    if start > 0 {
        // The line feed that ends the other lead is neither the colon nor
        // a digit of the digest.
        assert(second.len() > 1);
        assert(y[start - 1] == '\n') by {
            assert(y[start - 1] == lead(second)[start - 1]);
        }
        if colon < start - 1 {
            lemma_hex_char_is_plain(x[start - 1]);
        }
    }
    assert(start <= colon);
    assert forall|k: int| start <= k < x.len() implies x[k] == path[k - start] by {
        assert(y[k] == path[k - start]);
    }
    let i: int = colon - start;
    let j: int = feed - start;
    assert(path[i] == ':' && path[j] == '\n');
    assert(is_hex_text(path.subrange(i + 1, j))) by {
        assert forall|k: int| 0 <= k < path.subrange(i + 1, j).len() implies is_hex_char(
            #[trigger] path.subrange(i + 1, j)[k],
        ) by {
            assert(path.subrange(i + 1, j)[k] == x[colon + 1 + k]);
        }
    }
}

/// Entries with hexadecimal digests of which no path seems to end a line
/// have the same manifest only where they are the same entries.
pub proof fn lemma_manifest_tells_entries(
    first: Seq<(Seq<char>, Seq<char>)>,
    second: Seq<(Seq<char>, Seq<char>)>,
)
    requires
        has_clear_paths(first),
        has_clear_paths(second),
        has_hex_digests(first),
        has_hex_digests(second),
        manifest(first) == manifest(second),
    ensures
        first == second,
    decreases first.len(),
{
    if first.len() == 0 {
        if second.len() > 0 {
            lemma_manifest_end(second);
        }
        assert(first =~= second);
    } else if second.len() == 0 {
        lemma_manifest_end(first);
    } else {
        let a = first.last();
        let b = second.last();
        lemma_manifest_end(first);
        lemma_manifest_end(second);
        lemma_split_at_colon(lead(first) + a.0, a.1, lead(second) + b.0, b.1);
        if lead(first).len() > lead(second).len() {
            lemma_longer_lead_ends_a_line(first, second);
        } else if lead(second).len() > lead(first).len() {
            lemma_longer_lead_ends_a_line(second, first);
        }
        assert(a.0.len() == b.0.len()) by {
            assert((lead(first) + a.0).len() == lead(first).len() + a.0.len());
            assert((lead(second) + b.0).len() == lead(second).len() + b.0.len());
        }
        lemma_same_parts(lead(first), a.0, lead(second), b.0);
        assert(a == b);
        if first.len() > 1 {
            assert(second.len() > 1);
            lemma_same_lead(first, second);
            lemma_drop_last_keeps(first);
            lemma_drop_last_keeps(second);
            lemma_manifest_tells_entries(first.drop_last(), second.drop_last());
        } else {
            assert(second.len() == 1);
            assert(first.drop_last() =~= second.drop_last());
        }
        assert(first =~= first.drop_last().push(a));
        assert(second =~= second.drop_last().push(b));
    }
}

} // verus!
