//! The order in which paths are listed: strings compared character by
//! character, by code point.

use vstd::prelude::*;
use vstd::relations::*;
use vstd::seq_lib::*;
use vstd::std_specs::iter::IteratorSpec;
use vstd::string::*;

verus! {

/// `a` comes no later than `b`: at the first position where they differ
/// `a` holds the character with the smaller code point, or `a` ends first.
pub open spec fn text_le(a: Seq<char>, b: Seq<char>) -> bool
    decreases a.len(),
{
    if a.len() == 0 {
        true
    } else if b.len() == 0 {
        false
    } else if a[0] != b[0] {
        (a[0] as u32) < (b[0] as u32)
    } else {
        text_le(a.drop_first(), b.drop_first())
    }
}

/// [`text_le`] as a relation.
pub open spec fn text_order() -> spec_fn(Seq<char>, Seq<char>) -> bool {
    |a: Seq<char>, b: Seq<char>| text_le(a, b)
}

/// The strings of `items`, in order.
pub open spec fn texts(items: Seq<String>) -> Seq<Seq<char>> {
    Seq::new(items.len(), |i: int| items[i]@)
}

/// No string of `items` comes after a later one.
pub open spec fn sorted(items: Seq<Seq<char>>) -> bool {
    sorted_by(items, text_order())
}

/// The strings of a finite set, each once, in order.
pub open spec fn listing(items: Set<Seq<char>>) -> Seq<Seq<char>> {
    items.to_sorted_seq(text_order())
}

/// Different characters have different code points.
proof fn lemma_code_points_differ(c: char, d: char)
    requires
        c != d,
    ensures
        c as u32 != d as u32,
{
    vstd::utf8::char_u32_cast(c, c as u32);
    vstd::utf8::char_u32_cast(d, d as u32);
}

/// Every string comes no later than itself.
proof fn lemma_le_reflexive(a: Seq<char>)
    ensures
        text_le(a, a),
    decreases a.len(),
{
    if a.len() > 0 {
        lemma_le_reflexive(a.drop_first());
    }
}

/// Of two strings, one comes no later than the other.
proof fn lemma_le_total(a: Seq<char>, b: Seq<char>)
    ensures
        text_le(a, b) || text_le(b, a),
    decreases a.len(),
{
    if a.len() > 0 && b.len() > 0 {
        if a[0] == b[0] {
            lemma_le_total(a.drop_first(), b.drop_first());
        } else {
            lemma_code_points_differ(a[0], b[0]);
        }
    }
}

/// Two strings of which neither comes later than the other are the same.
proof fn lemma_le_antisymmetric(a: Seq<char>, b: Seq<char>)
    requires
        text_le(a, b),
        text_le(b, a),
    ensures
        a == b,
    decreases a.len(),
{
    if a.len() > 0 && b.len() > 0 {
        lemma_le_antisymmetric(a.drop_first(), b.drop_first());
        assert(a =~= seq![a[0]] + a.drop_first());
        assert(b =~= seq![b[0]] + b.drop_first());
    } else {
        assert(a =~= b);
    }
}

/// What comes no later than a string that comes no later than a third
/// comes no later than the third.
proof fn lemma_le_transitive(a: Seq<char>, b: Seq<char>, c: Seq<char>)
    requires
        text_le(a, b),
        text_le(b, c),
    ensures
        text_le(a, c),
    decreases a.len(),
{
    if a.len() > 0 && b.len() > 0 && c.len() > 0 && a[0] == b[0] && b[0] == c[0] {
        lemma_le_transitive(a.drop_first(), b.drop_first(), c.drop_first());
    }
}

/// Strings are totally ordered by [`text_le`].
pub proof fn lemma_text_order_total()
    ensures
        total_ordering(text_order()),
{
    let r = text_order();
    assert forall|x: Seq<char>| #[trigger] r(x, x) by {
        lemma_le_reflexive(x);
    }
    assert forall|x: Seq<char>, y: Seq<char>| #[trigger]
        r(x, y) && #[trigger] r(y, x) implies x == y by {
        lemma_le_antisymmetric(x, y);
    }
    assert forall|x: Seq<char>, y: Seq<char>, z: Seq<char>| #[trigger]
        r(x, y) && #[trigger] r(y, z) implies r(x, z) by {
        lemma_le_transitive(x, y, z);
    }
    assert forall|x: Seq<char>, y: Seq<char>| #[trigger] r(x, y) || #[trigger] r(y, x) by {
        lemma_le_total(x, y);
    }
}

/// Whether two strings are the same.
pub fn same_text(a: &str, b: &str) -> (r: bool)
    ensures
        r == (a@ == b@),
{
    let mut x = a.chars();
    let mut y = b.chars();
    let ghost mut i: int = 0;
    assert(a@.skip(0) == a@ && b@.skip(0) == b@);
    loop
        invariant
            0 <= i <= a@.len(),
            i <= b@.len(),
            x.remaining() == a@.skip(i),
            y.remaining() == b@.skip(i),
            forall|k: int| 0 <= k < i ==> a@[k] == b@[k],
        decreases a@.len() - i,
    {
        proof {
            if i < a@.len() {
                assert(a@.skip(i).drop_first() == a@.skip(i + 1));
            }
            if i < b@.len() {
                assert(b@.skip(i).drop_first() == b@.skip(i + 1));
            }
        }
        match x.next() {
            None => {
                let end = y.next();
                assert(end is None ==> a@ =~= b@);
                return end.is_none();
            },
            Some(c) => match y.next() {
                None => {
                    return false;
                },
                Some(d) => {
                    if c != d {
                        assert(a@[i] != b@[i]);
                        return false;
                    }
                    proof {
                        i = i + 1;
                    }
                },
            },
        }
    }
}

/// Compares two strings, character by character.
pub fn string_le(a: &str, b: &str) -> (r: bool)
    ensures
        r == text_le(a@, b@),
{
    let mut x = a.chars();
    let mut y = b.chars();
    let ghost mut i: int = 0;
    assert(a@.skip(0) == a@ && b@.skip(0) == b@);
    loop
        invariant
            0 <= i <= a@.len(),
            i <= b@.len(),
            x.remaining() == a@.skip(i),
            y.remaining() == b@.skip(i),
            text_le(a@, b@) == text_le(a@.skip(i), b@.skip(i)),
        decreases a@.len() - i,
    {
        proof {
            if i < a@.len() {
                assert(a@.skip(i).drop_first() == a@.skip(i + 1));
            }
            if i < b@.len() {
                assert(b@.skip(i).drop_first() == b@.skip(i + 1));
            }
        }
        match x.next() {
            None => {
                return true;
            },
            Some(c) => match y.next() {
                None => {
                    return false;
                },
                Some(d) => {
                    if c != d {
                        return (c as u32) < (d as u32);
                    }
                    proof {
                        i = i + 1;
                    }
                },
            },
        }
    }
}

/// A finite set written out as a sequence holds each of its elements once.
proof fn lemma_to_seq_distinct(items: Set<Seq<char>>)
    requires
        items.finite(),
    ensures
        items.to_seq().no_duplicates(),
        items.to_seq().to_set() == items,
        items.to_seq().len() == items.len(),
    decreases items.len(),
{
    items.lemma_to_seq_to_set_id();
    if items.len() != 0 {
        let x = items.choose();
        let rest = items.remove(x).to_seq();
        lemma_to_seq_distinct(items.remove(x));
        assert(!rest.contains(x)) by {
            assert(!rest.to_set().contains(x));
        }
        let all = items.to_seq();
        assert(all =~= seq![x] + rest);
        assert forall|i: int, j: int|
            0 <= i < all.len() && 0 <= j < all.len() && i != j implies all[i] != all[j] by {
            if i == 0 {
                assert(rest[j - 1] == all[j]);
                assert(rest.contains(rest[j - 1]));
            } else if j == 0 {
                assert(rest[i - 1] == all[i]);
                assert(rest.contains(rest[i - 1]));
            } else {
                assert(rest[i - 1] == all[i]);
                assert(rest[j - 1] == all[j]);
            }
        }
    }
}

/// How often a string occurs in a list without repetitions: once if the
/// list holds it, else never.
proof fn lemma_count_in_distinct(list: Seq<Seq<char>>, x: Seq<char>)
    requires
        list.no_duplicates(),
    ensures
        list.to_multiset().count(x) == if list.to_set().contains(x) {
            1nat
        } else {
            0nat
        },
{
    broadcast use group_to_multiset_ensures;

    list.lemma_multiset_has_no_duplicates();
    assert(list.to_set().contains(x) <==> list.contains(x));
}

/// The listing of a finite set is sorted and holds each element of the set
/// once, and nothing else.
pub proof fn lemma_listing(items: Set<Seq<char>>)
    requires
        items.finite(),
    ensures
        sorted(listing(items)),
        listing(items).no_duplicates(),
        listing(items).to_set() == items,
        listing(items).len() == items.len(),
{
    broadcast use group_to_multiset_ensures;

    let plain = items.to_seq();
    let list = listing(items);
    lemma_to_seq_distinct(items);
    lemma_text_order_total();
    plain.lemma_sort_by_ensures(text_order());
    plain.lemma_multiset_has_no_duplicates();
    list.lemma_multiset_has_no_duplicates_conv();
    assert forall|x: Seq<char>| list.to_set().contains(x) <==> items.contains(x) by {
        assert(list.contains(x) <==> list.to_multiset().count(x) > 0);
        assert(plain.contains(x) <==> plain.to_multiset().count(x) > 0);
        assert(plain.to_set().contains(x) <==> plain.contains(x));
    }
    assert(list.to_set() =~= items);
    assert(list.to_multiset().len() == plain.to_multiset().len());
}

/// A sorted list without repetitions is the listing of the set of its
/// strings: that set has no other such list.
pub proof fn lemma_listing_unique(list: Seq<Seq<char>>, items: Set<Seq<char>>)
    requires
        sorted(list),
        list.no_duplicates(),
        list.to_set() == items,
    ensures
        items.finite(),
        list == listing(items),
        list.len() == items.len(),
{
    seq_to_set_is_finite(list);
    lemma_listing(items);
    lemma_text_order_total();
    let other = listing(items);
    assert forall|x: Seq<char>| list.to_multiset().count(x) == other.to_multiset().count(x) by {
        lemma_count_in_distinct(list, x);
        lemma_count_in_distinct(other, x);
    }
    assert(list.to_multiset() =~= other.to_multiset());
    lemma_sorted_unique(list, other, text_order());
}

/// The first position of a sorted list whose string does not come before
/// `item`.
fn position(list: &Vec<String>, item: &str) -> (k: usize)
    requires
        sorted(texts(list@)),
    ensures
        k <= list.len(),
        forall|m: int| 0 <= m < k ==> !text_le(item@, #[trigger] texts(list@)[m]),
        forall|m: int| k <= m < list.len() ==> text_le(item@, #[trigger] texts(list@)[m]),
{
    let mut k: usize = 0;
    while k < list.len() && !string_le(item, list[k].as_str())
        invariant
            k <= list.len(),
            forall|m: int| 0 <= m < k ==> !text_le(item@, #[trigger] texts(list@)[m]),
        decreases list.len() - k,
    {
        k += 1;
    }
    proof {
        let all = texts(list@);
        assert forall|m: int| k <= m < list.len() implies text_le(item@, #[trigger] all[m]) by {
            if m > k {
                assert(text_order()(all[k as int], all[m]));
                lemma_le_transitive(item@, all[k as int], all[m]);
            }
        }
    }
    k
}

/// Putting `item` at a position before which every string comes before it
/// and from which on none does keeps a sorted list sorted.
proof fn lemma_insert_keeps_sorted(all: Seq<Seq<char>>, k: int, item: Seq<char>)
    requires
        sorted(all),
        0 <= k <= all.len(),
        forall|m: int| 0 <= m < k ==> !text_le(item, #[trigger] all[m]),
        forall|m: int| k <= m < all.len() ==> text_le(item, #[trigger] all[m]),
    ensures
        sorted(all.insert(k, item)),
{
    let out = all.insert(k, item);
    assert forall|i: int, j: int| 0 <= i < j < out.len() implies #[trigger] text_order()(
        out[i],
        out[j],
    ) by {
        if j == k {
            lemma_le_total(item, all[i]);
        } else if i == k {
            assert(out[j] == all[j - 1]);
        } else {
            let a = if i < k {
                i
            } else {
                i - 1
            };
            let b = if j < k {
                j
            } else {
                j - 1
            };
            assert(out[i] == all[a] && out[j] == all[b]);
            assert(text_order()(all[a], all[b]));
        }
    }
}

/// Puts `item` into a sorted list, where it belongs.
pub(crate) fn insert_sorted(list: &mut Vec<String>, item: String)
    requires
        sorted(texts(old(list)@)),
    ensures
        sorted(texts(final(list)@)),
        texts(final(list)@).to_multiset() == texts(old(list)@).to_multiset().insert(item@),
{
    let k = position(list, item.as_str());
    let ghost before = texts(list@);
    list.insert(k, item);
    proof {
        assert(texts(list@) =~= before.insert(k as int, item@));
        lemma_insert_keeps_sorted(before, k as int, item@);
        to_multiset_insert(before, k as int, item@);
    }
}

/// The strings of `items` in order, each as often as it occurs there.
pub fn sorted_copy(items: &[String]) -> (list: Vec<String>)
    ensures
        texts(list@) == texts(items@).sort_by(text_order()),
{
    let ghost all = texts(items@);
    let mut list: Vec<String> = Vec::new();
    let mut i: usize = 0;
    assert(texts(list@).to_multiset() =~= all.take(0).to_multiset()) by {
        broadcast use group_to_multiset_ensures;

        assert(texts(list@) =~= all.take(0));
    }
    while i < items.len()
        invariant
            i <= items.len(),
            all == texts(items@),
            sorted(texts(list@)),
            texts(list@).to_multiset() == all.take(i as int).to_multiset(),
        decreases items.len() - i,
    {
        proof {
            assert(all.take(i + 1) == all.take(i as int).push(all[i as int]));
            to_multiset_build(all.take(i as int), all[i as int]);
        }
        insert_sorted(&mut list, items[i].clone());
        i += 1;
    }
    proof {
        assert(all.take(i as int) == all);
        lemma_text_order_total();
        all.lemma_sort_by_ensures(text_order());
        lemma_sorted_unique(texts(list@), all.sort_by(text_order()), text_order());
    }
    list
}

/// Puts `item` into a sorted list without repetitions, unless it is there.
pub(crate) fn insert_unique(list: &mut Vec<String>, item: &str)
    requires
        sorted(texts(old(list)@)),
        texts(old(list)@).no_duplicates(),
    ensures
        sorted(texts(final(list)@)),
        texts(final(list)@).no_duplicates(),
        texts(final(list)@).to_set() == texts(old(list)@).to_set().insert(item@),
{
    let k = position(list, item);
    let ghost before = texts(list@);
    if k < list.len() && same_text(list[k].as_str(), item) {
        assert(before[k as int] == item@);
        assert(before.to_set() =~= before.to_set().insert(item@));
        return;
    }
    list.insert(k, String::from_str(item));
    proof {
        let after = texts(list@);
        assert(after =~= before.insert(k as int, item@));
        lemma_insert_keeps_sorted(before, k as int, item@);
        assert forall|m: int| 0 <= m < before.len() implies before[m] != item@ by {
            if m < k {
                lemma_le_reflexive(item@);
            } else if m > k {
                assert(text_order()(before[k as int], before[m]));
                if before[m] == item@ {
                    lemma_le_antisymmetric(before[k as int], item@);
                }
            }
        }
        assert forall|i: int, j: int|
            0 <= i < after.len() && 0 <= j < after.len() && i != j implies after[i] != after[j] by {
            let a = if i < k {
                i
            } else {
                i - 1
            };
            let b = if j < k {
                j
            } else {
                j - 1
            };
            if i != k && j != k {
                assert(after[i] == before[a] && after[j] == before[b]);
            } else if i == k {
                assert(after[j] == before[b]);
            } else {
                assert(after[i] == before[a]);
            }
        }
        assert forall|x: Seq<char>| after.to_set().contains(x) <==> before.to_set().insert(
            item@,
        ).contains(x) by {
            if after.to_set().contains(x) {
                let i = choose|i: int| 0 <= i < after.len() && after[i] == x;
                if i != k {
                    let a = if i < k {
                        i
                    } else {
                        i - 1
                    };
                    assert(after[i] == before[a]);
                    assert(before.contains(x));
                }
            }
            if before.to_set().contains(x) {
                let a = choose|a: int| 0 <= a < before.len() && before[a] == x;
                let i = if a < k {
                    a
                } else {
                    a + 1
                };
                assert(after[i] == x);
                assert(after.contains(x));
            }
            if x == item@ {
                assert(after[k as int] == x);
                assert(after.contains(x));
            }
        }
        assert(after.to_set() =~= before.to_set().insert(item@));
    }
}

} // verus!
