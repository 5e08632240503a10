//! Ordered listings: what a range scan of a tree returns.

use crate::codec::{
    lemma_lex_asymmetric, lemma_lex_irreflexive, lemma_lex_le_lt, lemma_lex_le_transitive,
    lemma_lex_trichotomy, lex_le, lex_lt,
};
use vstd::prelude::*;

verus! {

/// `lo <= k < hi` in the order of the key space.
pub open spec fn in_range(k: Seq<u8>, lo: Seq<u8>, hi: Seq<u8>) -> bool {
    lex_le(lo, k) && lex_lt(k, hi)
}

/// The keys of `items` ascend strictly.
pub open spec fn ascending(items: Seq<(Seq<u8>, Seq<u8>)>) -> bool {
    forall|i: int, j: int|
        #![trigger items[i], items[j]]
        0 <= i < j < items.len() ==> lex_lt(items[i].0, items[j].0)
}

/// `k` is the key of one of `items`.
pub open spec fn has_key(items: Seq<(Seq<u8>, Seq<u8>)>, k: Seq<u8>) -> bool {
    exists|i: int| 0 <= i < items.len() && (#[trigger] items[i]).0 == k
}

/// `items` lists the entries of `entries` whose keys lie in `lo <= k < hi`,
/// each once, in ascending key order.
pub open spec fn is_listing(
    entries: Map<Seq<u8>, Seq<u8>>,
    lo: Seq<u8>,
    hi: Seq<u8>,
    items: Seq<(Seq<u8>, Seq<u8>)>,
) -> bool {
    &&& ascending(items)
    &&& forall|i: int|
        0 <= i < items.len() ==> in_range((#[trigger] items[i]).0, lo, hi)
            && entries.contains_pair(items[i].0, items[i].1)
    &&& forall|k: Seq<u8>| #[trigger]
        entries.dom().contains(k) && in_range(k, lo, hi) ==> has_key(items, k)
}

/// `k` is a key of `entries`, and none of its keys comes after it.
pub open spec fn is_greatest(entries: Map<Seq<u8>, Seq<u8>>, k: Seq<u8>) -> bool {
    &&& entries.dom().contains(k)
    &&& forall|other: Seq<u8>| #[trigger] entries.dom().contains(other) ==> lex_le(other, k)
}

/// The listing of `entries` over `lo <= k < hi`.
pub open spec fn listing(entries: Map<Seq<u8>, Seq<u8>>, lo: Seq<u8>, hi: Seq<u8>) -> Seq<
    (Seq<u8>, Seq<u8>),
> {
    choose|items: Seq<(Seq<u8>, Seq<u8>)>| is_listing(entries, lo, hi, items)
}

/// `x` is what `y` ends in.
pub open spec fn is_suffix<T>(x: Seq<T>, y: Seq<T>) -> bool {
    x.len() <= y.len() && y.subrange(y.len() - x.len(), y.len() as int) == x
}

proof fn lemma_ascending_same_keys(a: Seq<(Seq<u8>, Seq<u8>)>, b: Seq<(Seq<u8>, Seq<u8>)>)
    requires
        ascending(a),
        ascending(b),
        forall|i: int| 0 <= i < a.len() ==> has_key(b, (#[trigger] a[i]).0),
        forall|j: int| 0 <= j < b.len() ==> has_key(a, (#[trigger] b[j]).0),
    ensures
        a.len() == b.len(),
        forall|i: int| 0 <= i < a.len() ==> (#[trigger] a[i]).0 == b[i].0,
    decreases a.len(),
{
    if a.len() == 0 {
        if b.len() > 0 {
            assert(has_key(a, b[0].0));
        }
    } else {
        assert(has_key(b, a[0].0));
        let la = a.last().0;
        let lb = b.last().0;
        assert(has_key(b, a[a.len() - 1].0));
        let j = choose|j: int| 0 <= j < b.len() && (#[trigger] b[j]).0 == la;
        assert(has_key(a, b[b.len() - 1].0));
        let i = choose|i: int| 0 <= i < a.len() && (#[trigger] a[i]).0 == lb;
        if i < a.len() - 1 && j < b.len() - 1 {
            assert(lex_lt(a[i].0, a[a.len() - 1].0));
            assert(lex_lt(b[j].0, b[b.len() - 1].0));
            lemma_lex_asymmetric(lb, la);
        }
        assert(la == lb);
        let a1 = a.drop_last();
        let b1 = b.drop_last();
        assert forall|i: int| 0 <= i < a1.len() implies has_key(b1, (#[trigger] a1[i]).0) by {
            assert(has_key(b, a[i].0));
            let j = choose|j: int| 0 <= j < b.len() && (#[trigger] b[j]).0 == a[i].0;
            if j == b.len() - 1 {
                assert(lex_lt(a[i].0, a[a.len() - 1].0));
                lemma_lex_irreflexive(la);
            }
            assert(b1[j].0 == a1[i].0);
        }
        assert forall|j: int| 0 <= j < b1.len() implies has_key(a1, (#[trigger] b1[j]).0) by {
            assert(has_key(a, b[j].0));
            let i = choose|i: int| 0 <= i < a.len() && (#[trigger] a[i]).0 == b[j].0;
            if i == a.len() - 1 {
                assert(lex_lt(b[j].0, b[b.len() - 1].0));
                lemma_lex_irreflexive(lb);
            }
            assert(a1[i].0 == b1[j].0);
        }
        assert(ascending(a1)) by {
            assert forall|i: int, j: int|
                #![trigger a1[i], a1[j]]
                0 <= i < j < a1.len() implies lex_lt(a1[i].0, a1[j].0) by {
                assert(lex_lt(a[i].0, a[j].0));
            }
        }
        assert(ascending(b1)) by {
            assert forall|i: int, j: int|
                #![trigger b1[i], b1[j]]
                0 <= i < j < b1.len() implies lex_lt(b1[i].0, b1[j].0) by {
                assert(lex_lt(b[i].0, b[j].0));
            }
        }
        lemma_ascending_same_keys(a1, b1);
        assert forall|i: int| 0 <= i < a.len() implies (#[trigger] a[i]).0 == b[i].0 by {
            if i < a.len() - 1 {
                assert(a1[i].0 == b1[i].0);
            }
        }
    }
}

/// A range of a map has one listing only.
pub proof fn lemma_listing_unique(
    entries: Map<Seq<u8>, Seq<u8>>,
    lo: Seq<u8>,
    hi: Seq<u8>,
    a: Seq<(Seq<u8>, Seq<u8>)>,
    b: Seq<(Seq<u8>, Seq<u8>)>,
)
    requires
        is_listing(entries, lo, hi, a),
        is_listing(entries, lo, hi, b),
    ensures
        a == b,
{
    assert forall|i: int| 0 <= i < a.len() implies has_key(b, (#[trigger] a[i]).0) by {
        assert(entries.dom().contains(a[i].0));
    }
    assert forall|j: int| 0 <= j < b.len() implies has_key(a, (#[trigger] b[j]).0) by {
        assert(entries.dom().contains(b[j].0));
    }
    lemma_ascending_same_keys(a, b);
    assert forall|i: int| 0 <= i < a.len() implies a[i] == b[i] by {
        assert(a[i].0 == b[i].0);
        assert(entries.contains_pair(a[i].0, a[i].1));
        assert(entries.contains_pair(b[i].0, b[i].1));
    }
    assert(a =~= b);
}

/// Whatever lists a range is `listing` of it.
pub proof fn lemma_listing_is(
    entries: Map<Seq<u8>, Seq<u8>>,
    lo: Seq<u8>,
    hi: Seq<u8>,
    items: Seq<(Seq<u8>, Seq<u8>)>,
)
    requires
        is_listing(entries, lo, hi, items),
    ensures
        listing(entries, lo, hi) == items,
{
    lemma_listing_unique(entries, lo, hi, listing(entries, lo, hi), items);
}

/// The first index at or after `i` whose key is not below `bound`.
pub open spec fn first_at_least(items: Seq<(Seq<u8>, Seq<u8>)>, bound: Seq<u8>, i: int) -> int
    decreases items.len() - i,
{
    if 0 <= i < items.len() && lex_lt(items[i].0, bound) {
        first_at_least(items, bound, i + 1)
    } else {
        i
    }
}

proof fn lemma_first_at_least(items: Seq<(Seq<u8>, Seq<u8>)>, bound: Seq<u8>, i: int)
    requires
        0 <= i <= items.len(),
    ensures
        ({
            let p = first_at_least(items, bound, i);
            &&& i <= p <= items.len()
            &&& forall|j: int| i <= j < p ==> lex_lt((#[trigger] items[j]).0, bound)
            &&& p < items.len() ==> lex_le(bound, items[p].0)
        }),
    decreases items.len() - i,
{
    if i < items.len() && lex_lt(items[i].0, bound) {
        lemma_first_at_least(items, bound, i + 1);
    } else if i < items.len() {
        lemma_lex_trichotomy(items[i].0, bound);
    }
}

/// `items` lists the entries of `entries` under the keys `keys`, each once,
/// in ascending key order.
pub open spec fn lists(
    entries: Map<Seq<u8>, Seq<u8>>,
    keys: Set<Seq<u8>>,
    items: Seq<(Seq<u8>, Seq<u8>)>,
) -> bool {
    &&& ascending(items)
    &&& forall|i: int|
        0 <= i < items.len() ==> keys.contains((#[trigger] items[i]).0) && entries.contains_pair(
            items[i].0,
            items[i].1,
        )
    &&& forall|k: Seq<u8>| #[trigger] keys.contains(k) ==> has_key(items, k)
}

proof fn lemma_lists_exists(entries: Map<Seq<u8>, Seq<u8>>, keys: Set<Seq<u8>>)
    requires
        keys.finite(),
        keys.subset_of(entries.dom()),
    ensures
        exists|items: Seq<(Seq<u8>, Seq<u8>)>| lists(entries, keys, items),
    decreases keys.len(),
{
    if keys.len() == 0 {
        let none = Seq::<(Seq<u8>, Seq<u8>)>::empty();
        assert(keys =~= Set::<Seq<u8>>::empty());
        assert(lists(entries, keys, none));
    } else {
        let x = keys.choose();
        let rest = keys.remove(x);
        lemma_lists_exists(entries, rest);
        let old_items = choose|items: Seq<(Seq<u8>, Seq<u8>)>| lists(entries, rest, items);
        lemma_first_at_least(old_items, x, 0);
        let p = first_at_least(old_items, x, 0);
        let e = (x, entries[x]);
        let items = old_items.subrange(0, p).push(e) + old_items.subrange(
            p,
            old_items.len() as int,
        );
        assert forall|i: int| p <= i < old_items.len() implies lex_lt(
            x,
            (#[trigger] old_items[i]).0,
        ) by {
            assert(rest.contains(old_items[i].0));
            if i > p {
                assert(lex_lt(old_items[p].0, old_items[i].0));
                lemma_lex_le_lt(x, old_items[p].0, old_items[i].0);
            }
        }
        assert forall|i: int| 0 <= i < items.len() implies keys.contains((#[trigger] items[i]).0)
            && entries.contains_pair(items[i].0, items[i].1) by {
            if i < p {
                assert(items[i] == old_items[i]);
                assert(rest.contains(old_items[i].0));
            } else if i > p {
                assert(items[i] == old_items[i - 1]);
                assert(rest.contains(old_items[i - 1].0));
            }
        }
        assert forall|i: int, j: int|
            #![trigger items[i], items[j]]
            0 <= i < j < items.len() implies lex_lt(items[i].0, items[j].0) by {
            let a = if i < p { i } else { i - 1 };
            let b = if j < p { j } else { j - 1 };
            if i != p {
                assert(items[i] == old_items[a]);
            }
            if j != p {
                assert(items[j] == old_items[b]);
            }
            if i != p && j != p {
                assert(lex_lt(old_items[a].0, old_items[b].0));
            } else if i == p {
                assert(lex_lt(x, old_items[b].0));
            } else {
                assert(lex_lt(old_items[a].0, x));
            }
        }
        assert forall|k: Seq<u8>| #[trigger] keys.contains(k) implies has_key(items, k) by {
            if k == x {
                assert(items[p].0 == k);
            } else {
                assert(rest.contains(k));
                assert(has_key(old_items, k));
                let i = choose|i: int| 0 <= i < old_items.len() && (#[trigger] old_items[i]).0 == k;
                if i < p {
                    assert(items[i].0 == k);
                } else {
                    assert(items[i + 1] == old_items[i]);
                }
            }
        }
        assert(lists(entries, keys, items));
    }
}

/// Every range of a map with finitely many entries has a listing, and
/// `listing` is it.
pub proof fn lemma_listing_exists(entries: Map<Seq<u8>, Seq<u8>>, lo: Seq<u8>, hi: Seq<u8>)
    requires
        entries.dom().finite(),
    ensures
        is_listing(entries, lo, hi, listing(entries, lo, hi)),
{
    let keys = Set::new(|k: Seq<u8>| entries.dom().contains(k) && in_range(k, lo, hi));
    vstd::set_lib::lemma_set_subset_finite(entries.dom(), keys);
    lemma_lists_exists(entries, keys);
    let items = choose|items: Seq<(Seq<u8>, Seq<u8>)>| lists(entries, keys, items);
    assert(is_listing(entries, lo, hi, items)) by {
        assert forall|i: int| 0 <= i < items.len() implies in_range(
            (#[trigger] items[i]).0,
            lo,
            hi,
        ) && entries.contains_pair(items[i].0, items[i].1) by {
            assert(keys.contains(items[i].0));
        }
        assert forall|k: Seq<u8>| #[trigger]
            entries.dom().contains(k) && in_range(k, lo, hi) implies has_key(items, k) by {
            assert(keys.contains(k));
        }
    }
}

/// Raising the lower bound of a range cuts a prefix off its listing: the
/// listing from `lo2` is what the listing from `lo1 <= lo2` ends in.
pub proof fn lemma_listing_suffix(
    entries: Map<Seq<u8>, Seq<u8>>,
    lo1: Seq<u8>,
    lo2: Seq<u8>,
    hi: Seq<u8>,
    l1: Seq<(Seq<u8>, Seq<u8>)>,
    l2: Seq<(Seq<u8>, Seq<u8>)>,
)
    requires
        is_listing(entries, lo1, hi, l1),
        is_listing(entries, lo2, hi, l2),
        lex_le(lo1, lo2),
    ensures
        is_suffix(l2, l1),
        forall|j: int| 0 <= j < l1.len() - l2.len() ==> lex_lt((#[trigger] l1[j]).0, lo2),
{
    lemma_first_at_least(l1, lo2, 0);
    let p = first_at_least(l1, lo2, 0);
    let tail = l1.subrange(p, l1.len() as int);
    assert(ascending(tail)) by {
        assert forall|i: int, j: int|
            #![trigger tail[i], tail[j]]
            0 <= i < j < tail.len() implies lex_lt(tail[i].0, tail[j].0) by {
            assert(lex_lt(l1[p + i].0, l1[p + j].0));
        }
    }
    assert forall|i: int| 0 <= i < tail.len() implies in_range((#[trigger] tail[i]).0, lo2, hi)
        && entries.contains_pair(tail[i].0, tail[i].1) by {
        assert(in_range(l1[p + i].0, lo1, hi));
        if i > 0 {
            assert(lex_lt(l1[p].0, l1[p + i].0));
            lemma_lex_le_lt(lo2, l1[p].0, l1[p + i].0);
        }
    }
    assert forall|k: Seq<u8>| #[trigger]
        entries.dom().contains(k) && in_range(k, lo2, hi) implies has_key(tail, k) by {
        lemma_lex_le_transitive(lo1, lo2, k);
        assert(has_key(l1, k));
        let i = choose|i: int| 0 <= i < l1.len() && (#[trigger] l1[i]).0 == k;
        if i < p {
            assert(lex_lt(l1[i].0, lo2));
            lemma_lex_le_lt(lo2, k, lo2);
            lemma_lex_irreflexive(lo2);
        }
        assert(tail[i - p].0 == k);
    }
    lemma_listing_unique(entries, lo2, hi, tail, l2);
}

} // verus!
