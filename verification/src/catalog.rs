//! Sorted catalogs, and what a search for a key in a single catalog returns.

use crate::order::{key_le, key_lt, le, total_order};
use vstd::prelude::*;

verus! {

/// No element of `catalog` is greater than a later one.
pub open spec fn sorted<T: Ord>(catalog: Seq<T>) -> bool {
    forall|i: int, j: int|
        0 <= i <= j < catalog.len() ==> key_le(#[trigger] catalog[i], #[trigger] catalog[j])
}

/// The catalogs as sequences of their elements.
pub open spec fn catalog_views<T>(catalogs: Seq<Vec<T>>) -> Seq<Seq<T>> {
    catalogs.map_values(|catalog: Vec<T>| catalog@)
}

/// The number of nodes in the list that is built for catalog `i`: one sentinel, the elements
/// of the catalog, and a copy of every second node of the list of the next catalog.
pub open spec fn level_len<T>(catalogs: Seq<Seq<T>>, i: int) -> nat
    decreases catalogs.len() - i,
{
    if i < 0 || i >= catalogs.len() {
        0
    } else {
        catalogs[i].len() + level_len(catalogs, i + 1) / 2 + 1
    }
}

/// The number of elements of the catalogs from catalog `i` on.
pub open spec fn elements_from<T>(catalogs: Seq<Seq<T>>, i: int) -> nat
    decreases catalogs.len() - i,
{
    if i < 0 || i >= catalogs.len() {
        0
    } else {
        catalogs[i].len() + elements_from(catalogs, i + 1)
    }
}

/// The number of nodes of the lists from that of catalog `i` on.
pub open spec fn nodes_from<T>(catalogs: Seq<Seq<T>>, i: int) -> nat
    decreases catalogs.len() - i,
{
    if i < 0 || i >= catalogs.len() {
        0
    } else {
        level_len(catalogs, i) + nodes_from(catalogs, i + 1)
    }
}

/// The lists stay linear in the input: since each takes over only half of the next, all of
/// them together hold at most two nodes for each element and two more for each catalog.
pub proof fn lemma_nodes_linear<T>(catalogs: Seq<Seq<T>>, i: int)
    requires
        0 <= i <= catalogs.len(),
    ensures
        nodes_from(catalogs, i) + level_len(catalogs, i) <= 2 * elements_from(catalogs, i) + 2 * (
        catalogs.len() - i),
    decreases catalogs.len() - i,
{
    if i < catalogs.len() {
        lemma_nodes_linear(catalogs, i + 1);
    }
}

/// The index of the last element of `catalog` that is not greater than `key`, if there is one.
pub open spec fn predecessor<T: Ord>(catalog: Seq<T>, key: T) -> Option<usize>
    decreases catalog.len(),
{
    if catalog.len() == 0 {
        None
    } else if key_le(catalog.last(), key) {
        Some((catalog.len() - 1) as usize)
    } else {
        predecessor(catalog.drop_last(), key)
    }
}

/// For each of `catalogs`, the [`predecessor`] of `key` in it.
pub open spec fn predecessors<T: Ord>(catalogs: Seq<Seq<T>>, key: T) -> Seq<Option<usize>> {
    Seq::new(catalogs.len(), |i: int| predecessor(catalogs[i], key))
}

/// `found` names the last element of `catalog` that is not greater than `key`.
pub open spec fn is_predecessor<T: Ord>(catalog: Seq<T>, key: T, found: Option<usize>) -> bool {
    match found {
        Some(p) => {
            &&& p < catalog.len()
            &&& key_le(catalog[p as int], key)
            &&& forall|i: int| p < i < catalog.len() ==> key_lt(key, #[trigger] catalog[i])
        },
        None => forall|i: int| 0 <= i < catalog.len() ==> key_lt(key, #[trigger] catalog[i]),
    }
}

/// An answer as a number: -1 for "no element", else the index.
pub open spec fn position(found: Option<usize>) -> int {
    match found {
        Some(p) => p as int,
        None => -1,
    }
}

/// The index of the first element of `catalog` that is not less than `key`, or the length of
/// `catalog` if every element is less.
pub open spec fn lower_bound<T: Ord>(catalog: Seq<T>, key: T) -> nat
    decreases catalog.len(),
{
    if catalog.len() == 0 {
        0
    } else if key_lt(catalog.first(), key) {
        1 + lower_bound(catalog.drop_first(), key)
    } else {
        0
    }
}

/// `found` is the index of the first element of `catalog` that is not less than `key`.
pub open spec fn is_lower_bound<T: Ord>(catalog: Seq<T>, key: T, found: nat) -> bool {
    &&& found <= catalog.len()
    &&& forall|i: int| 0 <= i < found ==> key_lt(#[trigger] catalog[i], key)
    &&& found < catalog.len() ==> key_le(key, catalog[found as int])
}

/// [`predecessor`] is the one answer that [`is_predecessor`] accepts.
pub proof fn lemma_predecessor_unique<T: Ord>(catalog: Seq<T>, key: T, found: Option<usize>)
    requires
        catalog.len() <= usize::MAX,
    ensures
        is_predecessor(catalog, key, found) <==> found == predecessor(catalog, key),
    decreases catalog.len(),
{
    if catalog.len() > 0 {
        let rest = catalog.drop_last();
        lemma_predecessor_unique(rest, key, found);
        lemma_predecessor_unique(rest, key, predecessor(rest, key));
        if key_le(catalog.last(), key) {
            if is_predecessor(catalog, key, found) {
                if found is None {
                    assert(key_lt(key, catalog[catalog.len() - 1]));
                } else if found->0 < catalog.len() - 1 {
                    assert(key_lt(key, catalog[catalog.len() - 1]));
                }
            }
        } else {
            if is_predecessor(catalog, key, found) {
                assert(is_predecessor(rest, key, found)) by {
                    if found is Some {
                        assert(rest[found->0 as int] == catalog[found->0 as int]);
                    }
                    assert forall|i: int| 0 <= i < rest.len() implies rest[i] == catalog[i] by {}
                }
            }
            if found == predecessor(rest, key) {
                assert(is_predecessor(rest, key, found));
                assert(is_predecessor(catalog, key, found)) by {
                    assert forall|i: int| 0 <= i < rest.len() implies rest[i] == catalog[i] by {}
                    assert forall|i: int| position(found) < i < catalog.len() implies key_lt(
                        key,
                        #[trigger] catalog[i],
                    ) by {
                        if i < rest.len() {
                            assert(key_lt(key, rest[i]));
                        }
                    }
                }
            }
        }
    }
}

/// [`lower_bound`] is the one answer that [`is_lower_bound`] accepts.
pub proof fn lemma_lower_bound_unique<T: Ord>(catalog: Seq<T>, key: T, found: nat)
    ensures
        is_lower_bound(catalog, key, found) <==> found == lower_bound(catalog, key),
    decreases catalog.len(),
{
    if catalog.len() > 0 {
        let rest = catalog.drop_first();
        assert forall|i: int| 0 <= i < rest.len() implies rest[i] == catalog[i + 1] by {}
        if key_lt(catalog.first(), key) {
            if is_lower_bound(catalog, key, found) {
                assert(found > 0) by {
                    if found == 0 {
                        assert(key_le(key, catalog[0]));
                    }
                }
                assert(is_lower_bound(rest, key, (found - 1) as nat)) by {
                    assert forall|i: int| 0 <= i < found - 1 implies key_lt(
                        #[trigger] rest[i],
                        key,
                    ) by {
                        assert(key_lt(catalog[i + 1], key));
                    }
                }
                lemma_lower_bound_unique(rest, key, (found - 1) as nat);
            }
            if found == lower_bound(catalog, key) {
                lemma_lower_bound_unique(rest, key, (found - 1) as nat);
                assert forall|i: int| 0 <= i < found implies key_lt(#[trigger] catalog[i], key) by {
                    if i > 0 {
                        assert(key_lt(rest[i - 1], key));
                    }
                }
            }
        } else {
            if is_lower_bound(catalog, key, found) && found > 0 {
                assert(key_lt(catalog[0], key));
            }
        }
    }
}

/// As the key grows, the answer of [`predecessor`] stays or moves to the right.
pub proof fn lemma_predecessor_monotonic<T: Ord>(catalog: Seq<T>, low: T, high: T)
    requires
        total_order::<T>(),
        catalog.len() <= usize::MAX,
        key_le(low, high),
    ensures
        position(predecessor(catalog, low)) <= position(predecessor(catalog, high)),
{
    let at_low = predecessor(catalog, low);
    let at_high = predecessor(catalog, high);
    lemma_predecessor_unique(catalog, low, at_low);
    lemma_predecessor_unique(catalog, high, at_high);
    if let Some(p) = at_low {
        assert(key_le(catalog[p as int], high));
        if position(at_high) < p {
            assert(key_lt(high, catalog[p as int]));
        }
    }
}

/// A key that is less than every element has no predecessor, so in particular no key has one
/// in an empty catalog; a key that is not less than the last element has the last element as
/// its predecessor.
pub proof fn lemma_predecessor_boundaries<T: Ord>(catalog: Seq<T>, key: T)
    requires
        catalog.len() <= usize::MAX,
    ensures
        catalog.len() == 0 ==> predecessor(catalog, key) is None,
        (forall|i: int| 0 <= i < catalog.len() ==> key_lt(key, #[trigger] catalog[i]))
            ==> predecessor(catalog, key) is None,
        catalog.len() > 0 && key_le(catalog.last(), key) ==> predecessor(catalog, key) == Some(
            (catalog.len() - 1) as usize,
        ),
{
    lemma_predecessor_unique(catalog, key, None);
}

/// As the key grows, the answer of [`lower_bound`] stays or moves to the right.
pub proof fn lemma_lower_bound_monotonic<T: Ord>(catalog: Seq<T>, low: T, high: T)
    requires
        total_order::<T>(),
        key_le(low, high),
    ensures
        lower_bound(catalog, low) <= lower_bound(catalog, high),
{
    let at_low = lower_bound(catalog, low);
    let at_high = lower_bound(catalog, high);
    lemma_lower_bound_unique(catalog, low, at_low);
    lemma_lower_bound_unique(catalog, high, at_high);
    if at_high < at_low {
        assert(key_lt(catalog[at_high as int], low));
        assert(key_le(high, catalog[at_high as int]));
    }
}

/// A key that is not greater than the first element has lower bound 0, so in particular every
/// key has it in an empty catalog; a key that is greater than every element has the length
/// of the catalog as its lower bound.
pub proof fn lemma_lower_bound_boundaries<T: Ord>(catalog: Seq<T>, key: T)
    ensures
        catalog.len() == 0 ==> lower_bound(catalog, key) == 0,
        catalog.len() > 0 && key_le(key, catalog.first()) ==> lower_bound(catalog, key) == 0,
        (forall|i: int| 0 <= i < catalog.len() ==> key_lt(#[trigger] catalog[i], key))
            ==> lower_bound(catalog, key) == catalog.len(),
{
    lemma_lower_bound_unique(catalog, key, catalog.len());
}

/// Searching many catalogs at once gives, for each catalog, what a search in that catalog
/// alone gives: the last element that is not greater than the key, and no answer for a
/// catalog without such an element, an empty catalog among them.
pub proof fn lemma_predecessors_each<T: Ord>(catalogs: Seq<Seq<T>>, key: T, i: int)
    requires
        0 <= i < catalogs.len(),
        catalogs[i].len() <= usize::MAX,
    ensures
        predecessors(catalogs, key).len() == catalogs.len(),
        is_predecessor(catalogs[i], key, predecessors(catalogs, key)[i]),
        catalogs[i].len() == 0 ==> predecessors(catalogs, key)[i] is None,
{
    lemma_predecessor_unique(catalogs[i], key, predecessor(catalogs[i], key));
}

/// As the key grows, no answer of a search in many catalogs moves to the left.
pub proof fn lemma_predecessors_monotonic<T: Ord>(catalogs: Seq<Seq<T>>, low: T, high: T, i: int)
    requires
        total_order::<T>(),
        key_le(low, high),
        0 <= i < catalogs.len(),
        catalogs[i].len() <= usize::MAX,
    ensures
        position(predecessors(catalogs, low)[i]) <= position(predecessors(catalogs, high)[i]),
{
    lemma_predecessor_monotonic(catalogs[i], low, high);
}

/// In a sorted catalog, the lower bound of a key is the place with only smaller elements
/// before it and no smaller element at it.
pub proof fn lemma_lower_bound_sorted<T: Ord>(catalog: Seq<T>, key: T, at: int)
    requires
        total_order::<T>(),
        sorted(catalog),
        0 <= at <= catalog.len(),
        at > 0 ==> key_lt(catalog[at - 1], key),
        at < catalog.len() ==> key_le(key, catalog[at]),
    ensures
        lower_bound(catalog, key) == at,
{
    assert forall|i: int| 0 <= i < at implies key_lt(#[trigger] catalog[i], key) by {
        assert(key_le(catalog[i], catalog[at - 1]));
    }
    lemma_lower_bound_unique(catalog, key, at as nat);
}

/// In a sorted catalog, the predecessor of a key is the element that is not greater than the
/// key and is followed by a greater one or by none; `at` is -1 where the first element is
/// greater already.
pub proof fn lemma_predecessor_sorted<T: Ord>(catalog: Seq<T>, key: T, at: int)
    requires
        total_order::<T>(),
        sorted(catalog),
        catalog.len() <= usize::MAX,
        -1 <= at < catalog.len(),
        at >= 0 ==> key_le(catalog[at], key),
        at + 1 < catalog.len() ==> key_lt(key, catalog[at + 1]),
    ensures
        position(predecessor(catalog, key)) == at,
{
    let found = if at >= 0 {
        Some(at as usize)
    } else {
        None
    };
    assert forall|i: int| at < i < catalog.len() implies key_lt(key, #[trigger] catalog[i]) by {
        assert(key_le(catalog[at + 1], catalog[i]));
    }
    lemma_predecessor_unique(catalog, key, found);
}

/// Whether `catalog` is sorted.
pub fn is_sorted<T: Ord>(catalog: &[T]) -> (r: bool)
    requires
        total_order::<T>(),
    ensures
        r == sorted(catalog@),
{
    let mut next: usize = 1;
    while next < catalog.len()
        invariant
            total_order::<T>(),
            next >= 1,
            forall|i: int, j: int|
                0 <= i <= j < next && j < catalog.len() ==> key_le(
                    #[trigger] catalog@[i],
                    #[trigger] catalog@[j],
                ),
        decreases catalog.len() - next,
    {
        if !le(&catalog[next - 1], &catalog[next]) {
            return false;
        }
        proof {
            assert forall|i: int, j: int| 0 <= i <= j < next + 1 implies key_le(
                #[trigger] catalog@[i],
                #[trigger] catalog@[j],
            ) by {
                if j == next && i < next {
                    assert(key_le(catalog@[i], catalog@[next - 1]));
                }
            }
        }
        next += 1;
    }
    true
}

} // verus!
