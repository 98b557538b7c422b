//! The cascading index: one augmented level per catalog, each holding a copy of every second
//! node of the level below it.

use crate::catalog::{catalog_views, level_len, predecessors, sorted};
use crate::level::{
    bridges, building, is_cursor, is_descent, is_level, is_linked, lemma_cursor_answer,
    lemma_cursor_descent, lemma_descent_cursor, lemma_push_real, node_in_place,
    promotes_following, value_at,
};
use crate::node::{links_descend, merge_catalog_with_augmented, Node};
use crate::order::{key_le, key_lt, le, total_order};
use vstd::prelude::*;

verus! {

/// A search index over a fixed list of sorted catalogs.
#[derive(Debug)]
pub struct FractionalCascading<'a, T: Ord> {
    augmented_catalogs: Vec<Vec<Node<'a, T>>>,
}

/// The number of nodes of `level` that are not greater than `key`, the sentinel among them.
fn partition_point<'a, T: Ord>(level: &[Node<'a, T>], key: &T) -> (r: usize)
    requires
        total_order::<T>(),
        level.len() >= 1,
        is_level(level@, level@[0].catalog()),
    ensures
        1 <= r <= level.len(),
        is_cursor(level@, *key, r - 1),
{
    let mut low: usize = 1;
    let mut high: usize = level.len();
    while low < high
        invariant
            total_order::<T>(),
            level.len() >= 1,
            is_level(level@, level@[0].catalog()),
            1 <= low <= high <= level.len(),
            forall|j: int| 1 <= j < low ==> key_le(#[trigger] value_at(level@, j), *key),
            forall|j: int| high <= j < level.len() ==> key_lt(*key, #[trigger] value_at(level@, j)),
        decreases high - low,
    {
        let mid = low + (high - low) / 2;
        assert(node_in_place(level@, level@[0].catalog(), mid as int));
        let not_greater = match level[mid].value(&level[0]) {
            Some(value) => le(value, key),
            None => true,
        };
        if not_greater {
            assert forall|j: int| 1 <= j < mid + 1 implies key_le(
                #[trigger] value_at(level@, j),
                *key,
            ) by {
                assert(key_le(value_at(level@, j), value_at(level@, mid as int)));
            }
            low = mid + 1;
        } else {
            assert forall|j: int| mid <= j < level.len() implies key_lt(
                *key,
                #[trigger] value_at(level@, j),
            ) by {
                assert(key_le(value_at(level@, mid as int), value_at(level@, j)));
            }
            high = mid;
        }
    }
    low
}

impl<'a, T: Ord> FractionalCascading<'a, T> {
    /// The catalogs that the index answers for, in the order in which they were given.
    pub closed spec fn catalogs(&self) -> Seq<Seq<T>> {
        Seq::new(
            self.augmented_catalogs.len() as nat,
            |i: int| self.augmented_catalogs[i]@[0].catalog(),
        )
    }

    /// The number of nodes of each level, in the order of the catalogs.
    pub closed spec fn level_lens(&self) -> Seq<nat> {
        Seq::new(
            self.augmented_catalogs.len() as nat,
            |i: int| self.augmented_catalogs[i].len() as nat,
        )
    }

    /// Every level is the augmented level of its sorted catalog and is linked to the level
    /// below it; the last level holds no copies.
    #[verifier::type_invariant]
    spec fn wf(&self) -> bool {
        &&& total_order::<T>()
        &&& self.augmented_catalogs.len() > 0 ==> is_linked(
            self.augmented_catalogs[self.augmented_catalogs.len() - 1]@,
            Seq::empty(),
        )
        &&& forall|i: int|
            0 <= i < self.augmented_catalogs.len() ==> {
                &&& sorted(#[trigger] self.catalogs()[i])
                &&& is_level(self.augmented_catalogs[i]@, self.catalogs()[i])
            }
        &&& forall|i: int|
            0 <= i && i + 1 < self.augmented_catalogs.len() ==> is_linked(
                (#[trigger] self.augmented_catalogs[i])@,
                self.augmented_catalogs[i + 1]@,
            )
    }

    /// Builds the index over `catalogs`, from the last catalog up to the first.
    pub fn new(catalogs: &'a [Vec<T>]) -> (index: Self)
        requires
            total_order::<T>(),
            forall|i: int| 0 <= i < catalogs.len() ==> sorted((#[trigger] catalogs[i])@),
        ensures
            index.catalogs() == catalog_views(catalogs@),
            index.level_lens().len() == catalogs.len(),
            forall|i: int|
                0 <= i < catalogs.len() ==> #[trigger] index.level_lens()[i] == level_len(
                    catalog_views(catalogs@),
                    i,
                ),
    {
        let catalogs_len = catalogs.len();
        let mut augmented_catalogs: Vec<Vec<Node<'a, T>>> = Vec::with_capacity(catalogs_len);

        if catalogs_len == 0 {
            let index = Self { augmented_catalogs };
            assert(index.catalogs() =~= catalog_views(catalogs@));
            return index;
        }
        let ghost views = catalog_views(catalogs@);
        let last = catalogs[catalogs_len - 1].as_slice();
        let mut augmented_catalog = Vec::with_capacity(last.len().saturating_add(1));
        augmented_catalog.push(Node::fake(last));
        let mut taken: usize = 0;
        while taken < last.len()
            invariant
                total_order::<T>(),
                sorted(last@),
                building(augmented_catalog@, last@, Seq::empty(), taken as int, taken as int, 0),
                augmented_catalog.len() == taken + 1,
            decreases last.len() - taken,
        {
            let own = Node::real_at(taken, 0);
            proof {
                lemma_push_real(
                    augmented_catalog@,
                    last@,
                    Seq::empty(),
                    taken as int,
                    taken as int,
                    0,
                    own,
                );
            }
            augmented_catalog.push(own);
            taken += 1;
        }
        proof {
            assert forall|s: int|
                0 <= s < augmented_catalog.len() && !((#[trigger] augmented_catalog@[s]).data
                    is Real) implies promotes_following(augmented_catalog@, Seq::empty(), s) by {
                if s >= 1 {
                    assert(node_in_place(augmented_catalog@, last@, s));
                    assert(bridges(augmented_catalog@, Seq::empty(), s));
                }
            }
            assert forall|j: int|
                1 <= j < augmented_catalog.len() && (#[trigger] augmented_catalog@[j]).data
                    is Synthetic implies bridges(augmented_catalog@, Seq::empty(), j) by {}
            assert(level_len(views, catalogs_len - 1) == last.len() + 1) by {
                assert(level_len(views, catalogs_len as int) == 0);
            }
        }
        augmented_catalogs.push(augmented_catalog);

        let mut remaining = catalogs_len - 1;
        while remaining > 0
            invariant
                total_order::<T>(),
                views == catalog_views(catalogs@),
                is_linked(augmented_catalogs[0]@, Seq::empty()),
                forall|j: int|
                    0 <= j < augmented_catalogs.len() ==> (#[trigger] augmented_catalogs[j]).len()
                        == level_len(views, catalogs_len - 1 - j),
                forall|i: int| 0 <= i < catalogs.len() ==> sorted((#[trigger] catalogs[i])@),
                catalogs_len == catalogs.len(),
                remaining < catalogs_len,
                augmented_catalogs.len() == catalogs_len - remaining,
                forall|j: int|
                    0 <= j < augmented_catalogs.len() ==> is_level(
                        (#[trigger] augmented_catalogs[j])@,
                        catalogs[catalogs_len - 1 - j]@,
                    ),
                forall|j: int|
                    1 <= j < augmented_catalogs.len() ==> is_linked(
                        (#[trigger] augmented_catalogs[j])@,
                        augmented_catalogs[j - 1]@,
                    ),
            decreases remaining,
        {
            remaining -= 1;
            let below = &augmented_catalogs[augmented_catalogs.len() - 1];
            let merged = merge_catalog_with_augmented(catalogs[remaining].as_slice(), below);
            assert(merged.len() == level_len(views, remaining as int)) by {
                assert(below.len() == level_len(views, remaining + 1));
                assert(views[remaining as int] == catalogs[remaining as int]@);
            }
            augmented_catalogs.push(merged);
        }

        let ghost built = augmented_catalogs@;
        assert(is_linked(built[0]@, Seq::empty()));
        let mut ordered: Vec<Vec<Node<'a, T>>> = Vec::with_capacity(catalogs_len);
        while augmented_catalogs.len() > 0
            invariant
                catalogs_len == catalogs.len(),
                built.len() == catalogs_len,
                augmented_catalogs.len() + ordered.len() == catalogs_len,
                augmented_catalogs@ == built.take(augmented_catalogs.len() as int),
                forall|i: int|
                    0 <= i < ordered.len() ==> (#[trigger] ordered[i]) == built[catalogs_len - 1
                        - i],
            decreases augmented_catalogs.len(),
        {
            match augmented_catalogs.pop() {
                Some(level) => ordered.push(level),
                None => {},
            }
        }

        proof {
            let index = Self { augmented_catalogs: ordered };
            assert(index.catalogs() =~= catalog_views(catalogs@)) by {
                assert forall|i: int| 0 <= i < catalogs_len implies index.catalogs()[i]
                    == catalog_views(catalogs@)[i] by {
                    assert(is_level(built[catalogs_len - 1 - i]@, catalogs[i]@));
                }
            }
            assert forall|i: int| 0 <= i < index.augmented_catalogs.len() implies {
                &&& sorted(#[trigger] index.catalogs()[i])
                &&& is_level(index.augmented_catalogs[i]@, index.catalogs()[i])
            } by {
                assert(is_level(built[catalogs_len - 1 - i]@, catalogs[i]@));
            }
            assert forall|i: int|
                0 <= i && i + 1 < index.augmented_catalogs.len() implies is_linked(
                (#[trigger] index.augmented_catalogs[i])@,
                index.augmented_catalogs[i + 1]@,
            ) by {
                assert(is_linked(built[catalogs_len - 1 - i]@, built[catalogs_len - 2 - i]@));
            }
            assert(index.augmented_catalogs[catalogs_len - 1] == built[0]);
            assert forall|i: int| 0 <= i < catalogs.len() implies #[trigger] index.level_lens()[i]
                == level_len(views, i) by {
                assert(built[catalogs_len - 1 - i].len() == level_len(
                    views,
                    catalogs_len - 1 - (catalogs_len - 1 - i),
                ));
            }
        }
        Self { augmented_catalogs: ordered }
    }

    /// For each catalog, the index of the last element that is not greater than `key`, or
    /// `None` where every element is greater: one binary search in the first level, then a
    /// step over a bridge and at most one step to the right in each further level.
    pub fn search(&self, key: &T) -> (result: Vec<Option<usize>>)
        ensures
            result@ == predecessors(self.catalogs(), *key),
    {
        proof {
            use_type_invariant(self);
        }
        if self.augmented_catalogs.is_empty() {
            let result = Vec::with_capacity(0);
            assert(result@ =~= predecessors(self.catalogs(), *key));
            return result;
        }
        let catalogs_len = self.augmented_catalogs.len();
        let mut result = Vec::with_capacity(catalogs_len);

        let first = &self.augmented_catalogs[0];
        assert(sorted(self.catalogs()[0]));
        let mut index = partition_point(first.as_slice(), key) - 1;
        let mut node = &first[index];
        proof {
            lemma_cursor_answer(first@, self.catalogs()[0], *key, index as int);
            lemma_cursor_descent(first@, self.catalogs()[0], *key, index as int);
            lemma_level_links_descend(first@, self.catalogs()[0]);
            if index >= 1 {
                assert(node_in_place(first@, self.catalogs()[0], index as int));
            }
        }
        result.push(node.closest_real_index(first.as_slice()));

        if node.is_real() {
            index = node.prev;
            node = &first[index];
        }
        for i in 1..catalogs_len
            invariant
                self.wf(),
                catalogs_len == self.augmented_catalogs.len(),
                result.len() == i,
                forall|m: int|
                    0 <= m < i ==> #[trigger] result[m] == predecessors(self.catalogs(), *key)[m],
                is_descent(self.augmented_catalogs[i - 1]@, *key, index as int),
                *node == self.augmented_catalogs[i - 1]@[index as int],
        {
            let level = &self.augmented_catalogs[i];
            proof {
                assert(sorted(self.catalogs()[i - 1]));
                assert(sorted(self.catalogs()[i as int]));
                assert(is_linked((self.augmented_catalogs[i - 1])@, self.augmented_catalogs[i - 1 + 1]@));
                lemma_descent_cursor(
                    self.augmented_catalogs[i - 1]@,
                    level@,
                    self.catalogs()[i - 1],
                    self.catalogs()[i as int],
                    *key,
                    index as int,
                );
                lemma_level_links_descend(level@, self.catalogs()[i as int]);
                assert(node.bridge < level.len());
            }
            // go to the next catalog
            index = node.bridge;
            node = &level[index];

            // try to move to the next node
            if index + 1 < level.len() {
                let next_node = &level[index + 1];
                assert(node_in_place(level@, self.catalogs()[i as int], index + 1));
                let not_greater = match next_node.value(&level[0]) {
                    Some(value) => le(value, key),
                    None => true,
                };
                if not_greater {
                    index = index + 1;
                    node = next_node;
                }
            }
            proof {
                lemma_cursor_answer(level@, self.catalogs()[i as int], *key, index as int);
                lemma_cursor_descent(level@, self.catalogs()[i as int], *key, index as int);
                if index >= 1 {
                    assert(node_in_place(level@, self.catalogs()[i as int], index as int));
                }
            }
            result.push(node.closest_real_index(level.as_slice()));

            if node.is_real() {
                index = node.prev;
                node = &level[index];
            }
        }
        assert(result@ =~= predecessors(self.catalogs(), *key));
        result
    }
}

/// In a level, `prev` of every node names an earlier node.
proof fn lemma_level_links_descend<'a, T: Ord>(level: Seq<Node<'a, T>>, catalog: Seq<T>)
    requires
        is_level(level, catalog),
    ensures
        links_descend(level),
{
    assert forall|j: int| 0 <= j < level.len() && (#[trigger] level[j]).data is Synthetic implies level[j].prev < j by {
        assert(node_in_place(level, catalog, j));
    }
}

} // verus!
