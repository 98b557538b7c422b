//! What makes a sequence of nodes the augmented level of a catalog, and what links one level
//! to the next.

use crate::catalog::{is_predecessor, lemma_predecessor_unique, predecessor, sorted};
use crate::node::{Node, NodeData};
use crate::order::{key_le, key_lt, total_order};
use vstd::prelude::*;

verus! {

/// The element that node `j` of `level` stands for. Node 0 is the sentinel and stands for
/// none.
pub open spec fn value_at<'a, T>(level: Seq<Node<'a, T>>, j: int) -> T {
    match level[j].data {
        NodeData::Real(index) => level[0].catalog()[index as int],
        NodeData::Synthetic(data) => *data,
        NodeData::Fake(_) => arbitrary(),
    }
}

/// How many elements of the level's catalog stand at or before node `j`.
pub open spec fn reals_through<'a, T>(level: Seq<Node<'a, T>>, j: int) -> int {
    match level[j].spec_closest_real_index(level) {
        Some(index) => index + 1,
        None => 0,
    }
}

/// Node `j >= 1` of `level` is in its place: it is no sentinel; `prev` of a real node names
/// the nearest node before it that is not real, `prev` of a synthetic node the nearest that
/// is real, or the sentinel; real nodes count through the catalog; the node's value is not
/// less than the catalog elements before it, greater than them where the node is synthetic,
/// and not greater than the catalog elements after it.
pub open spec fn node_in_place<'a, T: Ord>(level: Seq<Node<'a, T>>, catalog: Seq<T>, j: int) -> bool {
    let node = level[j];
    let before = reals_through(level, j - 1);
    let through = reals_through(level, j);
    &&& !(node.data is Fake)
    &&& node.prev < j
    &&& node.data matches NodeData::Real(index) ==> {
        &&& index == before
        &&& index < catalog.len()
        &&& node.bridge == 0
        &&& !(level[node.prev as int].data is Real)
        &&& forall|k: int| node.prev < k < j ==> (#[trigger] level[k]).data is Real
    }
    &&& node.data is Synthetic ==> {
        &&& through == before
        &&& !(level[node.prev as int].data is Synthetic)
        &&& before > 0 ==> key_lt(catalog[before - 1], value_at(level, j))
    }
    &&& through > 0 ==> key_le(catalog[through - 1], value_at(level, j))
    &&& before < catalog.len() ==> key_le(value_at(level, j), catalog[before])
}

/// The values of the nodes after the sentinel never decrease.
pub open spec fn values_sorted<'a, T: Ord>(level: Seq<Node<'a, T>>) -> bool {
    forall|i: int, j: int|
        1 <= i <= j < level.len() ==> key_le(
            #[trigger] value_at(level, i),
            #[trigger] value_at(level, j),
        )
}

/// `level` starts with the sentinel of `catalog`.
pub open spec fn starts_level<'a, T>(level: Seq<Node<'a, T>>, catalog: Seq<T>) -> bool {
    &&& level.len() >= 1
    &&& level[0].data is Fake
    &&& level[0].catalog() == catalog
    &&& catalog.len() <= usize::MAX
    &&& level[0].prev == 0
    &&& level[0].bridge == 0
}

/// `level` is an augmented level of `catalog`: the sentinel, then every element of the
/// catalog as a real node, in order, with synthetic nodes between them, sorted by value.
pub open spec fn is_level<'a, T: Ord>(level: Seq<Node<'a, T>>, catalog: Seq<T>) -> bool {
    &&& starts_level(level, catalog)
    &&& forall|j: int| 1 <= j < level.len() ==> #[trigger] node_in_place(level, catalog, j)
    &&& values_sorted(level)
    &&& reals_through(level, level.len() - 1) == catalog.len()
}

/// Node `j` of `level` is the promoted copy of node `b` of the next level.
pub open spec fn is_copy<'a, T>(level: Seq<Node<'a, T>>, j: int, b: int) -> bool {
    level[j].data is Synthetic && level[j].bridge == b
}

/// The node of the next level that is promoted next after the one that node `s` bridges to.
pub open spec fn following_bridge<'a, T>(level: Seq<Node<'a, T>>, s: int) -> int {
    if level[s].data is Fake {
        1
    } else {
        level[s].bridge + 2
    }
}

/// If the next level has a node to promote after the one that node `s` bridges to, its copy
/// is the first node after `s` that is not real; if it has none, every node after `s` is
/// real.
pub open spec fn promotes_following<'a, T>(
    level: Seq<Node<'a, T>>,
    next: Seq<Node<'a, T>>,
    s: int,
) -> bool {
    if following_bridge(level, s) < next.len() {
        exists|t: int|
            {
                &&& s < t < level.len()
                &&& #[trigger] is_copy(level, t, following_bridge(level, s))
                &&& forall|u: int| s < u < t ==> (#[trigger] level[u]).data is Real
            }
    } else {
        forall|u: int| s < u < level.len() ==> (#[trigger] level[u]).data is Real
    }
}

/// A synthetic node `j` of `level` bridges to a node of `next` after its sentinel and has
/// that node's value.
pub open spec fn bridges<'a, T>(level: Seq<Node<'a, T>>, next: Seq<Node<'a, T>>, j: int) -> bool {
    &&& 1 <= level[j].bridge < next.len()
    &&& value_at(level, j) == value_at(next, level[j].bridge as int)
}

/// `level` holds a copy of every second node of `next`, starting with node 1, in their
/// order and nothing else that is not real, and each copy bridges to the node it was made
/// from.
pub open spec fn is_linked<'a, T>(level: Seq<Node<'a, T>>, next: Seq<Node<'a, T>>) -> bool {
    &&& forall|j: int|
        1 <= j < level.len() && (#[trigger] level[j]).data is Synthetic ==> bridges(level, next, j)
    &&& forall|s: int|
        0 <= s < level.len() && !((#[trigger] level[s]).data is Real) ==> promotes_following(
            level,
            next,
            s,
        )
}

/// The state of a merge: `level` is what has been emitted so far of the augmented level of
/// `catalog` over `next`, `taken` elements of the catalog are in it, and the last real and
/// the last synthetic node (the sentinel, where there is none yet) stand at `last_real` and
/// `last_synthetic`.
pub open spec fn building<'a, T: Ord>(
    level: Seq<Node<'a, T>>,
    catalog: Seq<T>,
    next: Seq<Node<'a, T>>,
    taken: int,
    last_real: int,
    last_synthetic: int,
) -> bool {
    &&& starts_level(level, catalog)
    &&& forall|j: int| 1 <= j < level.len() ==> #[trigger] node_in_place(level, catalog, j)
    &&& values_sorted(level)
    &&& 0 <= taken <= catalog.len()
    &&& reals_through(level, level.len() - 1) == taken
    &&& taken < catalog.len() && level.len() > 1 ==> key_le(
        value_at(level, level.len() - 1),
        catalog[taken],
    )
    &&& 0 <= last_real < level.len()
    &&& !(level[last_real].data is Synthetic)
    &&& reals_through(level, last_real) == taken
    &&& 0 <= last_synthetic < level.len()
    &&& !(level[last_synthetic].data is Real)
    &&& forall|k: int| last_synthetic < k < level.len() ==> (#[trigger] level[k]).data is Real
    &&& forall|j: int|
        1 <= j < level.len() && (#[trigger] level[j]).data is Synthetic ==> bridges(level, next, j)
    &&& forall|s: int|
        0 <= s < last_synthetic && !((#[trigger] level[s]).data is Real) ==> {
            &&& following_bridge(level, s) < next.len()
            &&& promotes_following(level, next, s)
        }
}

/// Emitting a node leaves the nodes before it in place.
pub(crate) proof fn lemma_push_keeps<'a, T: Ord>(
    level: Seq<Node<'a, T>>,
    catalog: Seq<T>,
    next: Seq<Node<'a, T>>,
    node: Node<'a, T>,
)
    requires
        starts_level(level, catalog),
        forall|j: int| 1 <= j < level.len() ==> #[trigger] node_in_place(level, catalog, j),
    ensures
        starts_level(level.push(node), catalog),
        forall|j: int|
            0 <= j < level.len() ==> #[trigger] value_at(level.push(node), j) == value_at(level, j),
        forall|j: int|
            0 <= j < level.len() ==> #[trigger] reals_through(level.push(node), j)
                == reals_through(level, j),
        forall|j: int|
            1 <= j < level.len() ==> #[trigger] node_in_place(level.push(node), catalog, j),
        forall|j: int|
            1 <= j < level.len() && bridges(level, next, j) ==> #[trigger] bridges(
                level.push(node),
                next,
                j,
            ),
        forall|s: int|
            0 <= s < level.len() && following_bridge(level, s) < next.len() && promotes_following(
                level,
                next,
                s,
            ) ==> #[trigger] promotes_following(level.push(node), next, s),
{
    let grown = level.push(node);
    assert forall|j: int| 0 <= j < level.len() implies #[trigger] reals_through(grown, j)
        == reals_through(level, j) by {
        if j >= 1 {
            assert(node_in_place(level, catalog, j));
        }
    }
    assert forall|j: int| 1 <= j < level.len() implies #[trigger] node_in_place(
        grown,
        catalog,
        j,
    ) by {
        assert(node_in_place(level, catalog, j));
        assert(reals_through(grown, j) == reals_through(level, j));
        assert(reals_through(grown, j - 1) == reals_through(level, j - 1));
        assert(value_at(grown, j) == value_at(level, j));
    }
    assert forall|s: int|
        0 <= s < level.len() && following_bridge(level, s) < next.len() && promotes_following(
            level,
            next,
            s,
        ) implies #[trigger] promotes_following(grown, next, s) by {
        let b = following_bridge(level, s);
        assert(following_bridge(grown, s) == b);
        let t = choose|t: int|
            {
                &&& s < t < level.len()
                &&& #[trigger] is_copy(level, t, b)
                &&& forall|u: int| s < u < t ==> (#[trigger] level[u]).data is Real
            };
        assert(is_copy(grown, t, b));
        assert forall|u: int| s < u < t implies (#[trigger] grown[u]).data is Real by {
            assert(level[u].data is Real);
        }
    }
}

/// Emitting a node whose value is not less than the last one keeps the values sorted.
pub(crate) proof fn lemma_push_sorted<'a, T: Ord>(level: Seq<Node<'a, T>>, node: Node<'a, T>)
    requires
        total_order::<T>(),
        level.len() >= 1,
        values_sorted(level),
        !(node.data is Fake),
        forall|j: int|
            0 <= j < level.len() ==> #[trigger] value_at(level.push(node), j) == value_at(level, j),
        level.len() > 1 ==> key_le(
            value_at(level, level.len() - 1),
            value_at(level.push(node), level.len() as int),
        ),
    ensures
        values_sorted(level.push(node)),
{
    let grown = level.push(node);
    let n = level.len() as int;
    assert forall|i: int, j: int| 1 <= i <= j < grown.len() implies key_le(
        #[trigger] value_at(grown, i),
        #[trigger] value_at(grown, j),
    ) by {
        assert(value_at(grown, i) == if i < n { value_at(level, i) } else { value_at(grown, n) });
        if j < n {
            assert(key_le(value_at(level, i), value_at(level, j)));
        } else if i < n {
            assert(key_le(value_at(level, i), value_at(level, n - 1)));
            assert(key_le(value_at(level, n - 1), value_at(grown, n)));
        } else {
            assert(key_le(value_at(grown, n), value_at(grown, n)));
        }
    }
}

/// Emitting the next element of the catalog as a real node is a step of the merge.
pub(crate) proof fn lemma_push_real<'a, T: Ord>(
    level: Seq<Node<'a, T>>,
    catalog: Seq<T>,
    next: Seq<Node<'a, T>>,
    taken: int,
    last_real: int,
    last_synthetic: int,
    node: Node<'a, T>,
)
    requires
        total_order::<T>(),
        sorted(catalog),
        building(level, catalog, next, taken, last_real, last_synthetic),
        taken < catalog.len(),
        node.data == NodeData::<T>::Real(taken as usize),
        node.prev == last_synthetic,
        node.bridge == 0,
    ensures
        building(
            level.push(node),
            catalog,
            next,
            taken + 1,
            level.len() as int,
            last_synthetic,
        ),
{
    let grown = level.push(node);
    let n = level.len() as int;
    lemma_push_keeps(level, catalog, next, node);
    assert(value_at(grown, n) == catalog[taken]);
    assert(key_le(catalog[taken], catalog[taken]));
    lemma_push_sorted(level, node);
    assert(reals_through(grown, n) == taken + 1);
    assert(reals_through(grown, n - 1) == taken);
    assert(node_in_place(grown, catalog, n)) by {
        assert forall|k: int| last_synthetic < k < n implies (#[trigger] grown[k]).data is Real by {
            assert(level[k].data is Real);
        }
    }
    assert forall|k: int| last_synthetic < k < grown.len() implies (#[trigger] grown[k]).data is Real by {
        if k < n {
            assert(level[k].data is Real);
        }
    }
    assert forall|j: int| 1 <= j < grown.len() && (#[trigger] grown[j]).data is Synthetic implies bridges(
        grown,
        next,
        j,
    ) by {
        assert(level[j].data is Synthetic);
        assert(bridges(level, next, j));
    }
    assert forall|s: int| 0 <= s < last_synthetic && !((#[trigger] grown[s]).data is Real) implies {
        &&& following_bridge(grown, s) < next.len()
        &&& promotes_following(grown, next, s)
    } by {
        assert(!(level[s].data is Real));
        assert(promotes_following(level, next, s));
    }
    if taken + 1 < catalog.len() {
        assert(key_le(catalog[taken], catalog[taken + 1]));
    }
}

/// Emitting the copy of the next node to promote as a synthetic node is a step of the merge.
pub(crate) proof fn lemma_push_synthetic<'a, T: Ord>(
    level: Seq<Node<'a, T>>,
    catalog: Seq<T>,
    next: Seq<Node<'a, T>>,
    taken: int,
    last_real: int,
    last_synthetic: int,
    node: Node<'a, T>,
)
    requires
        total_order::<T>(),
        building(level, catalog, next, taken, last_real, last_synthetic),
        node.data is Synthetic,
        node.prev == last_real,
        node.bridge == following_bridge(level, last_synthetic),
        1 <= node.bridge < next.len(),
        value_at(level.push(node), level.len() as int) == value_at(next, node.bridge as int),
        level.len() > 1 ==> key_le(
            value_at(level, level.len() - 1),
            value_at(next, node.bridge as int),
        ),
        taken > 0 ==> key_lt(catalog[taken - 1], value_at(next, node.bridge as int)),
        taken < catalog.len() ==> key_le(value_at(next, node.bridge as int), catalog[taken]),
    ensures
        building(level.push(node), catalog, next, taken, last_real, level.len() as int),
{
    let grown = level.push(node);
    let n = level.len() as int;
    lemma_push_keeps(level, catalog, next, node);
    lemma_push_sorted(level, node);
    assert(reals_through(grown, last_real) == taken);
    assert(reals_through(grown, n) == taken) by {
        assert(grown[last_real] == level[last_real]);
        if last_real >= 1 {
            assert(node_in_place(level, catalog, last_real));
        }
    }
    assert(reals_through(grown, n - 1) == taken);
    assert(node_in_place(grown, catalog, n)) by {
        if taken > 0 {
            assert(n > 1);
            assert(node_in_place(level, catalog, n - 1));
            assert(key_le(catalog[taken - 1], value_at(level, n - 1)));
        }
    }
    assert(bridges(grown, next, n));
    assert forall|j: int| 1 <= j < grown.len() && (#[trigger] grown[j]).data is Synthetic implies bridges(
        grown,
        next,
        j,
    ) by {
        if j < n {
            assert(level[j].data is Synthetic);
            assert(bridges(level, next, j));
        }
    }
    assert forall|s: int| 0 <= s < n && !((#[trigger] grown[s]).data is Real) implies {
        &&& following_bridge(grown, s) < next.len()
        &&& promotes_following(grown, next, s)
    } by {
        assert(!(level[s].data is Real));
        if s < last_synthetic {
            assert(promotes_following(level, next, s));
        } else {
            assert(s == last_synthetic) by {
                if s > last_synthetic {
                    assert(level[s].data is Real);
                }
            }
            assert(following_bridge(grown, s) == node.bridge);
            assert(is_copy(grown, n, node.bridge as int));
            assert forall|u: int| s < u < n implies (#[trigger] grown[u]).data is Real by {
                assert(level[u].data is Real);
            }
        }
    }
}

/// Node `q` of `level` is the last one whose value is not greater than `key`; the sentinel
/// counts as such a node.
pub open spec fn is_cursor<'a, T: Ord>(level: Seq<Node<'a, T>>, key: T, q: int) -> bool {
    &&& 0 <= q < level.len()
    &&& q >= 1 ==> key_le(value_at(level, q), key)
    &&& forall|t: int| q < t < level.len() ==> key_lt(key, #[trigger] value_at(level, t))
}

/// Node `s` is the last node of `level` that is not real and whose value is not greater than
/// `key`; the sentinel counts as such a node.
pub open spec fn is_descent<'a, T: Ord>(level: Seq<Node<'a, T>>, key: T, s: int) -> bool {
    &&& 0 <= s < level.len()
    &&& !(level[s].data is Real)
    &&& s >= 1 ==> key_le(value_at(level, s), key)
    &&& forall|t: int|
        s < t < level.len() && !((#[trigger] level[t]).data is Real) ==> key_lt(
            key,
            value_at(level, t),
        )
}

/// The nearest real node at or before the last node that is not greater than `key` is the
/// predecessor of `key` in the catalog.
pub proof fn lemma_cursor_answer<'a, T: Ord>(
    level: Seq<Node<'a, T>>,
    catalog: Seq<T>,
    key: T,
    q: int,
)
    requires
        total_order::<T>(),
        sorted(catalog),
        is_level(level, catalog),
        is_cursor(level, key, q),
    ensures
        level[q].spec_closest_real_index(level) == predecessor(catalog, key),
{
    let found = level[q].spec_closest_real_index(level);
    let through = reals_through(level, q);
    if q >= 1 {
        assert(node_in_place(level, catalog, q));
        let before = level[q].prev as int;
        if level[q].data is Synthetic && before >= 1 {
            assert(node_in_place(level, catalog, before));
        }
    }
    assert(through <= catalog.len());
    if through < catalog.len() {
        assert(q + 1 < level.len());
        assert(node_in_place(level, catalog, q + 1));
        assert(key_lt(key, value_at(level, q + 1)));
        assert(key_lt(key, catalog[through]));
        assert forall|i: int| through <= i < catalog.len() implies key_lt(
            key,
            #[trigger] catalog[i],
        ) by {
            assert(key_le(catalog[through], catalog[i]));
        }
    }
    assert(is_predecessor(catalog, key, found));
    lemma_predecessor_unique(catalog, key, found);
}

/// From the last node that is not greater than `key`, the place to descend from is that node
/// or, where it is real, the node that its `prev` names.
pub proof fn lemma_cursor_descent<'a, T: Ord>(
    level: Seq<Node<'a, T>>,
    catalog: Seq<T>,
    key: T,
    q: int,
)
    requires
        total_order::<T>(),
        is_level(level, catalog),
        is_cursor(level, key, q),
    ensures
        is_descent(
            level,
            key,
            if level[q].data is Real {
                level[q].prev as int
            } else {
                q
            },
        ),
{
    if level[q].data is Real {
        let s = level[q].prev as int;
        assert(node_in_place(level, catalog, q));
        if s >= 1 {
            assert(key_le(value_at(level, s), value_at(level, q)));
        }
        assert forall|t: int|
            s < t < level.len() && !((#[trigger] level[t]).data is Real) implies key_lt(
            key,
            value_at(level, t),
        ) by {
            if t <= q {
                assert(level[t].data is Real);
            }
        }
    }
}

/// Where the descent leaves `level` from node `s`, the last node of `next` that is not
/// greater than `key` is the node that `s` bridges to or the one after it.
pub proof fn lemma_descent_cursor<'a, T: Ord>(
    level: Seq<Node<'a, T>>,
    next: Seq<Node<'a, T>>,
    above: Seq<T>,
    catalog: Seq<T>,
    key: T,
    s: int,
)
    requires
        total_order::<T>(),
        is_level(level, above),
        is_linked(level, next),
        is_level(next, catalog),
        is_descent(level, key, s),
    ensures
        level[s].bridge < next.len(),
        ({
            let b = level[s].bridge as int;
            if b + 1 < next.len() && key_le(value_at(next, b + 1), key) {
                is_cursor(next, key, b + 1)
            } else {
                is_cursor(next, key, b)
            }
        }),
{
    let b = level[s].bridge as int;
    let after = following_bridge(level, s);
    if s >= 1 {
        assert(node_in_place(level, above, s));
        assert(bridges(level, next, s));
    }
    assert(promotes_following(level, next, s));
    if after < next.len() {
        let t = choose|t: int|
            {
                &&& s < t < level.len()
                &&& #[trigger] is_copy(level, t, after)
                &&& forall|u: int| s < u < t ==> (#[trigger] level[u]).data is Real
            };
        assert(bridges(level, next, t));
        assert(key_lt(key, value_at(next, after)));
        assert forall|u: int| after <= u < next.len() implies key_lt(
            key,
            #[trigger] value_at(next, u),
        ) by {
            assert(key_le(value_at(next, after), value_at(next, u)));
        }
    }
    if b + 1 < next.len() && !key_le(value_at(next, b + 1), key) {
        assert forall|u: int| b < u < next.len() implies key_lt(
            key,
            #[trigger] value_at(next, u),
        ) by {
            assert(key_le(value_at(next, b + 1), value_at(next, u)));
        }
    }
}

} // verus!
