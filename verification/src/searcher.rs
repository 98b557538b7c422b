//! A cascading searcher that stores counts: each node knows how many elements of its own
//! catalog are less than its value, and where to continue in the next catalog.

use crate::bounded::BoundedKey;
use crate::catalog::{
    catalog_views, is_lower_bound, lemma_lower_bound_sorted, lemma_lower_bound_unique,
    lemma_predecessor_sorted, level_len, lower_bound, position, predecessor, sorted,
};
use crate::order::{key_le, key_lt, le, lt, same, total_order};
use vstd::prelude::*;

verus! {

/// A searcher over a fixed list of sorted catalogs.
#[derive(Debug)]
pub struct FCSearcher<T: BoundedKey> {
    cats: Vec<Vec<Node<T>>>,
}

/// A value with the number of elements of the node's own catalog that are less than it
/// (`ncur`) and the index of a node of the next catalog's list that is not less than it
/// (`nnxt`).
#[derive(Clone, Copy, Debug)]
struct Node<T> {
    val: T,
    ncur: usize,
    nnxt: usize,
}

impl<T> Node<T> {
    fn new(val: T, ncur: usize, nnxt: usize) -> (node: Self)
        ensures
            node.val == val,
            node.ncur == ncur,
            node.nnxt == nnxt,
    {
        Self { val, ncur, nnxt }
    }
}

impl<T: BoundedKey> Node<T> {
    fn max(ncur: usize, nnxt: usize) -> (node: Self)
        ensures
            node.val == T::greatest(),
            forall|x: T| #[trigger] key_le(x, node.val),
            node.ncur == ncur,
            node.nnxt == nnxt,
    {
        Self { val: T::max_value(), ncur, nnxt }
    }
}

/// The values of `cat` never decrease.
spec fn vals_sorted<T: Ord>(cat: Seq<Node<T>>) -> bool {
    forall|i: int, j: int|
        0 <= i <= j < cat.len() ==> key_le((#[trigger] cat[i]).val, (#[trigger] cat[j]).val)
}

/// `ncur` of node `j` splits `src` around the node: the elements from `ncur` on are not less
/// than the node's value, and those before `ncur` are not greater than the value of the node
/// before it.
spec fn counts_source<T: Ord>(cat: Seq<Node<T>>, src: Seq<T>, j: int) -> bool {
    let n = cat[j].ncur as int;
    &&& n <= src.len()
    &&& n < src.len() ==> key_le(cat[j].val, src[n])
    &&& n > 0 ==> j > 0 && key_le(src[n - 1], cat[j - 1].val)
}

/// `cat` is the node list of the sorted catalog `src`: sorted by value, ending with a node
/// of the largest value, every node counting into `src`.
spec fn is_cat<T: Ord>(cat: Seq<Node<T>>, src: Seq<T>) -> bool {
    &&& sorted(src)
    &&& cat.len() >= 1
    &&& vals_sorted(cat)
    &&& forall|j: int| 0 <= j < cat.len() ==> #[trigger] counts_source(cat, src, j)
    &&& cat.last().ncur == src.len()
    &&& forall|x: T| #[trigger] key_le(x, cat.last().val)
}

/// `nnxt` of node `j` names a node of `next` that is not less than node `j`, and the node
/// two places before that one is not greater than the node before `j`.
spec fn points_below<T: Ord>(cat: Seq<Node<T>>, next: Seq<Node<T>>, j: int) -> bool {
    let n = cat[j].nnxt as int;
    &&& n < next.len()
    &&& key_le(cat[j].val, next[n].val)
    &&& n >= 2 ==> j > 0 && key_le(next[n - 2].val, cat[j - 1].val)
}

/// Every node of `cat` points into `next`.
spec fn cat_linked<T: Ord>(cat: Seq<Node<T>>, next: Seq<Node<T>>) -> bool {
    forall|j: int| 0 <= j < cat.len() ==> #[trigger] points_below(cat, next, j)
}

/// The values of the nodes of `cat`.
spec fn vals<T>(cat: Seq<Node<T>>) -> Seq<T> {
    cat.map_values(|node: Node<T>| node.val)
}

/// `node` holds `val` with the counts `ncur` and `nnxt`.
spec fn holds<T>(node: Node<T>, val: T, ncur: int, nnxt: int) -> bool {
    node.val == val && node.ncur == ncur && node.nnxt == nnxt
}

/// `cat` is the node list of the last catalog `src`: one node for each element, with the
/// number of smaller elements, then the closing node; no node points anywhere.
spec fn is_last_cat<T: BoundedKey>(cat: Seq<Node<T>>, src: Seq<T>) -> bool {
    &&& cat.len() == src.len() + 1
    &&& forall|i: int|
        0 <= i < src.len() ==> holds(#[trigger] cat[i], src[i], lower_bound(src, src[i]) as int, 0)
    &&& holds(cat[src.len() as int], T::greatest(), src.len() as int, 0)
}

/// How many of the nodes that are taken over from `cat`, which are those with an even index
/// below the closing node, have a value that is not greater than `s`.
spec fn copies_upto<T: Ord>(cat: Seq<Node<T>>, s: T) -> int {
    (position(predecessor(vals(cat).drop_last(), s)) + 2) / 2
}

/// Where the copy of node `c` of `cat` stands in the list of `src`: after the copies of the
/// nodes before it and after the elements of `src` that are less than it.
spec fn copy_place<T: Ord>(src: Seq<T>, cat: Seq<Node<T>>, c: int) -> int {
    c / 2 + lower_bound(src, cat[c].val)
}

/// Where element `t` of `src` stands in the list of `src`: after the elements before it and
/// after the copies that are not greater than it.
spec fn own_place<T: Ord>(src: Seq<T>, cat: Seq<Node<T>>, t: int) -> int {
    t + copies_upto(cat, src[t])
}

/// The copy of node `c` of `cat` stands in its place in `res`, with the number of smaller
/// elements of `src` and the index of the first node of `cat` that is not less than it.
spec fn placed_copy<T: Ord>(res: Seq<Node<T>>, src: Seq<T>, cat: Seq<Node<T>>, c: int) -> bool {
    let p = copy_place(src, cat, c);
    let v = cat[c].val;
    &&& 0 <= p < res.len()
    &&& holds(res[p], v, lower_bound(src, v) as int, lower_bound(vals(cat), v) as int)
}

/// Element `t` of `src` stands in its place in `res`, with the number of smaller elements of
/// `src` and the index of the first node of `cat` that is not less than it.
spec fn placed_own<T: Ord>(res: Seq<Node<T>>, src: Seq<T>, cat: Seq<Node<T>>, t: int) -> bool {
    let p = own_place(src, cat, t);
    let s = src[t];
    &&& 0 <= p < res.len()
    &&& holds(res[p], s, lower_bound(src, s) as int, lower_bound(vals(cat), s) as int)
}

/// `res` is the node list of `src` over `cat`, the list of the next catalog: the elements of
/// `src` and a copy of every second node of `cat` below its closing node, each in its place,
/// then the closing node, which points to the closing node of `cat`.
spec fn is_merged_cat<T: BoundedKey>(res: Seq<Node<T>>, src: Seq<T>, cat: Seq<Node<T>>) -> bool {
    &&& res.len() == src.len() + cat.len() / 2 + 1
    &&& forall|c: int|
        0 <= c < cat.len() - 1 && c % 2 == 0 ==> #[trigger] placed_copy(res, src, cat, c)
    &&& forall|t: int| 0 <= t < src.len() ==> #[trigger] placed_own(res, src, cat, t)
    &&& holds(res.last(), T::greatest(), src.len() as int, cat.len() - 1)
}

/// Node `pos` is the first node of `cat` that is not less than `key`.
spec fn is_first<T: Ord>(cat: Seq<Node<T>>, key: T, pos: int) -> bool {
    &&& 0 <= pos < cat.len()
    &&& key_le(key, cat[pos].val)
    &&& pos > 0 ==> key_lt(cat[pos - 1].val, key)
}

/// The first node that is not less than `key` counts the elements of the catalog that are
/// less than `key`.
proof fn lemma_first_counts<T: Ord>(cat: Seq<Node<T>>, src: Seq<T>, key: T, pos: int)
    requires
        total_order::<T>(),
        is_cat(cat, src),
        is_first(cat, key, pos),
    ensures
        cat[pos].ncur == lower_bound(src, key),
{
    let n = cat[pos].ncur as int;
    assert(counts_source(cat, src, pos));
    assert forall|i: int| 0 <= i < n implies key_lt(#[trigger] src[i], key) by {
        assert(key_le(src[i], src[n - 1]));
    }
    assert(is_lower_bound(src, key, n as nat));
    lemma_lower_bound_unique(src, key, n as nat);
}

/// From the first node of `cat` that is not less than `key`, `nnxt` leads to the first such
/// node of `next` or to the node after it.
proof fn lemma_first_below<T: Ord>(cat: Seq<Node<T>>, next: Seq<Node<T>>, key: T, pos: int)
    requires
        total_order::<T>(),
        cat_linked(cat, next),
        is_first(cat, key, pos),
    ensures
        cat[pos].nnxt < next.len(),
        ({
            let n = cat[pos].nnxt as int;
            if n > 0 && key_le(key, next[n - 1].val) {
                is_first(next, key, n - 1)
            } else {
                is_first(next, key, n)
            }
        }),
{
    assert(points_below(cat, next, pos));
}

/// The number of nodes of `cat` that are less than `key`.
fn partition_point<T: Ord>(cat: &[Node<T>], key: &T) -> (pos: usize)
    requires
        total_order::<T>(),
        cat.len() >= 1,
        key_le(*key, cat@.last().val),
    ensures
        is_first(cat@, *key, pos as int),
{
    let mut low: usize = 0;
    let mut high: usize = cat.len() - 1;
    while low < high
        invariant
            total_order::<T>(),
            low <= high < cat.len(),
            key_le(*key, cat@[high as int].val),
            low > 0 ==> key_lt(cat@[low - 1].val, *key),
        decreases high - low,
    {
        let mid = low + (high - low) / 2;
        if lt(&cat[mid].val, key) {
            low = mid + 1;
        } else {
            high = mid;
        }
    }
    low
}

/// The node list of the last catalog: its elements, each with the index of the first
/// element equal to it, and the closing node.
fn cat_from_src<T: BoundedKey>(src: &[T]) -> (res: Vec<Node<T>>)
    requires
        total_order::<T>(),
        sorted(src@),
    ensures
        is_cat(res@, src@),
        is_last_cat(res@, src@),
{
    let mut res = Vec::with_capacity(src.len().saturating_add(1));

    // Number of elements less than item
    let mut num_less: usize = 0;

    for index in 0..src.len()
        invariant
            total_order::<T>(),
            sorted(src@),
            res.len() == index,
            num_less <= index,
            index > 0 ==> num_less < index,
            vals_sorted(res@),
            forall|j: int| 0 <= j < res.len() ==> #[trigger] counts_source(res@, src@, j),
            forall|j: int|
                0 <= j < res.len() ==> holds(
                    #[trigger] res@[j],
                    src@[j],
                    lower_bound(src@, src@[j]) as int,
                    0,
                ),
            index > 0 ==> key_le(src@[index - 1], src@[num_less as int]),
            num_less > 0 ==> key_lt(src@[num_less - 1], src@[num_less as int]),
    {
        let item = src[index];
        if !same(&item, &src[num_less]) {
            proof {
                if index > 0 {
                    assert(key_le(src@[index - 1], src@[index as int]));
                    assert(key_le(src@[num_less as int], src@[index - 1]));
                }
            }
            num_less = index;
        }
        let ghost before = res@;
        res.push(Node::new(item, num_less, 0));
        proof {
            assert(key_le(src@[num_less as int], src@[index as int]));
            lemma_lower_bound_sorted(src@, src@[index as int], num_less as int);
            assert(key_le(src@[index as int], src@[num_less as int])) by {
                assert(key_le(src@[num_less as int], src@[index as int]));
            }
            assert forall|j: int| 0 <= j < res.len() implies #[trigger] counts_source(
                res@,
                src@,
                j,
            ) by {
                if j < index {
                    assert(counts_source(before, src@, j));
                } else if num_less > 0 {
                    assert(key_le(src@[num_less - 1], src@[index - 1]));
                }
            }
            assert forall|i: int, j: int| 0 <= i <= j < res.len() implies key_le(
                (#[trigger] res@[i]).val,
                (#[trigger] res@[j]).val,
            ) by {
                assert(key_le(src@[i], src@[j]));
            }
        }
    }

    let ghost before = res@;
    res.push(Node::max(src.len(), 0));
    proof {
        assert forall|j: int| 0 <= j < res.len() implies #[trigger] counts_source(
            res@,
            src@,
            j,
        ) by {
            if j < src.len() {
                assert(counts_source(before, src@, j));
            } else if src.len() > 0 {
                assert(key_le(src@[src.len() - 1], src@[src.len() - 1]));
            }
        }
    }
    res
}

/// The last node that was taken over from `cat`, while the merge stands before node `cind`
/// of it: the node before `cind` with an even index.
spec fn last_promoted(cind: int) -> int {
    if cind % 2 == 0 {
        cind - 2
    } else {
        cind - 1
    }
}

/// The state of a merge of `src` with `cat`: `res` is what has been emitted, `sind`
/// elements of `src` are in it, and the nodes of `cat` before `cind` have been considered.
spec fn merging<T: Ord>(
    res: Seq<Node<T>>,
    src: Seq<T>,
    cat: Seq<Node<T>>,
    sind: int,
    cind: int,
) -> bool {
    &&& 0 <= sind <= src.len()
    &&& 0 <= cind < cat.len()
    &&& vals_sorted(res)
    &&& forall|j: int| 0 <= j < res.len() ==> #[trigger] counts_source(res, src, j)
    &&& forall|j: int| 0 <= j < res.len() ==> #[trigger] points_below(res, cat, j)
    &&& sind > 0 ==> res.len() >= 1 && key_le(src[sind - 1], res.last().val)
    &&& cind >= 1 ==> res.len() >= 1 && key_le(cat[last_promoted(cind)].val, res.last().val)
    &&& res.len() >= 1 && sind < src.len() ==> key_le(res.last().val, src[sind])
    &&& res.len() >= 1 ==> key_le(res.last().val, cat[cind].val)
}

/// Emitting a node that fits after the last one is a step of the merge.
proof fn lemma_emit<T: Ord>(
    res: Seq<Node<T>>,
    src: Seq<T>,
    cat: Seq<Node<T>>,
    sind: int,
    cind: int,
    node: Node<T>,
    sind_after: int,
)
    requires
        total_order::<T>(),
        sorted(src),
        vals_sorted(cat),
        merging(res, src, cat, sind, cind),
        res.len() >= 1 ==> key_le(res.last().val, node.val),
        key_le(node.val, cat[cind].val),
        sind <= sind_after <= src.len(),
        sind_after > 0 ==> key_le(src[sind_after - 1], node.val),
        sind_after < src.len() ==> key_le(node.val, src[sind_after]),
        node.ncur <= sind,
        node.ncur < src.len() ==> key_le(node.val, src[node.ncur as int]),
        node.nnxt <= cind,
        key_le(node.val, cat[node.nnxt as int].val),
    ensures
        merging(res.push(node), src, cat, sind_after, cind),
{
    let grown = res.push(node);
    let at = res.len() as int;
    assert forall|i: int, j: int| 0 <= i <= j < grown.len() implies key_le(
        (#[trigger] grown[i]).val,
        (#[trigger] grown[j]).val,
    ) by {
        if j < at {
            assert(key_le(res[i].val, res[j].val));
        } else if i < at {
            assert(key_le(res[i].val, res[at - 1].val));
        } else {
            assert(key_le(node.val, node.val));
        }
    }
    assert forall|j: int| 0 <= j < grown.len() implies #[trigger] counts_source(grown, src, j) by {
        if j < at {
            assert(counts_source(res, src, j));
        } else if node.ncur > 0 {
            assert(key_le(src[node.ncur - 1], src[sind - 1]));
        }
    }
    assert forall|j: int| 0 <= j < grown.len() implies #[trigger] points_below(grown, cat, j) by {
        if j < at {
            assert(points_below(res, cat, j));
        } else if node.nnxt >= 2 {
            assert(key_le(cat[node.nnxt - 2].val, cat[last_promoted(cind)].val));
        }
    }
}

/// `copies` is the number of nodes with an even index before node `cind`.
spec fn halves(cind: int, copies: int) -> bool {
    if cind % 2 == 0 {
        2 * copies == cind
    } else {
        2 * copies == cind + 1
    }
}

/// What has been emitted stands in its place: `res` holds the first `sind` elements of `src`
/// and the copies of the nodes of `cat` with an even index below `cind`, and nothing else.
spec fn placing<T: Ord>(
    res: Seq<Node<T>>,
    src: Seq<T>,
    cat: Seq<Node<T>>,
    sind: int,
    cind: int,
    copies: int,
) -> bool {
    &&& res.len() == sind + copies
    &&& halves(cind, copies)
    &&& forall|c: int| 0 <= c < cind && c % 2 == 0 ==> #[trigger] placed_copy(res, src, cat, c)
    &&& forall|t: int| 0 <= t < sind ==> #[trigger] placed_own(res, src, cat, t)
}

/// The values of a list that is sorted by value are a sorted catalog.
proof fn lemma_vals_sorted<T: Ord>(cat: Seq<Node<T>>)
    requires
        vals_sorted(cat),
        cat.len() >= 1,
    ensures
        sorted(vals(cat)),
        sorted(vals(cat).drop_last()),
        vals(cat).len() == cat.len(),
        forall|i: int| 0 <= i < cat.len() ==> #[trigger] vals(cat)[i] == cat[i].val,
{
    let values = vals(cat);
    assert forall|i: int, j: int| 0 <= i <= j < values.len() implies key_le(
        #[trigger] values[i],
        #[trigger] values[j],
    ) by {
        assert(key_le(cat[i].val, cat[j].val));
    }
    let below = values.drop_last();
    assert forall|i: int, j: int| 0 <= i <= j < below.len() implies key_le(
        #[trigger] below[i],
        #[trigger] below[j],
    ) by {
        assert(key_le(cat[i].val, cat[j].val));
    }
}

/// Emitting a node leaves what stands in its place where it is.
proof fn lemma_keep_placed<T: Ord>(
    res: Seq<Node<T>>,
    src: Seq<T>,
    cat: Seq<Node<T>>,
    node: Node<T>,
)
    ensures
        forall|c: int|
            placed_copy(res, src, cat, c) ==> #[trigger] placed_copy(res.push(node), src, cat, c),
        forall|t: int|
            placed_own(res, src, cat, t) ==> #[trigger] placed_own(res.push(node), src, cat, t),
{
    let grown = res.push(node);
    assert forall|c: int| placed_copy(res, src, cat, c) implies #[trigger] placed_copy(
        grown,
        src,
        cat,
        c,
    ) by {
        assert(grown[copy_place(src, cat, c)] == res[copy_place(src, cat, c)]);
    }
    assert forall|t: int| placed_own(res, src, cat, t) implies #[trigger] placed_own(
        grown,
        src,
        cat,
        t,
    ) by {
        assert(grown[own_place(src, cat, t)] == res[own_place(src, cat, t)]);
    }
}

/// Emitting the next element of `src`, between the nodes of `cat` on either side of it, puts
/// it in its place.
proof fn lemma_place_own<T: Ord>(
    res: Seq<Node<T>>,
    src: Seq<T>,
    cat: Seq<Node<T>>,
    sind: int,
    cind: int,
    copies: int,
    node: Node<T>,
)
    requires
        total_order::<T>(),
        sorted(src),
        vals_sorted(cat),
        cat.len() <= usize::MAX,
        placing(res, src, cat, sind, cind, copies),
        0 <= sind < src.len(),
        0 <= cind < cat.len(),
        node.val == src[sind],
        node.ncur <= sind,
        key_le(src[sind], src[node.ncur as int]),
        node.ncur > 0 ==> key_lt(src[node.ncur - 1], src[node.ncur as int]),
        cind >= 1 ==> key_le(cat[cind - 1].val, src[sind]),
        cind < cat.len() - 1 ==> key_lt(src[sind], cat[cind].val),
        node.nnxt <= cind,
        key_le(src[sind], cat[node.nnxt as int].val),
        node.nnxt > 0 ==> key_lt(cat[node.nnxt - 1].val, src[sind]),
    ensures
        placing(res.push(node), src, cat, sind + 1, cind, copies),
{
    let s = src[sind];
    let values = vals(cat);
    let below = values.drop_last();
    lemma_vals_sorted(cat);
    lemma_keep_placed(res, src, cat, node);
    assert(lower_bound(src, s) == node.ncur) by {
        assert(key_le(src[node.ncur as int], s));
        lemma_lower_bound_sorted(src, s, node.ncur as int);
    }
    assert(lower_bound(values, s) == node.nnxt) by {
        lemma_lower_bound_sorted(values, s, node.nnxt as int);
    }
    assert(copies_upto(cat, s) == copies) by {
        assert(forall|i: int| 0 <= i < below.len() ==> #[trigger] below[i] == cat[i].val);
        lemma_predecessor_sorted(below, s, cind - 1);
    }
    let grown = res.push(node);
    assert(own_place(src, cat, sind) == res.len());
    assert(placed_own(grown, src, cat, sind));
    assert forall|t: int| 0 <= t < sind + 1 implies #[trigger] placed_own(grown, src, cat, t) by {
        if t < sind {
            assert(placed_own(res, src, cat, t));
        }
    }
    assert forall|c: int| 0 <= c < cind && c % 2 == 0 implies #[trigger] placed_copy(
        grown,
        src,
        cat,
        c,
    ) by {
        assert(placed_copy(res, src, cat, c));
    }
}

/// Emitting the copy of node `cind` of `cat`, after the elements of `src` that are less than
/// it, puts it in its place.
proof fn lemma_place_copy<T: Ord>(
    res: Seq<Node<T>>,
    src: Seq<T>,
    cat: Seq<Node<T>>,
    sind: int,
    cind: int,
    copies: int,
    node: Node<T>,
)
    requires
        total_order::<T>(),
        sorted(src),
        vals_sorted(cat),
        placing(res, src, cat, sind, cind, copies),
        0 <= sind <= src.len(),
        0 <= cind < cat.len() - 1,
        cind % 2 == 0,
        node.val == cat[cind].val,
        node.ncur == sind,
        sind > 0 ==> key_lt(src[sind - 1], cat[cind].val),
        sind < src.len() ==> key_le(cat[cind].val, src[sind]),
        node.nnxt <= cind,
        key_le(cat[cind].val, cat[node.nnxt as int].val),
        node.nnxt > 0 ==> key_lt(cat[node.nnxt - 1].val, cat[cind].val),
    ensures
        placing(res.push(node), src, cat, sind, cind + 1, copies + 1),
{
    let v = cat[cind].val;
    let values = vals(cat);
    lemma_vals_sorted(cat);
    lemma_keep_placed(res, src, cat, node);
    lemma_lower_bound_sorted(src, v, sind);
    lemma_lower_bound_sorted(values, v, node.nnxt as int);
    let grown = res.push(node);
    assert(copy_place(src, cat, cind) == res.len());
    assert(placed_copy(grown, src, cat, cind));
    assert forall|c: int| 0 <= c < cind + 1 && c % 2 == 0 implies #[trigger] placed_copy(
        grown,
        src,
        cat,
        c,
    ) by {
        if c < cind {
            assert(placed_copy(res, src, cat, c));
        }
    }
    assert forall|t: int| 0 <= t < sind implies #[trigger] placed_own(grown, src, cat, t) by {
        assert(placed_own(res, src, cat, t));
    }
}

/// The node list of an earlier catalog: the elements of `src` merged with every second node
/// of `cat`, the node list of the next catalog, and the closing node. An element of `src`
/// that equals a value taken over from `cat` comes after it.
fn cat_merged_with_src<T: BoundedKey>(cat: &[Node<T>], src: &[T]) -> (res: Vec<Node<T>>)
    requires
        total_order::<T>(),
        sorted(src@),
        cat.len() >= 1,
        vals_sorted(cat@),
        forall|x: T| #[trigger] key_le(x, cat@.last().val),
    ensures
        is_cat(res@, src@),
        cat_linked(res@, cat@),
        is_merged_cat(res@, src@, cat@),
{
    let mut res = Vec::with_capacity(
        (cat.len() >> 1).saturating_add(src.len()).saturating_add(1),
    );
    let mut sprev: usize = 0;
    let mut cprev: usize = 0;
    let mut sind: usize = 0;
    let ghost mut copies: int = 0;

    for cind in 0..cat.len() - 1
        invariant
            total_order::<T>(),
            sorted(src@),
            cat.len() >= 1,
            vals_sorted(cat@),
            merging(res@, src@, cat@, sind as int, cind as int),
            placing(res@, src@, cat@, sind as int, cind as int, copies),
            sprev <= sind,
            sprev > 0 ==> sprev < src.len() && key_lt(src@[sprev - 1], src@[sprev as int]),
            sind > 0 ==> sprev < sind && key_le(src@[sind - 1], src@[sprev as int]),
            cprev <= cind,
            cprev > 0 ==> key_lt(cat@[cprev - 1].val, cat@[cprev as int].val),
            cind >= 1 ==> cprev < cind && key_le(cat@[cind - 1].val, cat@[cprev as int].val),
            cind >= 1 && sind < src.len() ==> key_le(cat@[cind - 1].val, src@[sind as int]),
            sind > 0 ==> key_lt(src@[sind - 1], cat@[cind as int].val),
    {
        while sind < src.len() && lt(&src[sind], &cat[cind].val)
            invariant
                total_order::<T>(),
                sorted(src@),
                vals_sorted(cat@),
                cind < cat.len() - 1,
                merging(res@, src@, cat@, sind as int, cind as int),
                placing(res@, src@, cat@, sind as int, cind as int, copies),
                sprev <= sind,
                sprev > 0 ==> sprev < src.len() && key_lt(src@[sprev - 1], src@[sprev as int]),
                sind > 0 ==> sprev < sind && key_le(src@[sind - 1], src@[sprev as int]),
                cprev <= cind,
                cprev > 0 ==> key_lt(cat@[cprev - 1].val, cat@[cprev as int].val),
                cind >= 1 ==> cprev < cind && key_le(cat@[cind - 1].val, cat@[cprev as int].val),
                cind >= 1 && sind < src.len() ==> key_le(cat@[cind - 1].val, src@[sind as int]),
                sind > 0 ==> key_lt(src@[sind - 1], cat@[cind as int].val),
            decreases src.len() - sind,
        {
            proof {
                if sind > 0 {
                    assert(key_le(src@[sprev as int], src@[sind - 1]));
                    assert(key_le(src@[sind - 1], src@[sind as int]));
                }
            }
            if !same(&src[sind], &src[sprev]) {
                sprev = sind;
            }
            proof {
                if cind >= 1 {
                    assert(key_le(cat@[cprev as int].val, cat@[cind - 1].val));
                }
            }
            let node = if same(&cat[cprev].val, &src[sind]) {
                Node::new(src[sind], sprev, cprev)
            } else {
                Node::new(src[sind], sprev, cind)
            };
            proof {
                assert(key_le(src@[sprev as int], src@[sind as int]));
                if sind + 1 < src.len() {
                    assert(key_le(src@[sind as int], src@[sind + 1]));
                }
                lemma_emit(res@, src@, cat@, sind as int, cind as int, node, sind + 1);
                lemma_place_own(res@, src@, cat@, sind as int, cind as int, copies, node);
            }
            res.push(node);
            sind += 1;
        }

        proof {
            if cind >= 1 {
                assert(key_le(cat@[cprev as int].val, cat@[cind - 1].val));
                assert(key_le(cat@[cind - 1].val, cat@[cind as int].val));
            }
        }
        if !same(&cat[cind].val, &cat[cprev].val) {
            cprev = cind;
        }
        if cind % 2 == 0 {
            let node = Node::new(cat[cind].val, sind, cprev);
            proof {
                assert(key_le(cat@[cprev as int].val, cat@[cind as int].val));
                lemma_emit(res@, src@, cat@, sind as int, cind as int, node, sind as int);
                lemma_place_copy(res@, src@, cat@, sind as int, cind as int, copies, node);
                copies = copies + 1;
            }
            res.push(node);
        }
        proof {
            assert(key_le(cat@[cind as int].val, cat@[cind + 1].val));
            if cind >= 1 {
                assert(key_le(cat@[last_promoted(cind as int)].val, res@.last().val));
            }
        }
    }

    let ghost closing = cat.len() - 1;
    while sind < src.len()
        invariant
            total_order::<T>(),
            sorted(src@),
            cat.len() >= 1,
            closing == cat.len() - 1,
            vals_sorted(cat@),
            forall|x: T| #[trigger] key_le(x, cat@.last().val),
            merging(res@, src@, cat@, sind as int, closing),
            placing(res@, src@, cat@, sind as int, closing, copies),
            sprev <= sind,
            sprev > 0 ==> sprev < src.len() && key_lt(src@[sprev - 1], src@[sprev as int]),
            sind > 0 ==> sprev < sind && key_le(src@[sind - 1], src@[sprev as int]),
            cprev <= closing,
            cprev > 0 ==> key_lt(cat@[cprev - 1].val, cat@[cprev as int].val),
            closing >= 1 ==> cprev < closing && key_le(
                cat@[closing - 1].val,
                cat@[cprev as int].val,
            ),
            closing >= 1 && sind < src.len() ==> key_le(cat@[closing - 1].val, src@[sind as int]),
        decreases src.len() - sind,
    {
        proof {
            if sind > 0 {
                assert(key_le(src@[sprev as int], src@[sind - 1]));
                assert(key_le(src@[sind - 1], src@[sind as int]));
            }
        }
        if !same(&src[sind], &src[sprev]) {
            sprev = sind;
        }
        proof {
            if closing >= 1 {
                assert(key_le(cat@[cprev as int].val, cat@[closing - 1].val));
            }
        }
        let node = if same(&cat[cprev].val, &src[sind]) {
            Node::new(src[sind], sprev, cprev)
        } else {
            Node::new(src[sind], sprev, cat.len() - 1)
        };
        proof {
            assert(key_le(src@[sprev as int], src@[sind as int]));
            if sind + 1 < src.len() {
                assert(key_le(src@[sind as int], src@[sind + 1]));
            }
            assert(key_le(node.val, cat@.last().val));
            lemma_emit(res@, src@, cat@, sind as int, closing, node, sind + 1);
            lemma_place_own(res@, src@, cat@, sind as int, closing, copies, node);
        }
        res.push(node);
        sind += 1;
    }

    let node = Node::max(sind, cat.len() - 1);
    proof {
        assert(key_le(node.val, cat@.last().val));
        lemma_emit(res@, src@, cat@, sind as int, closing, node, sind as int);
        lemma_keep_placed(res@, src@, cat@, node);
        assert(copies == cat.len() / 2);
    }
    let ghost before = res@;
    res.push(node);
    proof {
        assert(res@ == before.push(node));
        assert forall|c: int| 0 <= c < cat.len() - 1 && c % 2 == 0 implies #[trigger] placed_copy(
            res@,
            src@,
            cat@,
            c,
        ) by {
            assert(placed_copy(before, src@, cat@, c));
        }
        assert forall|t: int| 0 <= t < src.len() implies #[trigger] placed_own(
            res@,
            src@,
            cat@,
            t,
        ) by {
            assert(placed_own(before, src@, cat@, t));
        }
    }
    res
}

impl<T: BoundedKey> FCSearcher<T> {
    /// Every node list ends with a node of the largest value and points into the next list.
    #[verifier::type_invariant]
    spec fn wf(&self) -> bool {
        &&& total_order::<T>()
        &&& forall|i: int|
            0 <= i < self.cats.len() ==> {
                &&& (#[trigger] self.cats[i]).len() >= 1
                &&& forall|x: T| #[trigger] key_le(x, self.cats[i]@.last().val)
            }
        &&& forall|i: int|
            0 <= i && i + 1 < self.cats.len() ==> cat_linked(
                (#[trigger] self.cats[i])@,
                self.cats[i + 1]@,
            )
    }

    /// The searcher answers for `sources`: it holds one node list per catalog, in the order
    /// of `sources`; the last list holds the nodes of the last catalog and each other list
    /// those of its catalog merged with every second node of the next list.
    pub closed spec fn indexes(&self, sources: Seq<Seq<T>>) -> bool {
        &&& self.cats.len() == sources.len()
        &&& forall|i: int|
            0 <= i < self.cats.len() ==> is_cat((#[trigger] self.cats[i])@, sources[i])
        &&& self.cats.len() > 0 ==> is_last_cat(
            self.cats[self.cats.len() - 1]@,
            sources[self.cats.len() - 1],
        )
        &&& forall|i: int|
            0 <= i && i + 1 < self.cats.len() ==> is_merged_cat(
                (#[trigger] self.cats[i])@,
                sources[i],
                self.cats[i + 1]@,
            )
    }

    /// The number of nodes of each list, in the order of the catalogs.
    pub closed spec fn list_lens(&self) -> Seq<nat> {
        Seq::new(self.cats.len() as nat, |i: int| self.cats[i].len() as nat)
    }

    /// Builds the searcher over `sources`, from the last catalog up to the first.
    pub fn new(sources: &[Vec<T>]) -> (searcher: Self)
        requires
            total_order::<T>(),
            forall|i: int| 0 <= i < sources.len() ==> sorted((#[trigger] sources[i])@),
        ensures
            searcher.indexes(catalog_views(sources@)),
            searcher.list_lens().len() == sources.len(),
            forall|i: int|
                0 <= i < sources.len() ==> #[trigger] searcher.list_lens()[i] == level_len(
                    catalog_views(sources@),
                    i,
                ),
    {
        let mut cats: Vec<Vec<Node<T>>> = Vec::new();
        let mut remaining = sources.len();
        let ghost views = catalog_views(sources@);

        if remaining > 0 {
            remaining -= 1;
            let mut last_cat = cat_from_src(sources[remaining].as_slice());
            assert(last_cat.len() == level_len(views, remaining as int)) by {
                assert(level_len(views, remaining + 1) == 0);
                assert(views[remaining as int] == sources[remaining as int]@);
            }

            while remaining > 0
                invariant
                    total_order::<T>(),
                    views == catalog_views(sources@),
                    last_cat.len() == level_len(views, remaining as int),
                    forall|j: int|
                        0 <= j < cats.len() ==> (#[trigger] cats[j]).len() == level_len(
                            views,
                            sources.len() - 1 - j,
                        ),
                    cats.len() == 0 ==> is_last_cat(last_cat@, sources[remaining as int]@),
                    cats.len() > 0 ==> is_last_cat(cats[0]@, sources[sources.len() - 1]@),
                    cats.len() > 0 ==> is_merged_cat(
                        last_cat@,
                        sources[remaining as int]@,
                        cats[cats.len() - 1]@,
                    ),
                    forall|j: int|
                        1 <= j < cats.len() ==> is_merged_cat(
                            (#[trigger] cats[j])@,
                            sources[sources.len() - 1 - j]@,
                            cats[j - 1]@,
                        ),
                    forall|i: int| 0 <= i < sources.len() ==> sorted((#[trigger] sources[i])@),
                    remaining < sources.len(),
                    cats.len() == sources.len() - 1 - remaining,
                    is_cat(last_cat@, sources[remaining as int]@),
                    forall|j: int|
                        0 <= j < cats.len() ==> is_cat(
                            (#[trigger] cats[j])@,
                            sources[sources.len() - 1 - j]@,
                        ),
                    forall|j: int|
                        1 <= j < cats.len() ==> cat_linked(
                            (#[trigger] cats[j])@,
                            cats[j - 1]@,
                        ),
                    cats.len() > 0 ==> cat_linked(last_cat@, cats[cats.len() - 1]@),
                decreases remaining,
            {
                remaining -= 1;
                let new_last_cat = cat_merged_with_src(
                    last_cat.as_slice(),
                    sources[remaining].as_slice(),
                );
                assert(new_last_cat.len() == level_len(views, remaining as int)) by {
                    assert(views[remaining as int] == sources[remaining as int]@);
                }
                cats.push(last_cat);
                last_cat = new_last_cat;
            }

            cats.push(last_cat);
        }
        let ghost built = cats@;
        let mut ordered: Vec<Vec<Node<T>>> = Vec::with_capacity(cats.len());
        while cats.len() > 0
            invariant
                built.len() == sources.len(),
                cats.len() + ordered.len() == built.len(),
                cats@ == built.take(cats.len() as int),
                forall|i: int|
                    0 <= i < ordered.len() ==> (#[trigger] ordered[i]) == built[built.len() - 1
                        - i],
            decreases cats.len(),
        {
            match cats.pop() {
                Some(cat) => ordered.push(cat),
                None => {},
            }
        }

        proof {
            let k = built.len() as int;
            assert forall|i: int| 0 <= i < ordered.len() implies is_cat(
                (#[trigger] ordered[i])@,
                views[i],
            ) by {
                assert(is_cat(built[built.len() - 1 - i]@, sources[i]@));
            }
            if k > 0 {
                assert(ordered[k - 1] == built[0]);
                assert(is_last_cat(built[0]@, sources[k - 1]@));
            }
            assert forall|i: int| 0 <= i && i + 1 < ordered.len() implies is_merged_cat(
                (#[trigger] ordered[i])@,
                views[i],
                ordered[i + 1]@,
            ) by {
                assert(is_merged_cat(built[k - 1 - i]@, sources[k - 1 - (k - 1 - i)]@, built[k - 1 - i - 1]@));
            }
            assert forall|i: int| 0 <= i < ordered.len() implies (#[trigger] ordered[i]).len()
                == level_len(views, i) by {
                assert(built[k - 1 - i].len() == level_len(views, k - 1 - (k - 1 - i)));
            }
            assert forall|i: int| 0 <= i && i + 1 < ordered.len() implies cat_linked(
                (#[trigger] ordered[i])@,
                ordered[i + 1]@,
            ) by {
                assert(cat_linked(built[built.len() - 1 - i]@, built[built.len() - 2 - i]@));
            }
        }
        Self { cats: ordered }
    }

    /// For each catalog, the number of its elements that are less than `key`, which is the
    /// index of the first element that is not less than `key`: one binary search in the
    /// first node list, then one comparison in each further list.
    pub fn search(&self, key: &T) -> (res: Vec<usize>)
        ensures
            forall|sources: Seq<Seq<T>>| #[trigger]
                self.indexes(sources) ==> {
                    &&& res.len() == sources.len()
                    &&& forall|i: int|
                        0 <= i < res.len() ==> #[trigger] res[i] == lower_bound(sources[i], *key)
                },
    {
        proof {
            use_type_invariant(self);
        }
        let mut res = Vec::with_capacity(self.cats.len());

        if self.cats.len() > 0 {
            let first_cat = &self.cats[0];
            assert(key_le(*key, first_cat@.last().val));
            let pos = partition_point(first_cat.as_slice(), key);
            let mut node = &first_cat[pos];
            let ghost mut at = pos as int;
            res.push(node.ncur);
            proof {
                assert forall|sources: Seq<Seq<T>>| #[trigger]
                    self.indexes(sources) implies res[0] == lower_bound(sources[0], *key) by {
                    assert(is_cat(self.cats[0]@, sources[0]));
                    lemma_first_counts(first_cat@, sources[0], *key, at);
                }
            }

            for i in 1..self.cats.len()
                invariant
                    self.wf(),
                    res.len() == i,
                    is_first(self.cats[i - 1]@, *key, at),
                    *node == self.cats[i - 1]@[at],
                    forall|sources: Seq<Seq<T>>, m: int| #[trigger]
                        self.indexes(sources) && 0 <= m < i ==> #[trigger] res[m] == lower_bound(
                            sources[m],
                            *key,
                        ),
            {
                let cat = &self.cats[i];
                proof {
                    assert(cat_linked((self.cats[i - 1])@, self.cats[i - 1 + 1]@));
                    lemma_first_below(self.cats[i - 1]@, cat@, *key, at);
                }
                if node.nnxt > 0 && le(key, &cat[node.nnxt - 1].val) {
                    proof {
                        at = node.nnxt - 1;
                    }
                    node = &cat[node.nnxt - 1];
                } else {
                    proof {
                        at = node.nnxt as int;
                    }
                    node = &cat[node.nnxt];
                }
                let ghost before = res@;
                res.push(node.ncur);
                proof {
                    assert forall|sources: Seq<Seq<T>>, m: int| #[trigger]
                        self.indexes(sources) && 0 <= m < i + 1 implies #[trigger] res[m]
                        == lower_bound(sources[m], *key) by {
                        if m < i {
                            assert(res[m] == before[m]);
                        } else {
                            assert(is_cat(self.cats[i as int]@, sources[i as int]));
                            lemma_first_counts(cat@, sources[i as int], *key, at);
                        }
                    }
                }
            }
        }
        res
    }
}

impl<T: BoundedKey> Clone for FCSearcher<T> {
    /// A searcher with the same node lists, which answers for the same catalogs.
    fn clone(&self) -> (copy: Self)
        ensures
            forall|sources: Seq<Seq<T>>| self.indexes(sources) ==> #[trigger] copy.indexes(sources),
            copy.list_lens() == self.list_lens(),
    {
        proof {
            use_type_invariant(self);
        }
        let mut cats: Vec<Vec<Node<T>>> = Vec::with_capacity(self.cats.len());
        for i in 0..self.cats.len()
            invariant
                cats.len() == i,
                forall|m: int| 0 <= m < i ==> (#[trigger] cats[m])@ == self.cats[m]@,
        {
            let cat = &self.cats[i];
            let mut nodes: Vec<Node<T>> = Vec::with_capacity(cat.len());
            for j in 0..cat.len()
                invariant
                    nodes@ == cat@.take(j as int),
            {
                nodes.push(cat[j]);
                assert(cat@.take(j + 1) == cat@.take(j as int).push(cat@[j as int]));
            }
            assert(nodes@ == cat@);
            cats.push(nodes);
        }
        Self { cats }
    }
}

} // verus!
