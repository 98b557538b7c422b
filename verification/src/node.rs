//! The nodes of an augmented catalog.

use crate::catalog::sorted;
use crate::level::{
    bridges, building, following_bridge, is_level, is_linked, lemma_push_real,
    lemma_push_synthetic, node_in_place, promotes_following, value_at,
};
use crate::order::{key_le, key_lt, lt, total_order};
use vstd::prelude::*;

verus! {

/// What a node of an augmented catalog stands for.
#[derive(Debug)]
pub enum NodeData<'a, T> {
    /// An element of the level's own catalog, by its index there.
    Real(usize),
    /// An element promoted from the next level.
    Synthetic(&'a T),
    /// The sentinel in front of a level. It stands for no element and carries the level's
    /// catalog.
    Fake(&'a [T]),
}

/// One slot of an augmented catalog.
#[derive(Debug)]
pub struct Node<'a, T> {
    pub data: NodeData<'a, T>,
    /// Index of an earlier node of the same level.
    pub prev: usize,
    /// Index of a node of the next level.
    pub bridge: usize,
}

impl<'a, T> Node<'a, T> {
    pub fn real_at(data: usize, prev: usize) -> (node: Self)
        ensures
            node.data == NodeData::<T>::Real(data),
            node.prev == prev,
            node.bridge == 0,
    {
        Self { data: NodeData::Real(data), prev, bridge: 0 }
    }

    pub fn synthetic(data: &'a T, prev: usize, bridge: usize) -> (node: Self)
        ensures
            node.data == NodeData::Synthetic(data),
            node.prev == prev,
            node.bridge == bridge,
    {
        Self { data: NodeData::Synthetic(data), prev, bridge }
    }

    pub fn fake(catalog: &'a [T]) -> (node: Self)
        ensures
            node.data == NodeData::Fake(catalog),
            node.prev == 0,
            node.bridge == 0,
    {
        Self { data: NodeData::Fake(catalog), prev: 0, bridge: 0 }
    }

    pub fn is_real(&self) -> (r: bool)
        ensures
            r == (self.data is Real),
    {
        matches!(self.data, NodeData::Real(_))
    }

    /// The catalog that a sentinel carries; empty for any other node.
    pub open spec fn catalog(self) -> Seq<T> {
        match self.data {
            NodeData::Fake(catalog) => catalog@,
            _ => Seq::empty(),
        }
    }

    /// The element that the node stands for in a level whose sentinel is `fake_node`.
    pub open spec fn spec_value(self, fake_node: Self) -> Option<T> {
        match self.data {
            NodeData::Real(index) => Some(fake_node.catalog()[index as int]),
            NodeData::Synthetic(data) => Some(*data),
            NodeData::Fake(_) => None,
        }
    }

    pub fn value(&self, fake_node: &Node<'a, T>) -> (r: Option<&'a T>)
        requires
            fake_node.data is Fake,
            self.data matches NodeData::Real(index) ==> index < fake_node.catalog().len(),
        ensures
            match r {
                Some(v) => self.spec_value(*fake_node) == Some(*v),
                None => self.spec_value(*fake_node) is None,
            },
    {
        match fake_node.data {
            NodeData::Fake(catalog) => match self.data {
                NodeData::Real(index) => Some(&catalog[index]),
                NodeData::Synthetic(data) => Some(data),
                NodeData::Fake(_) => None,
            },
            _ => None,
        }
    }

    /// The catalog index of the nearest real node at or before this one, found by following
    /// `prev` through synthetic nodes; `None` where that ends at a sentinel.
    pub open spec fn spec_closest_real_index(self, augmented: Seq<Node<'a, T>>) -> Option<usize>
        decreases self.prev,
    {
        match self.data {
            NodeData::Real(index) => Some(index),
            NodeData::Fake(_) => None,
            NodeData::Synthetic(_) => if self.prev < augmented.len() {
                let before = augmented[self.prev as int];
                match before.data {
                    NodeData::Real(index) => Some(index),
                    NodeData::Fake(_) => None,
                    NodeData::Synthetic(_) => if before.prev < self.prev {
                        before.spec_closest_real_index(augmented)
                    } else {
                        None
                    },
                }
            } else {
                None
            },
        }
    }

    pub fn closest_real_index(&self, augmented: &[Node<'a, T>]) -> (r: Option<usize>)
        requires
            self.data is Synthetic ==> links_descend(augmented@) && self.prev < augmented.len(),
        ensures
            r == self.spec_closest_real_index(augmented@),
    {
        let mut node = self;
        loop
            invariant
                node.data is Synthetic ==> links_descend(augmented@) && node.prev
                    < augmented.len(),
                node.spec_closest_real_index(augmented@) == self.spec_closest_real_index(
                    augmented@,
                ),
            decreases node.prev,
        {
            match node.data {
                NodeData::Real(index) => {
                    return Some(index);
                },
                NodeData::Fake(_) => {
                    return None;
                },
                NodeData::Synthetic(_) => {
                    let before = &augmented[node.prev];
                    match before.data {
                        NodeData::Real(index) => {
                            return Some(index);
                        },
                        NodeData::Fake(_) => {
                            return None;
                        },
                        NodeData::Synthetic(_) => {
                            node = before;
                        },
                    }
                },
            }
        }
    }
}

/// Every synthetic node of `augmented` points back to a strictly earlier node, so that
/// following `prev` from any node ends.
pub open spec fn links_descend<'a, T>(augmented: Seq<Node<'a, T>>) -> bool {
    forall|j: int|
        0 <= j < augmented.len() && (#[trigger] augmented[j]).data is Synthetic
            ==> augmented[j].prev < j
}

/// Builds the augmented level of `catalog` over `augmented`, the augmented level of the next
/// catalog: the sentinel, then the elements of `catalog` merged with a copy of every second
/// node of `augmented`, starting with node 1. An element of the catalog that equals a
/// promoted value comes after the copy.
pub fn merge_catalog_with_augmented<'a, T: Ord>(
    catalog: &'a [T],
    augmented: &[Node<'a, T>],
) -> (result: Vec<Node<'a, T>>)
    requires
        total_order::<T>(),
        sorted(catalog@),
        augmented.len() >= 1,
        is_level(augmented@, augmented@[0].catalog()),
    ensures
        is_level(result@, catalog@),
        is_linked(result@, augmented@),
        result.len() == catalog.len() + augmented.len() / 2 + 1,
{
    let catalog_len = catalog.len();
    let augmented_len = augmented.len();

    let mut result = Vec::with_capacity(
        catalog_len.saturating_add(augmented_len / 2).saturating_add(1),
    );
    result.push(Node::fake(catalog));

    let mut last_real: usize = 0;
    let mut last_synthetic: usize = 0;
    let mut catalog_index: usize = 0;
    let mut augmented_index: usize = 1;
    let ghost mut copies: int = 0;

    while augmented_index < augmented_len
        invariant_except_break
            following_bridge(result@, last_synthetic as int) == augmented_index,
            augmented_index == 2 * copies + 1,
        invariant
            result.len() == 1 + catalog_index + copies,
            total_order::<T>(),
            sorted(catalog@),
            is_level(augmented@, augmented@[0].catalog()),
            catalog_len == catalog.len(),
            augmented_len == augmented.len(),
            building(
                result@,
                catalog@,
                augmented@,
                catalog_index as int,
                last_real as int,
                last_synthetic as int,
            ),
            last_synthetic == result.len() - 1,
        ensures
            following_bridge(result@, last_synthetic as int) >= augmented_len,
            augmented_len == 2 * copies || augmented_len == 2 * copies + 1,
        decreases augmented_len - augmented_index,
    {
        let node = &augmented[augmented_index];
        assert(node_in_place(augmented@, augmented@[0].catalog(), augmented_index as int));
        match node.value(&augmented[0]) {
            Some(promoted) => {
                assert(*promoted == value_at(augmented@, augmented_index as int));
                proof {
                    if result.len() > 1 {
                        let s = last_synthetic as int;
                        assert(node_in_place(result@, catalog@, s));
                        assert(bridges(result@, augmented@, s));
                        assert(key_le(
                            value_at(augmented@, result@[s].bridge as int),
                            value_at(augmented@, augmented_index as int),
                        ));
                    }
                }
                while catalog_index < catalog_len && lt(&catalog[catalog_index], promoted)
                    invariant
                        total_order::<T>(),
                        sorted(catalog@),
                        catalog_len == catalog.len(),
                        building(
                            result@,
                            catalog@,
                            augmented@,
                            catalog_index as int,
                            last_real as int,
                            last_synthetic as int,
                        ),
                        following_bridge(result@, last_synthetic as int) == augmented_index,
                        result.len() == 1 + catalog_index + copies,
                        result.len() > 1 ==> key_le(
                            value_at(result@, result.len() - 1),
                            *promoted,
                        ),
                        catalog_index > 0 ==> key_lt(
                            catalog@[catalog_index - 1],
                            *promoted,
                        ),
                    decreases catalog_len - catalog_index,
                {
                    let own = Node::real_at(catalog_index, last_synthetic);
                    proof {
                        lemma_push_real(
                            result@,
                            catalog@,
                            augmented@,
                            catalog_index as int,
                            last_real as int,
                            last_synthetic as int,
                            own,
                        );
                    }
                    result.push(own);
                    catalog_index += 1;
                    last_real = result.len() - 1;
                }
                let synthetic = Node::synthetic(promoted, last_real, augmented_index);
                proof {
                    lemma_push_synthetic(
                        result@,
                        catalog@,
                        augmented@,
                        catalog_index as int,
                        last_real as int,
                        last_synthetic as int,
                        synthetic,
                    );
                }
                result.push(synthetic);
                last_synthetic = result.len() - 1;
                proof {
                    copies = copies + 1;
                }
            },
            None => {},
        }
        if augmented_len - augmented_index <= 2 {
            break ;
        }
        augmented_index += 2;
    }

    let ghost mut newest_real = last_real as int;
    while catalog_index < catalog_len
        invariant
            total_order::<T>(),
            sorted(catalog@),
            catalog_len == catalog.len(),
            building(
                result@,
                catalog@,
                augmented@,
                catalog_index as int,
                newest_real,
                last_synthetic as int,
            ),
            following_bridge(result@, last_synthetic as int) >= augmented.len(),
            result.len() == 1 + catalog_index + copies,
        decreases catalog_len - catalog_index,
    {
        let own = Node::real_at(catalog_index, last_synthetic);
        proof {
            lemma_push_real(
                result@,
                catalog@,
                augmented@,
                catalog_index as int,
                newest_real,
                last_synthetic as int,
                own,
            );
            newest_real = result.len() as int;
        }
        result.push(own);
        catalog_index += 1;
    }

    assert(copies == augmented_len / 2);
    proof {
        let s = last_synthetic as int;
        assert forall|t: int| 0 <= t < result.len() && !((#[trigger] result@[t]).data is Real) implies promotes_following(
            result@,
            augmented@,
            t,
        ) by {
            if t > s {
                assert(result@[t].data is Real);
            }
        }
    }
    result
}

} // verus!
