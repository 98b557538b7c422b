use fractional_cascading::node::{merge_catalog_with_augmented, Node, NodeData};

fn plain_level(catalog: &[i32]) -> Vec<Node<'_, i32>> {
    let mut level = vec![Node::fake(catalog)];
    for index in 0..catalog.len() {
        level.push(Node::real_at(index, 0));
    }
    level
}

#[test]
fn constructors_set_the_fields() {
    let node: Node<i32> = Node::real_at(4, 2);
    assert!(matches!(node.data, NodeData::Real(4)));
    assert_eq!((node.prev, node.bridge), (2, 0));

    let value = 17;
    let node = Node::synthetic(&value, 3, 9);
    assert!(matches!(node.data, NodeData::Synthetic(&17)));
    assert_eq!((node.prev, node.bridge), (3, 9));

    let catalog = [1, 2, 3];
    let node = Node::fake(&catalog);
    assert!(matches!(node.data, NodeData::Fake(&[1, 2, 3])));
    assert_eq!((node.prev, node.bridge), (0, 0));
}

#[test]
fn only_real_nodes_are_real() {
    let value = 1;
    let catalog = [1];
    assert!(Node::<i32>::real_at(0, 0).is_real());
    assert!(!Node::synthetic(&value, 0, 1).is_real());
    assert!(!Node::fake(&catalog).is_real());
}

#[test]
fn value_of_each_kind_of_node() {
    let catalog = [10, 20, 30];
    let promoted = 25;
    let fake = Node::fake(&catalog);
    assert_eq!(Node::real_at(1, 0).value(&fake), Some(&20));
    assert_eq!(Node::real_at(2, 0).value(&fake), Some(&30));
    assert_eq!(Node::synthetic(&promoted, 0, 1).value(&fake), Some(&25));
    assert_eq!(fake.value(&fake), None);
}

#[test]
fn closest_real_index_follows_prev() {
    let catalog = [10, 20];
    let promoted = [5, 15, 16];
    let level = vec![
        Node::fake(&catalog),
        Node::synthetic(&promoted[0], 0, 1),
        Node::real_at(0, 1),
        Node::synthetic(&promoted[1], 2, 3),
        Node::synthetic(&promoted[2], 2, 5),
        Node::real_at(1, 4),
    ];
    let found: Vec<_> = level.iter().map(|node| node.closest_real_index(&level)).collect();
    assert_eq!(found, vec![None, None, Some(0), Some(0), Some(0), Some(1)]);

    // a synthetic node whose `prev` names another synthetic node resolves through it
    let chained = Node::synthetic(&promoted[2], 3, 5);
    assert_eq!(chained.closest_real_index(&level), Some(0));
    let chained = Node::synthetic(&promoted[0], 1, 1);
    assert_eq!(chained.closest_real_index(&level), None);
}

#[test]
fn merge_emits_the_level() {
    let below = [2, 4, 5, 7, 8, 9];
    let catalog = [1, 3, 6, 10];
    let augmented = plain_level(&below);
    let level = merge_catalog_with_augmented(&catalog, &augmented);

    let shape: Vec<(Option<usize>, Option<i32>, usize, usize)> = level
        .iter()
        .map(|node| match node.data {
            NodeData::Real(index) => (Some(index), None, node.prev, node.bridge),
            NodeData::Synthetic(value) => (None, Some(*value), node.prev, node.bridge),
            NodeData::Fake(_) => (None, None, node.prev, node.bridge),
        })
        .collect();
    assert_eq!(
        shape,
        vec![
            (None, None, 0, 0),
            (Some(0), None, 0, 0),
            (None, Some(2), 1, 1),
            (Some(1), None, 2, 0),
            (None, Some(5), 3, 3),
            (Some(2), None, 4, 0),
            (None, Some(8), 5, 5),
            (Some(3), None, 6, 0),
        ]
    );
    assert!(matches!(level[0].data, NodeData::Fake(&[1, 3, 6, 10])));
}

#[test]
fn merge_puts_equal_elements_after_the_copy() {
    let below = [3, 3, 4];
    let catalog = [3, 3];
    let augmented = plain_level(&below);
    let level = merge_catalog_with_augmented(&catalog, &augmented);
    let kinds: Vec<&str> = level
        .iter()
        .map(|node| match node.data {
            NodeData::Real(_) => "real",
            NodeData::Synthetic(_) => "synthetic",
            NodeData::Fake(_) => "fake",
        })
        .collect();
    assert_eq!(kinds, vec!["fake", "synthetic", "real", "real", "synthetic"]);
    assert_eq!(level[1].bridge, 1);
    assert_eq!(level[4].bridge, 3);
    assert_eq!((level[2].prev, level[3].prev, level[4].prev), (1, 1, 3));
}

#[test]
fn merge_with_nothing_to_promote_or_nothing_to_add() {
    let nothing: [i32; 0] = [];
    let catalog = [1, 2];

    let augmented = plain_level(&nothing);
    let level = merge_catalog_with_augmented(&catalog, &augmented);
    assert_eq!(level.len(), 3);
    assert!(level[1].is_real() && level[2].is_real());

    let augmented = plain_level(&catalog);
    let level = merge_catalog_with_augmented(&nothing, &augmented);
    assert_eq!(level.len(), 2);
    assert!(matches!(level[1].data, NodeData::Synthetic(&1)));
    assert_eq!((level[1].prev, level[1].bridge), (0, 1));
}

#[test]
fn closest_real_index_of_a_real_node_or_a_sentinel_reads_no_level() {
    let catalog = [10, 20];
    let nothing: Vec<Node<'_, i32>> = Vec::new();
    assert_eq!(Node::<i32>::real_at(3, 7).closest_real_index(&nothing), Some(3));
    assert_eq!(Node::fake(&catalog).closest_real_index(&nothing), None);

    // a level whose synthetic nodes point forward is no obstacle either
    let promoted = 5;
    let tangled = vec![Node::synthetic(&promoted, 1, 1), Node::synthetic(&promoted, 0, 1)];
    assert_eq!(Node::<i32>::real_at(1, 0).closest_real_index(&tangled), Some(1));
}
