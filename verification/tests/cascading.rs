use fractional_cascading::FractionalCascading;

use rand::rngs::SmallRng;
use rand::{Rng, SeedableRng};

/// The index of the last element that is not greater than `key`, searched for in one catalog.
fn predecessor(catalog: &[i32], key: i32) -> Option<usize> {
    catalog.partition_point(|value| *value <= key).checked_sub(1)
}

fn predecessors(catalogs: &[Vec<i32>], key: i32) -> Vec<Option<usize>> {
    catalogs.iter().map(|catalog| predecessor(catalog, key)).collect()
}

#[test]
fn two_catalogs_key_inside() {
    let catalogs = vec![vec![1, 3, 6, 10], vec![2, 4, 5, 7, 8, 9]];
    let index = FractionalCascading::new(&catalogs);
    assert_eq!(index.search(&6), vec![Some(2), Some(2)]);
    assert_eq!(index.search(&1), vec![Some(0), None]);
}

#[test]
fn two_catalogs_shared_values() {
    let catalogs = vec![vec![1, 2, 4, 8], vec![0, 2, 4, 6]];
    let index = FractionalCascading::new(&catalogs);
    assert_eq!(index.search(&0), vec![None, Some(0)]);
    assert_eq!(index.search(&4), vec![Some(2), Some(2)]);
}

#[test]
fn every_answer_is_that_of_a_search_in_one_catalog() {
    let catalogs = vec![
        vec![1, 3, 6, 10],
        vec![],
        vec![2, 4, 5, 7, 8, 9],
        vec![5],
        vec![0, 0, 3, 3, 3, 11, 11],
        vec![-4, -2, 12],
        vec![6, 6, 6, 6],
    ];
    let index = FractionalCascading::new(&catalogs);
    for key in -6..=14 {
        assert_eq!(index.search(&key), predecessors(&catalogs, key), "key: {key}");
    }
}

#[test]
fn answers_do_not_move_left_as_the_key_grows() {
    let catalogs = vec![vec![1, 3, 3, 6, 10], vec![2, 4, 5, 7, 8, 9], vec![4]];
    let index = FractionalCascading::new(&catalogs);
    let rank = |found: Option<usize>| found.map_or(-1, |at| at as i64);
    let mut before = index.search(&-1);
    for key in 0..=12 {
        let found = index.search(&key);
        for (earlier, later) in before.iter().zip(found.iter()) {
            assert!(rank(*earlier) <= rank(*later), "key: {key}");
        }
        before = found;
    }
}

#[test]
fn keys_outside_a_catalog() {
    let catalogs = vec![vec![10, 20, 30], vec![40, 50], vec![5]];
    let index = FractionalCascading::new(&catalogs);
    assert_eq!(index.search(&4), vec![None, None, None]);
    assert_eq!(index.search(&5), vec![None, None, Some(0)]);
    assert_eq!(index.search(&39), vec![Some(2), None, Some(0)]);
    assert_eq!(index.search(&50), vec![Some(2), Some(1), Some(0)]);
    assert_eq!(index.search(&i32::MAX), vec![Some(2), Some(1), Some(0)]);
    assert_eq!(index.search(&i32::MIN), vec![None, None, None]);
}

#[test]
fn equal_elements_answer_with_the_last_of_them() {
    let catalogs = vec![vec![2, 2, 2], vec![1, 2, 2, 3], vec![2, 2]];
    let index = FractionalCascading::new(&catalogs);
    assert_eq!(index.search(&2), vec![Some(2), Some(2), Some(1)]);
    assert_eq!(index.search(&1), vec![None, Some(0), None]);
    assert_eq!(index.search(&3), vec![Some(2), Some(3), Some(1)]);
}

#[test]
fn repeated_searches_agree() {
    let catalogs = vec![vec![1, 3, 6, 10], vec![2, 4, 5, 7, 8, 9]];
    let index = FractionalCascading::new(&catalogs);
    let first = index.search(&7);
    let second = index.search(&7);
    assert_eq!(first, vec![Some(2), Some(3)]);
    assert_eq!(first, second);
    index.search(&0);
    assert_eq!(index.search(&7), first);
}

#[test]
fn no_catalogs_give_no_answers() {
    let catalogs: Vec<Vec<i32>> = Vec::new();
    let index = FractionalCascading::new(&catalogs);
    assert_eq!(index.search(&0), Vec::<Option<usize>>::new());
}

#[test]
fn an_empty_catalog_among_others() {
    let catalogs = vec![vec![], vec![1, 2], vec![], vec![], vec![0, 7]];
    let index = FractionalCascading::new(&catalogs);
    assert_eq!(index.search(&1), vec![None, Some(0), None, None, Some(0)]);
    assert_eq!(index.search(&9), vec![None, Some(1), None, None, Some(1)]);
    assert_eq!(index.search(&-1), vec![None, None, None, None, None]);

    let only_empty: Vec<Vec<i32>> = vec![vec![], vec![]];
    let index = FractionalCascading::new(&only_empty);
    assert_eq!(index.search(&3), vec![None, None]);
}

#[test]
fn one_catalog() {
    let catalogs = vec![vec![1, 3, 5, 7, 8, 9]];
    let index = FractionalCascading::new(&catalogs);
    let expected = [None, Some(0), Some(0), Some(1), Some(1), Some(2), Some(2), Some(3), Some(4), Some(5), Some(5)];
    for key in 0..=10 {
        assert_eq!(index.search(&key), vec![expected[key as usize]], "key: {key}");
    }
}

#[test]
fn other_key_types() {
    let words = vec![vec!["apple", "fig", "pear"], vec!["banana", "fig"]];
    let index = FractionalCascading::new(&words);
    assert_eq!(index.search(&"fig"), vec![Some(1), Some(1)]);
    assert_eq!(index.search(&"cherry"), vec![Some(0), Some(0)]);
    assert_eq!(index.search(&"aardvark"), vec![None, None]);

    let pairs = vec![vec![(0u8, 5u64), (1, 0), (1, 9)], vec![(1, 1)]];
    let index = FractionalCascading::new(&pairs);
    assert_eq!(index.search(&(1, 1)), vec![Some(1), Some(0)]);
}

#[test]
fn random_catalogs_against_a_search_in_each() {
    let mut rng = SmallRng::seed_from_u64(0x5eed_cafe);
    for round in 0..40 {
        let n_catalogs = rng.gen_range(0..=30);
        let mut catalogs: Vec<Vec<i32>> = Vec::with_capacity(n_catalogs);
        for _ in 0..n_catalogs {
            let len = rng.gen_range(0..=60);
            let mut catalog: Vec<i32> = (0..len).map(|_| rng.gen_range(-100..=100)).collect();
            catalog.sort();
            catalogs.push(catalog);
        }
        let index = FractionalCascading::new(&catalogs);
        for key in -110..=110 {
            assert_eq!(
                index.search(&key),
                predecessors(&catalogs, key),
                "round: {round}, key: {key}"
            );
        }
    }
}
