use fractional_cascading::bounded::BoundedKey;
use fractional_cascading::catalog::is_sorted;
use fractional_cascading::order::{le, lt, same};
use fractional_cascading::FCSearcher;

#[test]
fn comparisons() {
    assert!(le(&1, &2) && le(&2, &2) && !le(&3, &2));
    assert!(lt(&1, &2) && !lt(&2, &2) && !lt(&3, &2));
    assert!(same(&2, &2) && !same(&1, &2) && !same(&2, &1));
    assert!(le(&"a", &"b") && lt(&"a", &"b") && !same(&"a", &"b"));
}

#[test]
fn sortedness() {
    assert!(is_sorted::<i32>(&[]));
    assert!(is_sorted(&[7]));
    assert!(is_sorted(&[1, 1, 2, 5, 5]));
    assert!(!is_sorted(&[1, 3, 2]));
    assert!(!is_sorted(&[2, 1]));
    assert!(!is_sorted(&[1, 2, 3, 0]));
}

#[test]
fn largest_values() {
    assert_eq!(<i8 as BoundedKey>::max_value(), i8::MAX);
    assert_eq!(<i16 as BoundedKey>::max_value(), i16::MAX);
    assert_eq!(<i32 as BoundedKey>::max_value(), i32::MAX);
    assert_eq!(<i64 as BoundedKey>::max_value(), i64::MAX);
    assert_eq!(<i128 as BoundedKey>::max_value(), i128::MAX);
    assert_eq!(<isize as BoundedKey>::max_value(), isize::MAX);
    assert_eq!(<u8 as BoundedKey>::max_value(), u8::MAX);
    assert_eq!(<u16 as BoundedKey>::max_value(), u16::MAX);
    assert_eq!(<u32 as BoundedKey>::max_value(), u32::MAX);
    assert_eq!(<u64 as BoundedKey>::max_value(), u64::MAX);
    assert_eq!(<u128 as BoundedKey>::max_value(), u128::MAX);
    assert_eq!(<usize as BoundedKey>::max_value(), usize::MAX);
}

#[test]
fn searcher_counts_the_smaller_elements() {
    let catalogs = vec![vec![1, 3, 6, 10], vec![], vec![2, 4, 5, 7, 8, 9], vec![3, 3, 3], vec![0, 6, 6, 12]];
    let searcher = FCSearcher::new(&catalogs);
    assert_eq!(searcher.search(&6), vec![2, 0, 3, 3, 1]);
    assert_eq!(searcher.search(&3), vec![1, 0, 1, 0, 1]);
    assert_eq!(searcher.search(&-5), vec![0, 0, 0, 0, 0]);
    assert_eq!(searcher.search(&13), vec![4, 0, 6, 3, 4]);
    for key in -2..=14 {
        let expected: Vec<usize> =
            catalogs.iter().map(|catalog| catalog.partition_point(|value| *value < key)).collect();
        assert_eq!(searcher.search(&key), expected, "key: {key}");
    }
}

#[test]
fn searcher_at_the_largest_key() {
    let catalogs = vec![vec![1u8, 255, 255], vec![255], vec![0, 254], vec![]];
    let searcher = FCSearcher::new(&catalogs);
    assert_eq!(searcher.search(&255), vec![1, 0, 2, 0]);
    assert_eq!(searcher.search(&254), vec![1, 0, 1, 0]);
    assert_eq!(searcher.search(&0), vec![0, 0, 0, 0]);

    let catalogs = vec![vec![i64::MIN, 0, i64::MAX], vec![i64::MAX, i64::MAX]];
    let searcher = FCSearcher::new(&catalogs);
    assert_eq!(searcher.search(&i64::MAX), vec![2, 0]);
    assert_eq!(searcher.search(&i64::MIN), vec![0, 0]);
    assert_eq!(searcher.search(&1), vec![2, 0]);
}

#[test]
fn searcher_answers_do_not_move_left_as_the_key_grows() {
    let catalogs = vec![vec![1, 3, 3, 6, 10], vec![2, 4, 5, 7, 8, 9], vec![4]];
    let searcher = FCSearcher::new(&catalogs);
    let mut before = searcher.search(&-1);
    for key in 0..=12 {
        let found = searcher.search(&key);
        for (earlier, later) in before.iter().zip(found.iter()) {
            assert!(earlier <= later, "key: {key}");
        }
        before = found;
    }
}

#[test]
fn a_cloned_searcher_answers_alike() {
    let catalogs = vec![vec![1, 3, 6, 10], vec![2, 4, 5, 7, 8, 9]];
    let searcher = FCSearcher::new(&catalogs);
    let copy = searcher.clone();
    drop(searcher);
    assert_eq!(copy.search(&6), vec![2, 3]);
    assert_eq!(copy.search(&11), vec![4, 6]);
}
