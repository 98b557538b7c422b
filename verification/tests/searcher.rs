use fractional_cascading::FCSearcher;

#[test]
fn no_catalogs() {
    let catalogs: Vec<Vec<_>> = Vec::new();
    let searcher = FCSearcher::new(&catalogs);
    assert_eq!(searcher.search(&0), &[]);
}

#[test]
fn empty_catalogs() {
    let catalogs = vec![vec![], vec![], vec![]];
    let searcher = FCSearcher::new(&catalogs);

    for key in 0..5 {
        assert_eq!(searcher.search(&key), &[0, 0, 0], "key: {key}");
    }
}

#[test]
fn single_catalog() {
    let catalogs = vec![vec![1, 3, 5, 7, 8, 9]];
    let searcher = FCSearcher::new(&catalogs);

    for key in 0..=10 {
        let ans = catalogs[0].partition_point(|num| num < &key);
        assert_eq!(searcher.search(&key)[0], ans, "key: {key}");
    }
}

#[test]
fn many_catalogs() {
    let catalogs = vec![vec![1, 3, 6, 10], vec![2, 4, 5, 7, 8, 9]];
    let searcher = FCSearcher::new(&catalogs);

    for key in 0..=11 {
        let ans1 = catalogs[0].partition_point(|num| num < &key);
        let ans2 = catalogs[1].partition_point(|num| num < &key);
        assert_eq!(
            searcher.search(&key),
            &[ans1, ans2],
            "key: {key}, searcher: {searcher:#?}"
        );
    }
}
