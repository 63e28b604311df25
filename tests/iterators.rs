use lsmdb::compaction::{Compaction, MergeingIterator, TwoLevelIterator};

#[test]
fn test_two_level_iterator() {
    let expecteds = vec![4, 5, 1, 2, 3, 7, 8, 9];
    let v = vec![vec![4, 5], vec![1, 2, 3], vec![7, 8, 9], vec![]];
    let mut actuals = TwoLevelIterator::new(v);

    for e in expecteds {
        assert_eq!(Some(e), actuals.next());
    }
    assert_eq!(None, actuals.next());
}

#[test]
fn mergeing_iterator() {
    let expecteds = vec![1, 2, 4, 5, 6, 7, 8, 10, 20, 30, 40, 55, 100];
    let v = vec![
        vec![1, 5, 10, 20, 30, 40],
        vec![2, 4, 6, 8],
        vec![7, 55, 100],
        vec![],
    ];
    let mut actuals = MergeingIterator::new(v);

    for e in expecteds {
        assert_eq!(Some(e), actuals.next());
    }
    assert_eq!(None, actuals.next());
}

#[test]
fn empty_mergeing_iterator() {
    let v: Vec<Vec<u64>> = vec![vec![]];
    let mut actuals = MergeingIterator::new(v);
    assert_eq!(actuals.next(), None)
}

#[test]
fn empty_outer_mergeing_iterator() {
    let v: Vec<Vec<u64>> = vec![];
    let mut actuals = MergeingIterator::new(v);
    assert_eq!(actuals.next(), None)
}

#[test]
fn compaction_has_every_level() {
    let c = Compaction::new(3);
    assert_eq!(c.level, 3);
    assert_eq!(c.inputs.len(), 12);
    assert!(c.inputs.iter().all(|l| l.is_empty()));
}
