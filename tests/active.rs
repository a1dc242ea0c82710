use kodama::Active;
use std::ops::Range;

fn items(active: &Active) -> Vec<usize> {
    active.iter().to_vec()
}

fn items_range(active: &Active, range: Range<usize>) -> Vec<usize> {
    active.range(range.start, range.end).to_vec()
}

#[test]
fn contains() {
    let mut a = Active::with_len(10);
    for i in 0..10 {
        assert!(a.contains(i));
    }
    a.remove(0);
    assert!(!a.contains(0));
    a.remove(5);
    assert!(!a.contains(5));
}

#[test]
fn iter() {
    let mut a = Active::with_len(5);
    assert_eq!(items(&a), vec![0, 1, 2, 3, 4]);

    a.remove(2);
    assert_eq!(items(&a), vec![0, 1, 3, 4]);

    a.remove(4);
    assert_eq!(items(&a), vec![0, 1, 3]);

    a.remove(0);
    assert_eq!(items(&a), vec![1, 3]);

    a.remove(3);
    assert_eq!(items(&a), vec![1]);

    a.remove(1);
    assert_eq!(items(&a), Vec::<usize>::new());
}

#[test]
fn iter_range() {
    let mut a = Active::with_len(5);
    assert_eq!(items_range(&a, 0..5), vec![0, 1, 2, 3, 4]);
    assert_eq!(items_range(&a, 0..1), vec![0]);
    assert_eq!(items_range(&a, 1..3), vec![1, 2]);
    assert_eq!(items_range(&a, 2..5), vec![2, 3, 4]);
    assert_eq!(items_range(&a, 3..5), vec![3, 4]);
    assert_eq!(items_range(&a, 4..5), vec![4]);
    assert_eq!(items_range(&a, 0..0), Vec::<usize>::new());
    assert_eq!(items_range(&a, 1..1), Vec::<usize>::new());
    assert_eq!(items_range(&a, 5..5), Vec::<usize>::new());

    a.remove(2);
    assert_eq!(items_range(&a, 0..5), vec![0, 1, 3, 4]);
    assert_eq!(items_range(&a, 0..1), vec![0]);
    assert_eq!(items_range(&a, 1..3), vec![1]);
    assert_eq!(items_range(&a, 2..5), vec![3, 4]);
    assert_eq!(items_range(&a, 3..5), vec![3, 4]);
    assert_eq!(items_range(&a, 4..5), vec![4]);
    assert_eq!(items_range(&a, 0..0), Vec::<usize>::new());
    assert_eq!(items_range(&a, 1..1), Vec::<usize>::new());
    assert_eq!(items_range(&a, 5..5), Vec::<usize>::new());

    a.remove(4);
    assert_eq!(items_range(&a, 0..5), vec![0, 1, 3]);
    assert_eq!(items_range(&a, 0..1), vec![0]);
    assert_eq!(items_range(&a, 1..3), vec![1]);
    assert_eq!(items_range(&a, 2..5), vec![3]);
    assert_eq!(items_range(&a, 3..5), vec![3]);
    assert_eq!(items_range(&a, 4..5), Vec::<usize>::new());
    assert_eq!(items_range(&a, 0..0), Vec::<usize>::new());
    assert_eq!(items_range(&a, 1..1), Vec::<usize>::new());
    assert_eq!(items_range(&a, 5..5), Vec::<usize>::new());

    a.remove(0);
    assert_eq!(items_range(&a, 0..5), vec![1, 3]);
    assert_eq!(items_range(&a, 0..1), Vec::<usize>::new());
    assert_eq!(items_range(&a, 1..3), vec![1]);
    assert_eq!(items_range(&a, 2..5), vec![3]);
    assert_eq!(items_range(&a, 3..5), vec![3]);
    assert_eq!(items_range(&a, 4..5), Vec::<usize>::new());
    assert_eq!(items_range(&a, 0..0), Vec::<usize>::new());
    assert_eq!(items_range(&a, 1..1), Vec::<usize>::new());
    assert_eq!(items_range(&a, 5..5), Vec::<usize>::new());

    a.remove(3);
    assert_eq!(items_range(&a, 0..5), vec![1]);
    assert_eq!(items_range(&a, 0..1), Vec::<usize>::new());
    assert_eq!(items_range(&a, 1..3), vec![1]);
    assert_eq!(items_range(&a, 2..5), Vec::<usize>::new());
    assert_eq!(items_range(&a, 3..5), Vec::<usize>::new());
    assert_eq!(items_range(&a, 4..5), Vec::<usize>::new());
    assert_eq!(items_range(&a, 0..0), Vec::<usize>::new());
    assert_eq!(items_range(&a, 1..1), Vec::<usize>::new());
    assert_eq!(items_range(&a, 5..5), Vec::<usize>::new());

    a.remove(1);
    assert_eq!(items_range(&a, 0..5), Vec::<usize>::new());
    assert_eq!(items_range(&a, 0..1), Vec::<usize>::new());
    assert_eq!(items_range(&a, 1..3), Vec::<usize>::new());
    assert_eq!(items_range(&a, 2..5), Vec::<usize>::new());
    assert_eq!(items_range(&a, 3..5), Vec::<usize>::new());
    assert_eq!(items_range(&a, 4..5), Vec::<usize>::new());
    assert_eq!(items_range(&a, 0..0), Vec::<usize>::new());
    assert_eq!(items_range(&a, 1..1), Vec::<usize>::new());
    assert_eq!(items_range(&a, 5..5), Vec::<usize>::new());
}

#[test]
fn remove_twice_is_a_no_op() {
    let mut a = Active::with_len(4);
    a.remove(1);
    a.remove(1);
    assert_eq!(items(&a), vec![0, 2, 3]);
    assert!(a.contains(0) && a.contains(2) && a.contains(3));
}

#[test]
fn range_starting_on_removed_element() {
    let mut a = Active::with_len(8);
    a.remove(3);
    a.remove(4);
    a.remove(6);
    assert_eq!(items_range(&a, 3..8), vec![5, 7]);
    assert_eq!(items_range(&a, 4..6), vec![5]);
}

#[test]
fn empty_list() {
    let a = Active::new();
    assert_eq!(items(&a), Vec::<usize>::new());
    let b = Active::with_len(0);
    assert_eq!(items(&b), Vec::<usize>::new());
}
