use kodama::{argmin, Active, CondensedMatrix};

/// Dissimilarities are held in hundredths.
fn units(x: f64) -> u64 {
    (x * 100.0).round() as u64
}

#[test]
fn argmin_zero() {
    let data: Vec<u64> = vec![];
    let mat = CondensedMatrix::new(data, 0);
    assert!(argmin(&mat, &Active::with_len(0)).is_none());
}

#[test]
fn argmin_smallest() {
    let data = vec![units(1.0)];
    let mat = CondensedMatrix::new(data, 2);
    assert_eq!(argmin(&mat, &Active::with_len(2)).unwrap(), (0, 1, units(1.0)));
}

#[test]
fn argmin_simple() {
    let data: Vec<u64> = [0.1, 0.2, 0.3, 0.4, 1.2, 0.01, 1.4, 2.3, 2.4, 3.4].iter().map(|x| units(*x)).collect();
    let mat = CondensedMatrix::new(data, 5);
    assert_eq!(argmin(&mat, &Active::with_len(5)).unwrap(), (1, 3, units(0.01)));
}

#[test]
fn condensed_indexing() {
    let data: Vec<u64> = (0..10).collect();
    let mut mat = CondensedMatrix::new(data, 5);
    assert_eq!(mat.observations(), 5);
    assert_eq!(mat.get(0, 1), 0);
    assert_eq!(mat.get(0, 4), 3);
    assert_eq!(mat.get(1, 2), 4);
    assert_eq!(mat.get(2, 4), 8);
    assert_eq!(mat.get(3, 4), 9);
    mat.set(1, 3, 42);
    assert_eq!(mat.get(1, 3), 42);
    assert_eq!(mat.get_sym(3, 1), 42);
    assert_eq!(mat.into_data(), vec![0, 1, 2, 3, 4, 42, 6, 7, 8, 9]);
}

#[test]
fn condensed_single_observation_has_none() {
    let mat = CondensedMatrix::new(vec![], 1);
    assert_eq!(mat.observations(), 0);
}

#[test]
fn argmin_takes_the_first_of_equal_minima() {
    let data = vec![5, 3, 3, 3, 9, 3];
    let mat = CondensedMatrix::new(data, 4);
    assert_eq!(argmin(&mat, &Active::with_len(4)).unwrap(), (0, 2, 3));
}
