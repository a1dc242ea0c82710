use kodama::{Dendrogram, LinkageUnionFind, Method, Step};

/// Dissimilarities are held in thousandths.
fn units(x: f64) -> u64 {
    (x * 1000.0).round() as u64
}

#[test]
fn trivial_find() {
    let mut set = LinkageUnionFind::with_len(5);
    // In the trivial set, each member is its own cluster.
    for i in 0..5 {
        assert_eq!(i, set.find(i));
    }
}

#[test]
fn find_with_unions() {
    let mut set = LinkageUnionFind::with_len(5);

    set.union(1, 3);
    assert_eq!(0, set.find(0));
    assert_eq!(5, set.find(1));
    assert_eq!(2, set.find(2));
    assert_eq!(5, set.find(3));
    assert_eq!(4, set.find(4));
    assert_eq!(5, set.find(5));

    set.union(5, 2);
    assert_eq!(0, set.find(0));
    assert_eq!(6, set.find(1));
    assert_eq!(6, set.find(2));
    assert_eq!(6, set.find(3));
    assert_eq!(4, set.find(4));
    assert_eq!(6, set.find(5));
    assert_eq!(6, set.find(6));

    set.union(0, 4);
    assert_eq!(7, set.find(0));
    assert_eq!(6, set.find(1));
    assert_eq!(6, set.find(2));
    assert_eq!(6, set.find(3));
    assert_eq!(7, set.find(4));
    assert_eq!(6, set.find(5));
    assert_eq!(6, set.find(6));
    assert_eq!(7, set.find(7));

    set.union(6, 7);
    assert_eq!(8, set.find(0));
    assert_eq!(8, set.find(1));
    assert_eq!(8, set.find(2));
    assert_eq!(8, set.find(3));
    assert_eq!(8, set.find(4));
    assert_eq!(8, set.find(5));
    assert_eq!(8, set.find(6));
    assert_eq!(8, set.find(7));
}

#[test]
fn find_with_unions_all_at_once() {
    let mut set = LinkageUnionFind::with_len(5);

    set.union(1, 3);
    set.union(5, 2);
    set.union(0, 4);
    set.union(6, 7);

    // The set is now full, so everything should be in the same cluster.
    assert_eq!(8, set.find(0));
    assert_eq!(8, set.find(1));
    assert_eq!(8, set.find(2));
    assert_eq!(8, set.find(3));
    assert_eq!(8, set.find(4));
    assert_eq!(8, set.find(5));
    assert_eq!(8, set.find(6));
    assert_eq!(8, set.find(7));
}

#[test]
fn union_is_idempotent() {
    let mut set = LinkageUnionFind::with_len(5);

    set.union(1, 3);
    set.union(5, 2);
    // `1` is already in the cluster `5`, so do a no-op union.
    set.union(5, 1);
    set.union(0, 4);
    set.union(6, 7);

    // The set is now full, so everything should be in the same cluster.
    assert_eq!(8, set.find(0));
    assert_eq!(8, set.find(1));
    assert_eq!(8, set.find(2));
    assert_eq!(8, set.find(3));
    assert_eq!(8, set.find(4));
    assert_eq!(8, set.find(5));
    assert_eq!(8, set.find(6));
    assert_eq!(8, set.find(7));

    // Union two clusters already in the same cluster when the set is full.
    set.union(1, 4);
    assert_eq!(8, set.find(0));
    assert_eq!(8, set.find(1));
    assert_eq!(8, set.find(2));
    assert_eq!(8, set.find(3));
    assert_eq!(8, set.find(4));
    assert_eq!(8, set.find(5));
    assert_eq!(8, set.find(6));
    assert_eq!(8, set.find(7));
}

#[test]
fn relabel() {
    let mut den = Dendrogram::new(5);
    den.push(Step::new(1, 3, units(0.01), 0));
    den.push(Step::new(1, 2, units(0.02), 0));
    den.push(Step::new(0, 4, units(0.015), 0));
    den.push(Step::new(1, 4, units(0.03), 0));

    let mut set = LinkageUnionFind::new();
    set.relabel(&mut den, Method::Single);

    assert_eq!(den.steps(), &[
        Step::new(1, 3, units(0.01), 2),
        Step::new(0, 4, units(0.015), 2),
        Step::new(2, 5, units(0.02), 3),
        Step::new(6, 7, units(0.03), 5),
    ]);
}

#[test]
fn relabel_keeps_order_without_sorting() {
    let mut den = Dendrogram::new(3);
    den.push(Step::new(0, 1, 10, 0));
    den.push(Step::new(1, 2, 9, 0));
    let mut set = LinkageUnionFind::new();
    set.relabel(&mut den, Method::Centroid);
    assert_eq!(den.steps(), &[Step::new(0, 1, 10, 2), Step::new(2, 3, 9, 3)]);
}

#[test]
fn find_is_idempotent() {
    let mut set = LinkageUnionFind::with_len(4);
    set.union(0, 2);
    let r = set.find(2);
    assert_eq!(r, set.find(2));
    assert_eq!(r, set.find(r));
    assert_eq!(set.find(0), set.find(2));
}

#[test]
fn union_of_labels_that_are_not_roots_merges_their_clusters() {
    let mut set = LinkageUnionFind::with_len(4);
    set.union(1, 3);
    // Label 1 is no longer a root: its whole cluster {1, 3} joins 2.
    set.union(1, 2);
    assert_eq!(set.find(1), 5);
    assert_eq!(set.find(2), 5);
    assert_eq!(set.find(3), 5);
    assert_eq!(set.find(4), 5);
    assert_eq!(set.find(0), 0);
}
