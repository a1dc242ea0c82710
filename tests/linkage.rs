use kodama::update::{average, centroid, complete, median, single, ward, weighted};
use kodama::{
    generic, linkage, linkage_with, method_chain_from_name, method_from_name, mst, nnchain, primitive,
    Dendrogram, Error, LinkageState, Method, MethodChain, Step,
};

const METHODS: [Method; 7] = [
    Method::Single,
    Method::Complete,
    Method::Average,
    Method::Weighted,
    Method::Ward,
    Method::Centroid,
    Method::Median,
];

const CHAINS: [MethodChain; 5] =
    [MethodChain::Single, MethodChain::Complete, MethodChain::Average, MethodChain::Weighted, MethodChain::Ward];

fn haversine((lat1, lon1): (f64, f64), (lat2, lon2): (f64, f64)) -> f64 {
    const EARTH_RADIUS: f64 = 3958.756; // miles

    let (lat1, lon1) = (lat1.to_radians(), lon1.to_radians());
    let (lat2, lon2) = (lat2.to_radians(), lon2.to_radians());

    let delta_lat = lat2 - lat1;
    let delta_lon = lon2 - lon1;
    let x = (delta_lat / 2.0).sin().powi(2) + lat1.cos() * lat2.cos() * (delta_lon / 2.0).sin().powi(2);
    2.0 * EARTH_RADIUS * x.sqrt().atan()
}

/// A condensed matrix of distinct values below `bound`, from a small
/// deterministic generator.
fn distinct_matrix(seed: u64, n: usize, bound: u64) -> Vec<u64> {
    let len = n * n.saturating_sub(1) / 2;
    let mut x = seed.wrapping_add(0x9E37_79B9_7F4A_7C15);
    let mut seen = std::collections::BTreeSet::new();
    let mut out = vec![];
    while out.len() < len {
        x = x.wrapping_mul(6364136223846793005).wrapping_add(1442695040888963407);
        let v = (x >> 11) % bound + 1;
        if seen.insert(v) {
            out.push(v);
        }
    }
    out
}

/// The cluster labels, sizes and order that every dendrogram of `n`
/// observations must have.
fn check_well_formed(dend: &Dendrogram, n: usize, sorted: bool) {
    let steps = dend.steps();
    if n <= 1 {
        assert_eq!(steps.len(), 0);
        return;
    }
    assert_eq!(dend.observations(), n);
    assert_eq!(steps.len(), n - 1);
    let mut seen = vec![0usize; 2 * n - 1];
    for (i, s) in steps.iter().enumerate() {
        assert!(s.cluster1 < s.cluster2);
        assert!(s.cluster2 < n + i);
        seen[s.cluster1] += 1;
        seen[s.cluster2] += 1;
        assert_eq!(s.size, dend.cluster_size(s.cluster1) + dend.cluster_size(s.cluster2));
    }
    for (label, count) in seen.iter().enumerate() {
        let expected = if label == 2 * n - 2 { 0 } else { 1 };
        assert_eq!(*count, expected, "label {}", label);
    }
    assert_eq!(steps[n - 2].size, n);
    if sorted {
        for w in steps.windows(2) {
            assert!(w[0].dissimilarity <= w[1].dissimilarity);
        }
    }
}

#[test]
fn massachusetts_average() {
    let coordinates = vec![
        (42.5833333, -71.8027778),
        (42.2791667, -71.4166667),
        (42.3458333, -71.5527778),
        (42.1513889, -71.6500000),
        (42.3055556, -71.5250000),
        (42.2694444, -71.6166667),
    ];
    // Distances in units of 1e-9 miles.
    let mut condensed = vec![];
    for row in 0..coordinates.len() - 1 {
        for col in row + 1..coordinates.len() {
            condensed.push((haversine(coordinates[row], coordinates[col]) * 1e9).round() as u64);
        }
    }
    let dend = linkage(&mut condensed, coordinates.len(), Method::Average);
    let expected = [
        (2, 4, 3.1237968, 2),
        (5, 6, 5.7571581, 3),
        (1, 7, 8.1392603, 4),
        (3, 8, 12.4831482, 5),
        (0, 9, 25.5894441, 6),
    ];
    assert_eq!(dend.len(), coordinates.len() - 1);
    for (step, &(c1, c2, d, size)) in dend.steps().iter().zip(expected.iter()) {
        assert_eq!((step.cluster1, step.cluster2, step.size), (c1, c2, size));
        assert!((step.dissimilarity as f64 / 1e9 - d).abs() <= 1e-6);
    }
}

#[test]
fn two_observations_any_method() {
    for method in METHODS {
        let mut dis = vec![7500];
        let dend = linkage(&mut dis, 2, method);
        assert_eq!(dend.steps(), &[Step::new(0, 1, 7500, 2)]);
    }
}

#[test]
fn three_observations_single() {
    let mut dis = vec![1, 2, 3];
    let dend = linkage(&mut dis, 3, Method::Single);
    assert_eq!(dend.steps(), &[Step::new(0, 1, 1, 2), Step::new(2, 3, 2, 3)]);
}

#[test]
fn three_observations_complete() {
    let mut dis = vec![1, 2, 3];
    let dend = linkage(&mut dis, 3, Method::Complete);
    assert_eq!(dend.steps(), &[Step::new(0, 1, 1, 2), Step::new(2, 3, 3, 3)]);
}

#[test]
fn four_observations_ward_chain_and_generic_agree() {
    let dis = vec![2, 3, 4, 5, 6, 7];
    let a = nnchain(&mut dis.clone(), 4, MethodChain::Ward);
    let b = generic(&mut dis.clone(), 4, Method::Ward);
    assert!(a.eq_with_epsilon(&b, 0));
    check_well_formed(&a, 4, true);
}

#[test]
fn centroid_inversion_is_kept_in_order() {
    // Merging 0 and 1 at 10 brings their centroid within 9.8 of 2.
    let mut dis = vec![10, 11, 11];
    let dend = generic(&mut dis, 3, Method::Centroid);
    assert_eq!(dend.steps(), &[Step::new(0, 1, 10, 2), Step::new(2, 3, 9, 3)]);
    assert!(dend.steps()[1].dissimilarity < dend.steps()[0].dissimilarity);
    let mut dis = vec![10, 11, 11];
    let dend = linkage(&mut dis, 3, Method::Centroid);
    assert_eq!(dend.steps(), &[Step::new(0, 1, 10, 2), Step::new(2, 3, 9, 3)]);
}

#[test]
fn no_observations_and_one() {
    for method in METHODS {
        let mut dis: Vec<u64> = vec![];
        let dend = linkage(&mut dis, 0, method);
        assert!(dend.is_empty());
        let dend = linkage(&mut dis, 1, method);
        assert!(dend.is_empty());
        assert_eq!(dend.len(), 0);
    }
}

#[test]
fn every_method_gives_a_well_formed_dendrogram() {
    for seed in 0..12 {
        for n in [2usize, 3, 5, 8, 13] {
            for method in METHODS {
                let dis = distinct_matrix(seed * 31 + n as u64, n, 10_000_000);
                let dend = linkage(&mut dis.clone(), n, method);
                check_well_formed(&dend, n, method != Method::Centroid && method != Method::Median);
                let dend = primitive(&mut dis.clone(), n, method);
                check_well_formed(&dend, n, method != Method::Centroid && method != Method::Median);
                let dend = generic(&mut dis.clone(), n, method);
                check_well_formed(&dend, n, method != Method::Centroid && method != Method::Median);
            }
        }
    }
}

#[test]
fn chain_agrees_with_primitive() {
    for seed in 0..20 {
        for n in [2usize, 4, 7, 11, 16] {
            let dis = distinct_matrix(seed * 17 + n as u64, n, 10_000_000);
            for chain in CHAINS {
                let a = primitive(&mut dis.clone(), n, chain.into_method());
                let b = nnchain(&mut dis.clone(), n, chain);
                check_well_formed(&b, n, true);
                assert!(a.eq_with_epsilon(&b, 2), "{:?} {:?} {:?}", chain, a, b);
            }
        }
    }
}

#[test]
fn generic_agrees_with_primitive() {
    for seed in 0..20 {
        for n in [2usize, 4, 7, 11, 16] {
            let dis = distinct_matrix(seed * 13 + n as u64, n, 10_000_000);
            for method in METHODS {
                let a = primitive(&mut dis.clone(), n, method);
                let b = generic(&mut dis.clone(), n, method);
                assert!(a.eq_with_epsilon(&b, 2), "{:?} {:?} {:?}", method, a, b);
            }
        }
    }
}

#[test]
fn spanning_tree_agrees_with_primitive_and_generic() {
    for seed in 0..20 {
        for n in [2usize, 3, 6, 10, 17] {
            let dis = distinct_matrix(seed * 7 + n as u64, n, 1_000_000_000_000);
            let a = mst(&mut dis.clone(), n);
            let b = primitive(&mut dis.clone(), n, Method::Single);
            let c = generic(&mut dis.clone(), n, Method::Single);
            assert_eq!(a, b);
            assert_eq!(a, c);
        }
    }
}

#[test]
fn linkage_with_reuses_state() {
    let mut state = LinkageState::new();
    let mut steps = Dendrogram::new(0);
    let mut dis = vec![1, 2, 3];
    linkage_with(&mut state, &mut dis, 3, Method::Single, &mut steps);
    assert_eq!(steps.steps(), &[Step::new(0, 1, 1, 2), Step::new(2, 3, 2, 3)]);
    let mut dis = vec![7500];
    linkage_with(&mut state, &mut dis, 2, Method::Ward, &mut steps);
    assert_eq!(steps.steps(), &[Step::new(0, 1, 7500, 2)]);
}

#[test]
fn method_names() {
    assert_eq!(method_from_name("single").unwrap(), Method::Single);
    assert_eq!(method_from_name("complete").unwrap(), Method::Complete);
    assert_eq!(method_from_name("average").unwrap(), Method::Average);
    assert_eq!(method_from_name("weighted").unwrap(), Method::Weighted);
    assert_eq!(method_from_name("ward").unwrap(), Method::Ward);
    assert_eq!(method_from_name("centroid").unwrap(), Method::Centroid);
    assert_eq!(method_from_name("median").unwrap(), Method::Median);
    assert_eq!("ward".parse::<Method>().unwrap(), Method::Ward);
    assert_eq!(method_chain_from_name("average").unwrap(), MethodChain::Average);
    match method_from_name("nearest") {
        Err(Error::InvalidMethod(name)) => assert_eq!(name, "nearest"),
        other => panic!("unexpected {:?}", other),
    }
    match method_chain_from_name("median") {
        Err(Error::InvalidMethod(name)) => assert_eq!(name, "median"),
        other => panic!("unexpected {:?}", other),
    }
    let e = method_from_name("Single").unwrap_err();
    assert_eq!(e.message(), "unrecognized method name: 'Single'");
}

#[test]
fn method_conversions() {
    for chain in CHAINS {
        assert_eq!(chain.into_method().into_method_chain(), Some(chain));
    }
    assert_eq!(Method::Centroid.into_method_chain(), None);
    assert_eq!(Method::Median.into_method_chain(), None);
    assert!(Method::Single.requires_sorting());
    assert!(!Method::Centroid.requires_sorting());
    assert!(Method::Ward.on_squares());
    assert!(!Method::Average.on_squares());
    assert_eq!(kodama::kodama_method::Median.into_method(), Method::Median);
}

#[test]
fn update_formulas() {
    let mut b = 7;
    single(5, &mut b);
    assert_eq!(b, 5);
    let mut b = 7;
    complete(5, &mut b);
    assert_eq!(b, 7);
    let mut b = 10;
    average(4, &mut b, 3, 1);
    assert_eq!(b, (3 * 4 + 10) / 4);
    let mut b = 10;
    weighted(5, &mut b);
    assert_eq!(b, 7);
    let mut b = 20;
    ward(10, &mut b, 4, 1, 2, 3);
    assert_eq!(b, ((3 + 1) * 10 + (3 + 2) * 20 - 3 * 4) / 6);
    let mut b = 121;
    centroid(121, &mut b, 100, 1, 1);
    assert_eq!(b, 96);
    let mut b = 30;
    median(10, &mut b, 8);
    assert_eq!(b, 18);
    let mut b = 0;
    median(0, &mut b, 8);
    assert_eq!(b, 0);
}

#[test]
fn squares_and_roots() {
    let mut m = vec![3, 4, 0];
    Method::Ward.square(&mut m);
    assert_eq!(m, vec![9, 16, 0]);
    let mut m = vec![3, 4, 0];
    Method::Average.square(&mut m);
    assert_eq!(m, vec![3, 4, 0]);
    assert_eq!(kodama::isqrt(99), 9);
    assert_eq!(kodama::isqrt(100), 10);
    assert_eq!(kodama::isqrt(u64::MAX), 4294967295);
}

#[test]
fn equal_dissimilarities_still_give_well_formed_dendrograms() {
    for n in [2usize, 3, 6, 9] {
        for method in METHODS {
            let mut dis = vec![5u64; n * (n - 1) / 2];
            let dend = linkage(&mut dis, n, method);
            check_well_formed(&dend, n, method != Method::Centroid && method != Method::Median);
            let mut dis = vec![5u64; n * (n - 1) / 2];
            let dend = primitive(&mut dis, n, method);
            check_well_formed(&dend, n, method != Method::Centroid && method != Method::Median);
        }
    }
}

#[test]
fn largest_dissimilarities_saturate() {
    for method in METHODS {
        let mut dis = vec![u64::MAX, u64::MAX - 1, u64::MAX];
        let dend = linkage(&mut dis, 3, method);
        check_well_formed(&dend, 3, method != Method::Centroid && method != Method::Median);
    }
    // Squares above u64::MAX become u64::MAX, whose floor square root is
    // 2^32 - 1.
    let mut dis = vec![u64::MAX];
    let dend = linkage(&mut dis, 2, Method::Ward);
    assert_eq!(dend.steps(), &[Step::new(0, 1, 4294967295, 2)]);
}

#[test]
fn scratch_matrix_keeps_its_length() {
    let mut dis = distinct_matrix(3, 7, 1000);
    let len = dis.len();
    let _ = linkage(&mut dis, 7, Method::Median);
    assert_eq!(dis.len(), len);
}

#[test]
fn one_observation_keeps_its_count() {
    for method in METHODS {
        let mut dis: Vec<u64> = vec![];
        let dend = linkage(&mut dis, 1, method);
        assert_eq!(dend.len(), 0);
        assert_eq!(dend.observations(), 1);
    }
}
