use vector_addition_chain::bos_coster;
use vector_addition_chain::bos_coster_fast;
use vector_addition_chain::bos_coster_many;
use vector_addition_chain::check_chain;
use vector_addition_chain::scalar::Scalar;
use vector_addition_chain::VecAddChain;

fn scalars_from_u64(values: &[u64]) -> Vec<Scalar> {
    values.iter().map(|v| Scalar::from_u64(*v)).collect()
}

fn build_all(values: &[u64]) -> Vec<(&'static str, VecAddChain)> {
    vec![
        (
            "shallow",
            bos_coster::build_chain::<bos_coster::UseShallow>(scalars_from_u64(values)),
        ),
        (
            "deep",
            bos_coster::build_chain::<bos_coster::UseDeep>(scalars_from_u64(values)),
        ),
        (
            "m-shallow",
            bos_coster_many::build_chain::<bos_coster_many::UseShallow>(scalars_from_u64(values)),
        ),
        (
            "m-deep",
            bos_coster_many::build_chain::<bos_coster_many::UseDeep>(scalars_from_u64(values)),
        ),
        ("fast", bos_coster_fast::build_chain(scalars_from_u64(values))),
    ]
}

/// Both labels of the addition at position `i` are strictly below
/// `dimension + i`.
fn assert_labels_valid(chain: &VecAddChain) {
    for (i, (a, b)) in chain.adds.iter().enumerate() {
        assert!(*a < chain.dimension + i);
        assert!(*b < chain.dimension + i);
    }
}

#[test]
fn round_trip_small_targets() {
    // magnitudes stay small here so that the subtract-only Batch strategy
    // converges in few rounds on every case
    let cases: Vec<Vec<u64>> = vec![
        vec![1],
        vec![5],
        vec![1, 1],
        vec![11, 2],
        vec![2, 2, 2, 2],
        vec![0, 3, 0, 7],
        vec![1000, 999, 998],
        vec![0, 1],
        vec![3, 3, 3, 3, 3, 3, 3],
    ];
    for values in &cases {
        for (name, chain) in build_all(values) {
            assert_labels_valid(&chain);
            assert!(
                check_chain(&chain, &scalars_from_u64(values)),
                "strategy {} failed on {:?}",
                name,
                values
            );
        }
    }
}

#[test]
fn round_trip_extreme_targets() {
    // huge coefficient ratios: the halve move keeps Single and Fast
    // logarithmic, while the subtract-only Batch strategy would need one
    // round per unit of the ratio and is deliberately left out
    let cases: Vec<Vec<u64>> = vec![
        vec![u64::MAX, 1, u64::MAX - 1],
        vec![u64::MAX],
        vec![1 << 63, 3],
    ];
    for values in &cases {
        let single = bos_coster::build_chain::<bos_coster::UseShallow>(scalars_from_u64(values));
        assert_labels_valid(&single);
        assert!(check_chain(&single, &scalars_from_u64(values)));
        let deep = bos_coster::build_chain::<bos_coster::UseDeep>(scalars_from_u64(values));
        assert_labels_valid(&deep);
        assert!(check_chain(&deep, &scalars_from_u64(values)));
        let fast = bos_coster_fast::build_chain(scalars_from_u64(values));
        assert_labels_valid(&fast);
        assert!(check_chain(&fast, &scalars_from_u64(values)));
    }
}

#[test]
fn label_validity_large_random_like() {
    let values: Vec<u64> = (0..50).map(|i| (i as u64) * 2654435761 + 17).collect();
    let single = bos_coster::build_chain::<bos_coster::UseShallow>(scalars_from_u64(&values));
    assert_labels_valid(&single);
    assert!(check_chain(&single, &scalars_from_u64(&values)));
    let fast = bos_coster_fast::build_chain(scalars_from_u64(&values));
    assert_labels_valid(&fast);
    assert!(check_chain(&fast, &scalars_from_u64(&values)));
    let small: Vec<u64> = (0..50).map(|i| (i as u64) * 37 + 17).collect();
    for (_, chain) in build_all(&small) {
        assert_labels_valid(&chain);
        assert!(check_chain(&chain, &scalars_from_u64(&small)));
    }
}

#[test]
fn determinism_repeated_runs() {
    let values: Vec<u64> = vec![9876, 1234, 55, 81, 81, 1007];
    let first = build_all(&values);
    let second = build_all(&values);
    for ((name_a, chain_a), (_, chain_b)) in first.iter().zip(second.iter()) {
        assert_eq!(chain_a.dimension, chain_b.dimension, "strategy {}", name_a);
        assert_eq!(chain_a.adds, chain_b.adds, "strategy {}", name_a);
    }
}

#[test]
fn all_ones_needs_exactly_n_minus_one_adds() {
    for n in 1..60usize {
        let values = vec![1u64; n];
        let chain = bos_coster::build_chain::<bos_coster::UseShallow>(scalars_from_u64(&values));
        assert_eq!(chain.dimension, n);
        assert_eq!(chain.adds.len(), n - 1, "all-ones target of dimension {}", n);
        assert!(check_chain(&chain, &scalars_from_u64(&values)));
    }
}

#[test]
fn sharing_never_loses_to_fast() {
    let cases: Vec<Vec<u64>> = vec![
        vec![7, 7, 7, 9, 9],
        vec![1234, 1234, 1234, 1234],
        vec![3, 5, 3, 5, 3, 5],
        vec![100, 100, 200, 200, 300, 300],
        vec![123456789, 123456789],
    ];
    for values in &cases {
        let single =
            bos_coster::build_chain::<bos_coster::UseShallow>(scalars_from_u64(values));
        let fast = bos_coster_fast::build_chain(scalars_from_u64(values));
        assert!(
            single.adds.len() <= fast.adds.len(),
            "sharing lost on {:?}: {} > {}",
            values,
            single.adds.len(),
            fast.adds.len()
        );
    }
}

#[test]
fn scenario_two_ones() {
    for (name, chain) in build_all(&[1, 1]) {
        assert_eq!(chain.dimension, 2, "strategy {}", name);
        assert_eq!(chain.adds, vec![(0, 1)], "strategy {}", name);
    }
}

#[test]
fn scenario_eleven_two() {
    let values = [11u64, 2];
    for (name, chain) in build_all(&values) {
        assert!(
            check_chain(&chain, &scalars_from_u64(&values)),
            "strategy {}",
            name
        );
    }
}

#[test]
fn scenario_batch_of_twos() {
    let values = [2u64, 2, 2, 2];
    let chain =
        bos_coster_many::build_chain::<bos_coster_many::UseShallow>(scalars_from_u64(&values));
    // two pair merges, one merge of the merged pair, one final doubling
    assert_eq!(chain.adds.len(), 4);
    assert!(check_chain(&chain, &scalars_from_u64(&values)));
}

#[test]
fn zero_vector_yields_empty_chain() {
    for (name, chain) in build_all(&[0, 0, 0]) {
        assert_eq!(chain.dimension, 3, "strategy {}", name);
        assert!(chain.adds.is_empty(), "strategy {}", name);
    }
    for (_, chain) in build_all(&[]) {
        assert_eq!(chain.dimension, 0);
        assert!(chain.adds.is_empty());
    }
}

#[test]
fn check_chain_rejects_bad_chains() {
    // dimension mismatch
    let chain = VecAddChain { dimension: 2, adds: vec![(0, 1)] };
    assert!(!check_chain(&chain, &scalars_from_u64(&[1, 1, 1])));
    // label out of range: the addition at position 0 may only use 0 and 1
    let bad = VecAddChain { dimension: 2, adds: vec![(0, 2)] };
    assert!(!check_chain(&bad, &scalars_from_u64(&[1, 1])));
    // wrong final value
    let wrong = VecAddChain { dimension: 2, adds: vec![(0, 1)] };
    assert!(!check_chain(&wrong, &scalars_from_u64(&[2, 1])));
    // an empty chain replays to the last basis vector only
    let empty = VecAddChain { dimension: 2, adds: vec![] };
    assert!(check_chain(&empty, &scalars_from_u64(&[0, 1])));
    assert!(!check_chain(&empty, &scalars_from_u64(&[1, 0])));
}

#[test]
fn scalar_arithmetic_matches_values() {
    // a two-limb value: 2^64 + 5
    let a = Scalar::from_limbs(vec![5, 1]);
    let b = Scalar::from_u64(7);
    assert!(a.is_odd());
    assert!(!a.is_zero());
    let sum = a.add_scalar(&b);
    // (2^64 + 5) + 7 = 2^64 + 12
    let expected = Scalar::from_limbs(vec![12, 1]);
    assert!(matches!(
        sum.cmp_val(&expected),
        vector_addition_chain::scalar::Cmp::Equal
    ));
    let mut c = Scalar::from_limbs(vec![5, 1]);
    c.div2();
    // floor((2^64 + 5) / 2) = 2^63 + 2
    let half = Scalar::from_limbs(vec![(1u64 << 63) + 2]);
    assert!(matches!(c.cmp_val(&half), vector_addition_chain::scalar::Cmp::Equal));
    let mut d = Scalar::from_limbs(vec![0, 1]);
    d.sub_noborrow(&Scalar::from_u64(1));
    let borrowed = Scalar::from_u64(u64::MAX);
    assert!(matches!(
        d.cmp_val(&borrowed),
        vector_addition_chain::scalar::Cmp::Equal
    ));
    // trailing zero limbs are trimmed to the canonical form
    let z = Scalar::from_limbs(vec![0, 0, 0]);
    assert!(z.is_zero());
}
