use ark_ff::PrimeField;
use vector_addition_chain::bos_coster;
use vector_addition_chain::bos_coster_fast;
use vector_addition_chain::bos_coster_many;
use vector_addition_chain::scalar::Scalar;
use vector_addition_chain::VecAddChain;

fn to_scalars<F: PrimeField>(target: &[F]) -> Vec<Scalar> {
    target
        .iter()
        .map(|f| Scalar::from_limbs(f.into_repr().as_ref().to_vec()))
        .collect()
}

fn all_builders() -> Vec<(&'static str, Box<dyn Fn(Vec<Scalar>) -> VecAddChain>)> {
    vec![
        (
            "shallow",
            Box::new(bos_coster::build_chain::<bos_coster::UseShallow>)
                as Box<dyn Fn(Vec<Scalar>) -> VecAddChain>,
        ),
        ("deep", Box::new(bos_coster::build_chain::<bos_coster::UseDeep>)),
        (
            "m-shallow",
            Box::new(bos_coster_many::build_chain::<bos_coster::UseShallow>),
        ),
        ("m-deep", Box::new(bos_coster_many::build_chain::<bos_coster::UseDeep>)),
        ("fast", Box::new(bos_coster_fast::build_chain)),
    ]
}

/// Replays the chain over standard basis vectors of field elements and
/// asserts that the final computed vector equals the target.
fn check_chain_field<F: PrimeField>(chain: &VecAddChain, target: &[F]) {
    let mut vecs: Vec<Vec<F>> = Vec::new();
    assert_eq!(chain.dimension, target.len());
    let add_vecs = |a: &[F], b: &[F]| {
        assert_eq!(a.len(), b.len());
        a.iter().zip(b).map(|(a, b)| *a + b).collect::<Vec<F>>()
    };
    for i in 0..chain.dimension {
        vecs.push(vec![F::zero(); chain.dimension]);
        vecs.last_mut().unwrap()[i] = F::one();
    }
    for (a, b) in &chain.adds {
        let sum = add_vecs(&vecs[*a], &vecs[*b]);
        vecs.push(sum);
    }
    assert_eq!(vecs.last().unwrap(), target);
}

fn test_on_target<F: PrimeField>(target: Vec<F>) {
    for (name, builder) in all_builders() {
        println!("Running: {}", name);
        let chain = builder(to_scalars(&target));
        check_chain_field(&chain, &target);
    }
}

fn double_odd<F: PrimeField>() {
    test_on_target(vec![F::from(11u32), F::from(2u32)])
}

fn test_ones<F: PrimeField>() {
    for n in 1..100 {
        test_on_target::<F>(vec![F::one(); n]);
    }
}

fn test_single<F: PrimeField>() {
    for n in 2..100u32 {
        test_on_target::<F>(vec![F::from(n)]);
    }
}

fn test_twos<F: PrimeField>() {
    for n in 1..100 {
        test_on_target::<F>(vec![F::from(2 as u32); n]);
    }
}

fn test_incr<F: PrimeField>() {
    for n in 2..100 {
        test_on_target::<F>((0..n).map(|i| F::from(i as u32)).collect());
    }
}

fn test_rand<F: PrimeField>(size: usize, trials: usize) {
    let rng = &mut ark_std::test_rng();
    for _ in 0..trials {
        test_on_target::<F>((0..size).map(|_| F::rand(rng)).collect());
    }
}

#[test]
fn test_ones_bls12_381() {
    test_ones::<ark_bls12_381::Fr>();
}

#[test]
fn test_twos_bls12_381() {
    test_twos::<ark_bls12_381::Fr>();
}

#[test]
fn test_incr_bls12_381() {
    test_incr::<ark_bls12_381::Fr>();
}

#[test]
fn test_rand_bls12_381() {
    test_rand::<ark_bls12_381::Fr>(10, 10);
    test_rand::<ark_bls12_381::Fr>(1000, 1);
}

#[test]
fn test_double_odd_bls12_381() {
    double_odd::<ark_bls12_381::Fr>();
}

#[test]
fn test_single_bls12_381() {
    test_single::<ark_bls12_381::Fr>();
}

#[test]
fn test_incr_ed_on_bls12_381() {
    test_incr::<ark_ed_on_bls12_381::Fr>();
}

#[test]
fn test_rand_ed_on_bls12_381() {
    test_rand::<ark_ed_on_bls12_381::Fr>(10, 10);
    test_rand::<ark_ed_on_bls12_381::Fr>(1000, 1);
}
