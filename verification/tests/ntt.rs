use ff::{Field, PrimeField};
use pasta_curves::Fq;
use rand::rngs::OsRng;
use spartan2::field::Fe;
use spartan2::ntt::{
    poly_from_roots_adaptive,
    poly_from_roots_naive_generic, poly_from_roots_ntt,
    poly_from_roots_optimized, poly_mul_adaptive,
    poly_mul_naive, poly_mul_ntt, poly_mul_ntt_with_workspace, radix2_intt, radix2_ntt,
    PolyMulWorkspace,
};

fn fe(x: Fq) -> Fe {
    Fe::from_bytes(x.to_repr()).unwrap()
}

fn fq(x: &Fe) -> Fq {
    Fq::from_repr(x.to_bytes()).unwrap()
}

fn random_vec(n: usize) -> Vec<Fe> {
    (0..n).map(|_| fe(Fq::random(&mut OsRng))).collect()
}

fn poly_from_roots_naive(roots: &[Fe]) -> Vec<Fe> {
    poly_from_roots_naive_generic(roots)
}

#[test]
fn test_ntt_roundtrip_pallas_scalar() {
    for log_n in 0..=10 {
        let n = 1usize << log_n;
        let mut values = random_vec(n);
        let original = values.clone();

        radix2_ntt(&mut values).unwrap();
        radix2_intt(&mut values).unwrap();

        assert_eq!(values, original);
    }
}

#[test]
fn test_ntt_delta_vector() {
    let n = 8usize;
    let mut values = vec![Fe::zero(); n];
    values[0] = Fe::one();

    radix2_ntt(&mut values).unwrap();
    assert!(values.iter().all(|x| *x == Fe::one()));
}

#[test]
fn test_poly_mul_ntt_matches_naive() {
    for (na, nb) in [(1usize, 1usize), (3, 5), (8, 8), (17, 9), (32, 31)] {
        let a = random_vec(na);
        let b = random_vec(nb);

        let got = poly_mul_ntt(&a, &b).unwrap();
        let expected = poly_mul_naive(&a, &b);
        assert_eq!(got, expected);
    }
}

#[test]
fn test_poly_from_roots_ntt_small() {
    let roots = vec![Fe::from_u64(1), Fe::from_u64(2), Fe::from_u64(3)];
    let coeffs = poly_from_roots_ntt(&roots).unwrap();
    // (x-1)(x-2)(x-3) = x^3 - 6x^2 + 11x - 6
    let expected = vec![
        fe(-Fq::from(6)),
        Fe::from_u64(11),
        fe(-Fq::from(6)),
        Fe::one(),
    ];
    assert_eq!(coeffs, expected);
}

#[test]
fn test_poly_from_roots_ntt_vanishes_on_roots() {
    let roots = random_vec(20);
    let coeffs = poly_from_roots_ntt(&roots).unwrap();

    for r in roots {
        let r = fq(&r);
        let mut acc = Fq::ZERO;
        let mut pow = Fq::ONE;
        for c in &coeffs {
            acc += fq(c) * pow;
            pow *= r;
        }
        assert_eq!(acc, Fq::ZERO);
    }
}

#[test]
fn test_poly_mul_adaptive_matches_naive() {
    for (na, nb) in [(8usize, 8usize), (64, 64), (128, 128), (257, 113)] {
        let a = random_vec(na);
        let b = random_vec(nb);
        let got = poly_mul_adaptive(&a, &b).unwrap();
        let expected = poly_mul_naive(&a, &b);
        assert_eq!(got, expected);
    }
}

#[test]
fn test_poly_mul_ntt_with_workspace_matches_ntt() {
    let mut workspace = PolyMulWorkspace::default();
    let a = random_vec(257);
    let b = random_vec(193);
    let got = poly_mul_ntt_with_workspace(&a, &b, &mut workspace).unwrap();
    let expected = poly_mul_ntt(&a, &b).unwrap();
    assert_eq!(got, expected);
}

#[test]
fn test_poly_from_roots_adaptive_matches_ntt() {
    let roots = random_vec(257);
    let got = poly_from_roots_adaptive(&roots).unwrap();
    let expected = poly_from_roots_ntt(&roots).unwrap();
    assert_eq!(got, expected);
}

#[test]
fn test_poly_from_roots_optimized_matches_naive() {
    for n in [0usize, 1, 2, 3, 8, 33, 129, 257] {
        let roots = random_vec(n);
        let got = poly_from_roots_optimized(&roots).unwrap();
        let expected = poly_from_roots_naive(&roots);
        assert_eq!(got, expected);
    }
}
