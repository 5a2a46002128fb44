use ff::{Field, PrimeField};
use pasta_curves::Fq;
use rand::rngs::OsRng;
use spartan2::field::Fe;
use spartan2::ntt::{
    bit_reverse_permute, poly_from_roots_adaptive_with_workspace, poly_from_roots_naive_generic,
    poly_from_roots_ntt_with_workspace, poly_mul_adaptive_with_workspace, poly_mul_naive,
    poly_mul_ntt, poly_mul_ntt_with_workspace, radix2_intt, radix2_ntt, NttError,
    PolyMulWorkspace,
};

fn fe(x: Fq) -> Fe {
    Fe::from_bytes(x.to_repr()).unwrap()
}

fn random_vec(n: usize) -> Vec<Fe> {
    (0..n).map(|_| fe(Fq::random(&mut OsRng))).collect()
}

fn small(v: &[u64]) -> Vec<Fe> {
    v.iter().map(|x| Fe::from_u64(*x)).collect()
}

#[test]
fn ntt_rejects_non_power_of_two_lengths() {
    let mut empty: Vec<Fe> = Vec::new();
    assert_eq!(radix2_ntt(&mut empty), Err(NttError::NonPowerOfTwoLength));
    let mut six = small(&[1, 2, 3, 4, 5, 6]);
    let before = six.clone();
    assert_eq!(radix2_intt(&mut six), Err(NttError::NonPowerOfTwoLength));
    assert_eq!(six, before);
}

#[test]
fn ntt_of_size_two_is_sum_and_difference() {
    let mut v = small(&[5, 3]);
    radix2_ntt(&mut v).unwrap();
    assert_eq!(v, small(&[8, 2]));
    let mut w = small(&[3, 5]);
    radix2_ntt(&mut w).unwrap();
    assert_eq!(w, vec![Fe::from_u64(8), fe(-Fq::from(2))]);
}

#[test]
fn ntt_of_constant_vector_is_scaled_delta() {
    let mut v = small(&[7, 7, 7, 7]);
    radix2_ntt(&mut v).unwrap();
    assert_eq!(v, small(&[28, 0, 0, 0]));
    radix2_intt(&mut v).unwrap();
    assert_eq!(v, small(&[7, 7, 7, 7]));
}

#[test]
fn inverse_then_forward_is_identity() {
    let mut v = random_vec(16);
    let original = v.clone();
    radix2_intt(&mut v).unwrap();
    radix2_ntt(&mut v).unwrap();
    assert_eq!(v, original);
}

#[test]
fn bit_reverse_permute_power_of_two() {
    let mut v = small(&[0, 1, 2, 3, 4, 5, 6, 7]);
    bit_reverse_permute(&mut v);
    assert_eq!(v, small(&[0, 4, 2, 6, 1, 5, 3, 7]));
}

#[test]
fn bit_reverse_permute_even_length_permutes_low_block() {
    let mut v = small(&[0, 1, 2, 3, 4, 5, 6, 7, 8, 9, 10, 11]);
    bit_reverse_permute(&mut v);
    assert_eq!(v, small(&[0, 2, 1, 3, 4, 5, 6, 7, 8, 9, 10, 11]));
    let mut one = small(&[9]);
    bit_reverse_permute(&mut one);
    assert_eq!(one, small(&[9]));
}

#[test]
fn naive_product_exact_values() {
    assert_eq!(poly_mul_naive(&small(&[1, 2]), &small(&[3, 4])), small(&[3, 10, 8]));
    assert_eq!(poly_mul_naive(&small(&[]), &small(&[3, 4])), small(&[]));
    assert_eq!(poly_mul_ntt(&small(&[1, 2]), &small(&[3, 4])).unwrap(), small(&[3, 10, 8]));
    assert_eq!(poly_mul_ntt(&small(&[1, 2]), &small(&[])).unwrap(), small(&[]));
}

#[test]
fn roots_naive_exact_values() {
    // (x - 2)(x - 5) = x^2 - 7x + 10
    assert_eq!(
        poly_from_roots_naive_generic(&small(&[2, 5])),
        vec![Fe::from_u64(10), fe(-Fq::from(7)), Fe::one()]
    );
    assert_eq!(poly_from_roots_naive_generic(&small(&[])), small(&[1]));
}

#[test]
fn workspace_reuse_across_growing_sizes() {
    let mut workspace = PolyMulWorkspace::default();
    for (na, nb) in [(2usize, 2usize), (3, 7), (1, 1), (20, 45), (5, 3), (64, 65)] {
        let a = random_vec(na);
        let b = random_vec(nb);
        let got = poly_mul_ntt_with_workspace(&a, &b, &mut workspace).unwrap();
        assert_eq!(got, poly_mul_naive(&a, &b));
        let got = poly_mul_adaptive_with_workspace(&a, &b, &mut workspace).unwrap();
        assert_eq!(got, poly_mul_naive(&a, &b));
    }
}

#[test]
fn roots_with_workspace_match_naive() {
    let mut workspace = PolyMulWorkspace::default();
    for n in [0usize, 1, 2, 5, 17, 100] {
        let roots = random_vec(n);
        let expected = poly_from_roots_naive_generic(&roots);
        assert_eq!(poly_from_roots_ntt_with_workspace(&roots, &mut workspace).unwrap(), expected);
        assert_eq!(
            poly_from_roots_adaptive_with_workspace(&roots, &mut workspace).unwrap(),
            expected
        );
    }
}

#[test]
fn error_messages() {
    assert_eq!(NttError::NonPowerOfTwoLength.message(), "NTT input length must be a power of two");
    assert_eq!(NttError::UnsupportedLength.message(), "NTT input length exceeds field two-adicity");
    assert_eq!(NttError::LengthTooLarge.message(), "NTT input length is too large");
}

#[test]
fn field_element_encoding() {
    let x = Fe::from_u64(258);
    let mut bytes = [0u8; 32];
    bytes[0] = 2;
    bytes[1] = 1;
    assert_eq!(x.to_bytes(), bytes);
    assert_eq!(Fe::from_bytes(bytes), Some(x));
    assert_eq!(Fe::from_bytes([0xff; 32]), None);
    let minus_one = fe(-Fq::ONE);
    assert_eq!(Fq::from_repr(minus_one.to_bytes()).unwrap(), -Fq::ONE);
}

#[test]
fn bit_reverse_permute_twice_restores_the_order() {
    for n in [2usize, 8, 12, 64] {
        let mut v = random_vec(n);
        let original = v.clone();
        bit_reverse_permute(&mut v);
        bit_reverse_permute(&mut v);
        assert_eq!(v, original, "n = {}", n);
    }
}
