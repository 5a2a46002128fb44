use ff::{Field, PrimeField};
use num_bigint::BigUint;
use pasta_curves::{Fp, Fq};
use spartan2::field::Fe;
use spartan2::gadgets::less_than::{lt_constant, LtCircuit};
use spartan2::gadgets::r1cs::Term;

fn fq(x: &Fe) -> Fq {
    Fq::from_repr(x.to_bytes()).unwrap()
}

fn fe_from_biguint(v: &BigUint) -> Fe {
    let mut bytes = [0u8; 32];
    let le = v.to_bytes_le();
    bytes[..le.len()].copy_from_slice(&le);
    Fe::from_bytes(bytes).unwrap()
}

/// The honest assignment: the constant one, `x`, then the recorded values.
fn assignment(c: &LtCircuit, x: Fe) -> Vec<Fq> {
    let mut z = vec![Fq::ONE, fq(&x)];
    for v in c.aux.iter() {
        z.push(fq(&v.expect("every value is known")));
    }
    z
}

fn lc(terms: &[Term], z: &[Fq]) -> Fq {
    terms.iter().fold(Fq::ZERO, |acc, t| acc + fq(&t.coeff) * z[t.var])
}

fn satisfied(c: &LtCircuit, z: &[Fq]) -> bool {
    c.constraints.iter().all(|k| lc(&k.a, z) * lc(&k.b, z) == lc(&k.c, z))
}

/// The modulus of `Fp`, below that of `Fq`, as an integer.
fn fp_modulus() -> BigUint {
    BigUint::parse_bytes(Fp::MODULUS.trim_start_matches("0x").as_bytes(), 16).unwrap()
}

#[test]
fn lt_constant_small_bound_decides_every_value() {
    // q = 10 has four bits, so x ranges over 0..16
    for x in 0u64..16 {
        let xv = Fe::from_u64(x);
        let c = lt_constant(Some(xv), &[10u8]);
        let z = assignment(&c, xv);
        assert!(satisfied(&c, &z), "x = {}", x);
        let expected = if x < 10 { Fq::ONE } else { Fq::ZERO };
        assert_eq!(z[c.output], expected, "x = {}", x);
    }
}

#[test]
fn lt_constant_rejects_values_beyond_the_bit_length() {
    for x in [16u64, 17, 100, 1 << 40] {
        let xv = Fe::from_u64(x);
        let c = lt_constant(Some(xv), &[10u8]);
        let z = assignment(&c, xv);
        assert!(!satisfied(&c, &z), "x = {}", x);
    }
}

#[test]
fn lt_constant_power_of_two_bound() {
    // q = 256 = [0x00, 0x01] has nine bits
    for x in [0u64, 1, 255, 256, 300, 511] {
        let xv = Fe::from_u64(x);
        let c = lt_constant(Some(xv), &[0u8, 1u8]);
        let z = assignment(&c, xv);
        assert!(satisfied(&c, &z), "x = {}", x);
        let expected = if x < 256 { Fq::ONE } else { Fq::ZERO };
        assert_eq!(z[c.output], expected, "x = {}", x);
    }
    let xv = Fe::from_u64(512);
    let c = lt_constant(Some(xv), &[0u8, 1u8]);
    assert!(!satisfied(&c, &assignment(&c, xv)));
}

#[test]
fn lt_constant_field_modulus_bound() {
    let q = fp_modulus();
    let q_bytes = q.to_bytes_le();
    let below = &q - BigUint::from(1u64);
    let xv = fe_from_biguint(&below);
    let c = lt_constant(Some(xv), &q_bytes);
    let z = assignment(&c, xv);
    assert!(satisfied(&c, &z));
    assert_eq!(z[c.output], Fq::ONE);

    let xv = fe_from_biguint(&q);
    let c = lt_constant(Some(xv), &q_bytes);
    let z = assignment(&c, xv);
    assert!(satisfied(&c, &z));
    assert_eq!(z[c.output], Fq::ZERO);
}

#[test]
fn lt_constant_without_value_records_only_constants() {
    let with = lt_constant(Some(Fe::from_u64(3)), &[10u8]);
    let without = lt_constant(None, &[10u8]);
    assert_eq!(with.constraints.len(), without.constraints.len());
    assert_eq!(with.aux.len(), without.aux.len());
    let k = 4;
    for (j, v) in without.aux.iter().enumerate() {
        assert_eq!(v.is_some(), j == k || j == k + 1, "j = {}", j);
    }
}

#[test]
fn lt_constant_single_bit_bound() {
    // q = 1 has one bit: only x = 0 is below it
    for x in [0u64, 1] {
        let xv = Fe::from_u64(x);
        let c = lt_constant(Some(xv), &[1u8]);
        let z = assignment(&c, xv);
        assert!(satisfied(&c, &z));
        assert_eq!(z[c.output], if x == 0 { Fq::ONE } else { Fq::ZERO });
    }
}

#[test]
fn lt_constant_constraint_count() {
    // q = 10 = 0b1010: four bits, two of them set
    let c = lt_constant(Some(Fe::from_u64(3)), &[10u8]);
    assert_eq!(c.constraints.len(), 2 * 4 + 3 + 2 * 2);
    // q = 256: nine bits, one set
    let c = lt_constant(None, &[0u8, 1u8]);
    assert_eq!(c.constraints.len(), 2 * 9 + 3 + 2);
}

#[test]
fn lt_constant_bits_are_the_digits_of_x() {
    let xv = Fe::from_u64(0b1011);
    let c = lt_constant(Some(xv), &[13u8]);
    let z = assignment(&c, xv);
    let digits: Vec<Fq> = (0..4).map(|j| z[2 + j]).collect();
    assert_eq!(digits, vec![Fq::ONE, Fq::ONE, Fq::ZERO, Fq::ONE]);
}
