use ff::{Field, PrimeField, PrimeFieldBits};
use pasta_curves::arithmetic::CurveAffine;
use pasta_curves::{EqAffine, Fp, Fq};
use rand::rngs::OsRng;
use spartan2::field::Fe;
use spartan2::gadgets::circuit::{Circuit, Num};
use spartan2::gadgets::ecc::{AllocatedPoint, AllocatedPointNonInfinity};
use spartan2::gadgets::r1cs::Term;
use spartan2::gadgets::utils::alloc_bit;

fn fe(x: Fq) -> Fe {
    Fe::from_bytes(x.to_repr()).unwrap()
}

fn fq(x: &Fe) -> Fq {
    Fq::from_repr(x.to_bytes()).unwrap()
}

/// The honest assignment of a circuit whose values are all known.
fn assignment(cs: &Circuit) -> Vec<Fq> {
    let mut z = vec![Fq::ONE];
    for v in cs.aux.iter() {
        z.push(fq(&v.expect("every value is known")));
    }
    z
}

fn lc(terms: &[Term], z: &[Fq]) -> Fq {
    terms.iter().fold(Fq::ZERO, |acc, t| acc + fq(&t.coeff) * z[t.var])
}

/// Every constraint holds on the honest assignment.
fn satisfied(cs: &Circuit) -> bool {
    let z = assignment(cs);
    cs.constraints.iter().all(|c| lc(&c.a, &z) * lc(&c.b, &z) == lc(&c.c, &z))
}

fn value(n: &Num) -> Fq {
    fq(&n.value.expect("known value"))
}

fn coords(p: &AllocatedPoint) -> (Fq, Fq, Fq) {
    (value(&p.x), value(&p.y), value(&p.is_infinity))
}

/// The Vesta generator `(-1, 2)`, a point of `y^2 = x^3 + 5` over `Fq`.
fn generator() -> EqAffine {
    EqAffine::from_xy(-Fq::ONE, Fq::from(2u64)).unwrap()
}

/// `k G` as (x, y, flag), the point at infinity as (0, 0, 1).
fn multiple(k: Fp) -> (Fq, Fq, Fq) {
    let p = EqAffine::from(&generator() * &k);
    let c = p.coordinates();
    if bool::from(c.is_some()) {
        let c = c.unwrap();
        (*c.x(), *c.y(), Fq::ZERO)
    } else {
        (Fq::ZERO, Fq::ZERO, Fq::ONE)
    }
}

fn alloc_multiple(cs: &mut Circuit, k: u64) -> AllocatedPoint {
    let (x, y, _) = multiple(Fp::from(k));
    AllocatedPoint::alloc_point(cs, Some((fe(x), fe(y), false)))
}

fn alloc_bits(cs: &mut Circuit, bits: &[bool]) -> Vec<Num> {
    bits.iter().map(|b| alloc_bit(cs, Some(*b))).collect()
}

fn curve_a() -> Fe {
    Fe::zero()
}

fn curve_b() -> Fe {
    Fe::from_u64(5)
}

#[test]
fn alloc_point_records_coordinates() {
    let mut cs = Circuit::new();
    let p = AllocatedPoint::alloc_point(&mut cs, Some((Fe::from_u64(3), Fe::from_u64(4), false)));
    assert_eq!(coords(&p), (Fq::from(3u64), Fq::from(4u64), Fq::ZERO));
    let q = AllocatedPoint::alloc_point(&mut cs, None);
    assert_eq!(coords(&q), (Fq::ZERO, Fq::ZERO, Fq::ONE));
    assert!(satisfied(&cs));
}

#[test]
fn default_point_is_infinity() {
    let mut cs = Circuit::new();
    let p = AllocatedPoint::default(&mut cs);
    assert_eq!(coords(&p), (Fq::ZERO, Fq::ZERO, Fq::ONE));
    assert!(satisfied(&cs));
}

#[test]
fn check_on_curve_accepts_curve_points() {
    let mut cs = Circuit::new();
    let g = alloc_multiple(&mut cs, 1);
    g.check_on_curve(&mut cs, curve_a(), curve_b());
    let p = alloc_multiple(&mut cs, 12345);
    p.check_on_curve(&mut cs, curve_a(), curve_b());
    let inf = AllocatedPoint::alloc_point(&mut cs, None);
    inf.check_on_curve(&mut cs, curve_a(), curve_b());
    assert!(satisfied(&cs));
}

#[test]
fn check_on_curve_rejects_other_points() {
    let mut cs = Circuit::new();
    let p = AllocatedPoint::alloc_point(&mut cs, Some((Fe::from_u64(1), Fe::from_u64(1), false)));
    p.check_on_curve(&mut cs, curve_a(), curve_b());
    assert!(!satisfied(&cs));
}

#[test]
fn negate_negates_y() {
    let mut cs = Circuit::new();
    let g = alloc_multiple(&mut cs, 1);
    let n = g.negate(&mut cs);
    assert_eq!(coords(&n), (-Fq::ONE, -Fq::from(2u64), Fq::ZERO));
    assert!(satisfied(&cs));
}

#[test]
fn negate_twice_gives_the_point_back() {
    let mut cs = Circuit::new();
    let p = alloc_multiple(&mut cs, 7);
    let n = p.negate(&mut cs);
    let nn = n.negate(&mut cs);
    assert_eq!(coords(&nn), coords(&p));
    assert!(satisfied(&cs));
}

#[test]
fn add_distinct_points_is_the_curve_sum() {
    let mut cs = Circuit::new();
    let g = alloc_multiple(&mut cs, 1);
    let g2 = alloc_multiple(&mut cs, 2);
    let s = g.add(&mut cs, &g2, curve_a());
    assert_eq!(coords(&s), multiple(Fp::from(3u64)));
    assert!(satisfied(&cs));
}

#[test]
fn add_equal_points_doubles() {
    let mut cs = Circuit::new();
    let p = alloc_multiple(&mut cs, 5);
    let q = alloc_multiple(&mut cs, 5);
    let s = p.add(&mut cs, &q, curve_a());
    assert_eq!(coords(&s), multiple(Fp::from(10u64)));
    let d = p.double(&mut cs, curve_a());
    assert_eq!(coords(&d), multiple(Fp::from(10u64)));
    assert!(satisfied(&cs));
}

#[test]
fn add_point_and_its_negation_is_infinity() {
    let mut cs = Circuit::new();
    let p = alloc_multiple(&mut cs, 9);
    let n = p.negate(&mut cs);
    let s = p.add(&mut cs, &n, curve_a());
    assert_eq!(coords(&s), (Fq::ZERO, Fq::ZERO, Fq::ONE));
    assert!(satisfied(&cs));
}

#[test]
fn add_infinity_on_either_side_is_identity() {
    let mut cs = Circuit::new();
    let p = alloc_multiple(&mut cs, 4);
    let inf = AllocatedPoint::default(&mut cs);
    let s1 = p.add(&mut cs, &inf, curve_a());
    let s2 = inf.add(&mut cs, &p, curve_a());
    assert_eq!(coords(&s1), coords(&p));
    assert_eq!(coords(&s2), coords(&p));
    let s3 = inf.add(&mut cs, &inf, curve_a());
    assert_eq!(coords(&s3), (Fq::ZERO, Fq::ZERO, Fq::ONE));
    assert!(satisfied(&cs));
}

#[test]
fn double_infinity_is_infinity() {
    let mut cs = Circuit::new();
    let inf = AllocatedPoint::default(&mut cs);
    let d = inf.double(&mut cs, curve_a());
    assert_eq!(coords(&d).2, Fq::ONE);
    assert!(satisfied(&cs));
}

#[test]
fn add_internal_of_distinct_points() {
    let mut cs = Circuit::new();
    let p = alloc_multiple(&mut cs, 3);
    let q = alloc_multiple(&mut cs, 8);
    let equal_x = alloc_bit(&mut cs, Some(false));
    let s = p.add_internal(&mut cs, &q, equal_x);
    assert_eq!(coords(&s), multiple(Fp::from(11u64)));
    assert!(satisfied(&cs));
}

#[test]
fn conditionally_select_points_by_bit() {
    let mut cs = Circuit::new();
    let a = alloc_multiple(&mut cs, 2);
    let b = alloc_multiple(&mut cs, 3);
    let one = alloc_bit(&mut cs, Some(true));
    let zero = alloc_bit(&mut cs, Some(false));
    let r1 = AllocatedPoint::conditionally_select(&mut cs, &a, &b, one);
    let r0 = AllocatedPoint::conditionally_select(&mut cs, &a, &b, zero);
    assert_eq!(coords(&r1), coords(&a));
    assert_eq!(coords(&r0), coords(&b));
    let i1 = AllocatedPoint::select_point_or_infinity(&mut cs, &a, one);
    let i0 = AllocatedPoint::select_point_or_infinity(&mut cs, &a, zero);
    assert_eq!(coords(&i1), coords(&a));
    assert_eq!(coords(&i0), (Fq::ZERO, Fq::ZERO, Fq::ONE));
    assert!(satisfied(&cs));
}

#[test]
fn incomplete_laws_on_finite_points() {
    let mut cs = Circuit::new();
    let p = alloc_multiple(&mut cs, 6);
    let q = alloc_multiple(&mut cs, 13);
    let pa = AllocatedPointNonInfinity::from_allocated_point(&p);
    let qa = AllocatedPointNonInfinity::from_allocated_point(&q);
    let s = pa.add_incomplete(&mut cs, &qa);
    let (x, y, _) = multiple(Fp::from(19u64));
    assert_eq!((value(&s.x), value(&s.y)), (x, y));
    let d = pa.double_incomplete(&mut cs, curve_a());
    let (x, y, _) = multiple(Fp::from(12u64));
    assert_eq!((value(&d.x), value(&d.y)), (x, y));
    let one = alloc_bit(&mut cs, Some(true));
    let sel = AllocatedPointNonInfinity::conditionally_select(&mut cs, &s, &d, one);
    assert_eq!(value(&sel.x), value(&s.x));
    let back = sel.to_allocated_point(p.is_infinity);
    assert_eq!(coords(&back).2, Fq::ZERO);
    assert!(satisfied(&cs));
}

#[test]
fn scalar_mul_by_small_scalar() {
    let mut cs = Circuit::new();
    let g = alloc_multiple(&mut cs, 1);
    // 5 = 0b101, least significant bit first
    let bits = alloc_bits(&mut cs, &[true, false, true]);
    let r = g.scalar_mul(&mut cs, &bits, curve_a());
    assert_eq!(coords(&r), multiple(Fp::from(5u64)));
    assert!(satisfied(&cs));
}

#[test]
fn scalar_mul_by_even_scalar_removes_the_initial_point() {
    let mut cs = Circuit::new();
    let g = alloc_multiple(&mut cs, 3);
    // 6 = 0b0110
    let bits = alloc_bits(&mut cs, &[false, true, true, false]);
    let r = g.scalar_mul(&mut cs, &bits, curve_a());
    assert_eq!(coords(&r), multiple(Fp::from(18u64)));
    assert!(satisfied(&cs));
}

#[test]
fn scalar_mul_by_full_width_scalar() {
    let k = Fp::random(&mut OsRng);
    let bits: Vec<bool> = k.to_le_bits().iter().map(|b| *b).take(255).collect();
    let mut cs = Circuit::new();
    let g = alloc_multiple(&mut cs, 1);
    let nums = alloc_bits(&mut cs, &bits);
    let r = g.scalar_mul(&mut cs, &nums, curve_a());
    assert_eq!(coords(&r), multiple(k));
    r.check_on_curve(&mut cs, curve_a(), curve_b());
    assert!(satisfied(&cs));
}

#[test]
fn scalar_mul_by_zero_is_infinity() {
    let mut cs = Circuit::new();
    let g = alloc_multiple(&mut cs, 1);
    let bits = alloc_bits(&mut cs, &[false, false, false]);
    let r = g.scalar_mul(&mut cs, &bits, curve_a());
    assert_eq!(coords(&r), (Fq::ZERO, Fq::ZERO, Fq::ONE));
    assert!(satisfied(&cs));
}

#[test]
fn scalar_mul_by_one_is_the_point() {
    let mut cs = Circuit::new();
    let p = alloc_multiple(&mut cs, 21);
    let bits = alloc_bits(&mut cs, &[true]);
    let r = p.scalar_mul(&mut cs, &bits, curve_a());
    assert_eq!(coords(&r), coords(&p));
    assert!(satisfied(&cs));
}

#[test]
fn scalar_mul_of_infinity_is_infinity() {
    let mut cs = Circuit::new();
    let inf = AllocatedPoint::alloc_point(&mut cs, None);
    let bits = alloc_bits(&mut cs, &[true, false, true]);
    let r = inf.scalar_mul(&mut cs, &bits, curve_a());
    assert_eq!(coords(&r), (Fq::ZERO, Fq::ZERO, Fq::ONE));
    assert!(satisfied(&cs));
}

#[test]
fn scalar_mul_without_values_lays_out_the_same_constraints() {
    let mut with = Circuit::new();
    let g = alloc_multiple(&mut with, 1);
    let bits = alloc_bits(&mut with, &[true, true, false, true]);
    let before = with.constraints.len();
    let r = g.scalar_mul(&mut with, &bits, curve_a());
    let added_with = with.constraints.len() - before;
    assert!(r.is_infinity.value.is_some());

    let mut without = Circuit::new();
    let x = without.alloc_var(None);
    let y = without.alloc_var(None);
    let inf = without.alloc_var(None);
    let p = AllocatedPoint { x, y, is_infinity: inf };
    let nums: Vec<Num> = (0..4).map(|_| alloc_bit(&mut without, None)).collect();
    let before = without.constraints.len();
    let r = p.scalar_mul(&mut without, &nums, curve_a());
    assert_eq!(without.constraints.len() - before, added_with);
    assert!(r.is_infinity.value.is_none());
}

#[test]
fn negated_points_stay_on_the_curve() {
    let mut cs = Circuit::new();
    let p = alloc_multiple(&mut cs, 77);
    let n = p.negate(&mut cs);
    n.check_on_curve(&mut cs, curve_a(), curve_b());
    assert!(satisfied(&cs));

    let mut off = Circuit::new();
    let q = AllocatedPoint::alloc_point(&mut off, Some((Fe::from_u64(2), Fe::from_u64(3), false)));
    let m = q.negate(&mut off);
    m.check_on_curve(&mut off, curve_a(), curve_b());
    assert!(!satisfied(&off));
}

#[test]
fn add_internal_of_opposite_points_is_infinity() {
    let mut cs = Circuit::new();
    let p = alloc_multiple(&mut cs, 5);
    let n = p.negate(&mut cs);
    let equal_x = alloc_bit(&mut cs, Some(true));
    let s = p.add_internal(&mut cs, &n, equal_x);
    assert_eq!(coords(&s), (Fq::ZERO, Fq::ZERO, Fq::ONE));
    assert!(satisfied(&cs));
}

#[test]
fn add_infinity_to_a_point_with_zero_x() {
    // (0, y) with y^2 = 5, when 5 is a square
    let root: Option<Fq> = Option::from(Fq::from(5u64).sqrt());
    if let Some(y) = root {
        let mut cs = Circuit::new();
        let p = AllocatedPoint::alloc_point(&mut cs, Some((Fe::zero(), fe(y), false)));
        let inf = AllocatedPoint::default(&mut cs);
        let s1 = inf.add(&mut cs, &p, curve_a());
        let s2 = p.add(&mut cs, &inf, curve_a());
        assert_eq!(coords(&s1), (Fq::ZERO, y, Fq::ZERO));
        assert_eq!(coords(&s2), (Fq::ZERO, y, Fq::ZERO));
        assert!(satisfied(&cs));
    }
    // a point with flag zero and x zero, whatever its y
    let mut cs = Circuit::new();
    let p = AllocatedPoint::alloc_point(&mut cs, Some((Fe::zero(), Fe::from_u64(7), false)));
    let inf = AllocatedPoint::default(&mut cs);
    let s = inf.add(&mut cs, &p, curve_a());
    assert_eq!(coords(&s), (Fq::ZERO, Fq::from(7u64), Fq::ZERO));
    assert!(satisfied(&cs));
}

#[test]
fn default_shares_one_variable_for_both_coordinates() {
    let mut cs = Circuit::new();
    let p = AllocatedPoint::default(&mut cs);
    assert_eq!(p.x.var, p.y.var);
    assert_ne!(p.x.var, p.is_infinity.var);
}

#[test]
fn scalar_mul_of_unknown_point_with_known_bits() {
    let mut cs = Circuit::new();
    let x = cs.alloc_var(None);
    let y = cs.alloc_var(None);
    let inf = cs.alloc_var(None);
    let p = AllocatedPoint { x, y, is_infinity: inf };
    let bits = alloc_bits(&mut cs, &[true, false, true, true]);
    let r = p.scalar_mul(&mut cs, &bits, curve_a());
    assert!(r.is_infinity.value.is_none());
}

#[test]
fn scalar_mul_of_infinity_over_complete_bits_keeps_the_flag() {
    // more bits than the incomplete phase takes, so the complete phase runs
    let mut bits = vec![false; 255];
    bits[0] = true;
    bits[254] = true;
    let mut cs = Circuit::new();
    let inf = AllocatedPoint::alloc_point(&mut cs, None);
    let nums = alloc_bits(&mut cs, &bits);
    let r = inf.scalar_mul(&mut cs, &nums, curve_a());
    assert_eq!(coords(&r).2, Fq::ONE);
    assert!(satisfied(&cs));
}
