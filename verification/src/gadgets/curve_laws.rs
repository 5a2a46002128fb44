//! Algebraic facts about the values the curve gadgets compute: negation,
//! the point at infinity, and scalar multiplication by zero and by one.
use crate::field::{fmod, modulus};
use crate::gadgets::ecc::{
    add_incomplete_value, add_internal_value, add_value, double_incomplete_value, scalar_mul_regular, sm_complete_ok,
    sm_incomplete_ok, on_curve, double_value, incomplete_len, infinity, lemma_neg_neg_mod, middle_value, negate_value,
    scalar_mul_value, sm_complete, sm_incomplete, sm_middle,
};
use crate::gadgets::utils::is_bit;
use vstd::arithmetic::div_mod::*;
use vstd::arithmetic::mul::*;
use vstd::arithmetic::power2::*;
use vstd::prelude::*;

verus! {

/// The negation of a nonzero canonical value differs from it (the modulus is
/// odd).
proof fn lemma_neg_differs(y: int)
    requires
        0 < y < modulus(),
    ensures
        fmod(-y) != y,
        fmod(-y) == modulus() - y,
{
    let p = modulus() as int;
    lemma_mod_multiples_vanish(1, -y, p);
    lemma_small_mod((p - y) as nat, p as nat);
    assert(-y + p * 1 == p - y);
}

/// Negating a point twice gives it back, for a canonical `y` coordinate.
pub proof fn lemma_negate_involution(p: (int, int, int))
    requires
        0 <= p.1 < modulus(),
    ensures
        negate_value(negate_value(p)) == p,
{
    lemma_neg_neg_mod(p.1);
    lemma_small_mod(p.1 as nat, modulus() as nat);
}

/// A finite point plus its negation is the point at infinity, unless its
/// `y` coordinate is zero (a point of order two).
pub proof fn lemma_add_negation(p: (int, int, int), a: int)
    requires
        p.2 == 0,
        0 < p.1 < modulus(),
    ensures
        add_value(p, negate_value(p), a) == infinity(),
{
    lemma_neg_differs(p.1);
}

/// Adding the point at infinity, on either side, leaves a point unchanged.
pub proof fn lemma_add_infinity(p: (int, int, int), a: int)
    requires
        p.2 == 0 || p == infinity(),
    ensures
        add_value(p, infinity(), a) == p,
        add_value(infinity(), p, a) == p,
{
}

/// The point at infinity is its own double and its own sum.
pub proof fn lemma_infinity_absorbs(a: int)
    ensures
        double_value(infinity(), a) == infinity(),
        add_value(infinity(), infinity(), a) == infinity(),
{
}

/// The incomplete phase leaves the accumulator at the base while the bits
/// after the first are clear.
proof fn lemma_sm_incomplete_zero(base: (int, int), bits: Seq<int>, k: nat, a: int)
    requires
        k <= bits.len(),
        forall|i: int| 0 <= i < bits.len() ==> #[trigger] bits[i] == 0,
    ensures
        sm_incomplete(base, bits, k, a).0 == base,
    decreases k,
{
    if k > 1 {
        lemma_sm_incomplete_zero(base, bits, (k - 1) as nat, a);
    }
}

/// The complete phase leaves the accumulator unchanged while the bits are
/// clear.
proof fn lemma_sm_complete_zero(
    start: ((int, int, int), (int, int, int)),
    bits: Seq<int>,
    from: nat,
    k: nat,
    a: int,
)
    requires
        from + k <= bits.len(),
        forall|i: int| 0 <= i < bits.len() ==> #[trigger] bits[i] == 0,
    ensures
        sm_complete(start, bits, from, k, a).0 == start.0,
    decreases k,
{
    if k > 0 {
        lemma_sm_complete_zero(start, bits, from, (k - 1) as nat, a);
        assert(bits[from + k - 1] == 0);
    }
}

/// Multiplying by a scalar whose bits are all clear gives the point at
/// infinity, unless the point is finite with `y` zero (of order two).
pub proof fn lemma_scalar_mul_zero(p: (int, int, int), bits: Seq<int>, a: int)
    requires
        bits.len() >= 1,
        forall|i: int| 0 <= i < bits.len() ==> #[trigger] bits[i] == 0,
        is_bit(p.2),
        p.2 == 1 || 0 < p.1 < modulus(),
    ensures
        scalar_mul_value(p, bits, a) == infinity(),
{
    let split = incomplete_len(bits.len());
    lemma_sm_incomplete_zero((p.0, p.1), bits, split, a);
    assert(bits[0] == 0);
    if p.2 == 0 {
        lemma_neg_differs(p.1);
    }
    let start = sm_middle(p, bits, split, a);
    assert(start.0 == infinity());
    lemma_sm_complete_zero(start, bits, split, (bits.len() - split) as nat, a);
}

/// Multiplying by the one-bit scalar one gives the point back, the point at
/// infinity as `(0, 0)` with its flag.
pub proof fn lemma_scalar_mul_one(p: (int, int, int), a: int)
    requires
        is_bit(p.2),
    ensures
        scalar_mul_value(p, seq![1int], a) == (if p.2 == 1 {
            infinity()
        } else {
            p
        }),
{
    let bits = seq![1int];
    assert(incomplete_len(1) == 1);
    assert(bits[0] == 1);
    assert(middle_value(p, (p.0, p.1), 1, a) == (if p.2 == 1 {
        infinity()
    } else {
        p
    }));
}


/// Negating a point keeps it on the curve, and off it.
pub proof fn lemma_negate_on_curve(p: (int, int, int), a: int, b: int)
    ensures
        on_curve(negate_value(p), a, b) == on_curve(p, a, b),
{
    let m = modulus() as int;
    let ny = fmod(-p.1) as int;
    lemma_mul_mod_noop(ny, ny, m);
    lemma_mul_mod_noop(-p.1, -p.1, m);
    lemma_mod_twice(-p.1, m);
    assert((-p.1) * (-p.1) == p.1 * p.1) by (nonlinear_arith);
}


/// A point in canonical form: finite with coordinates below the modulus, or
/// the point at infinity as `(0, 0, 1)`.
pub open spec fn canonical_point(p: (int, int, int)) -> bool {
    (p.2 == 0 && 0 <= p.0 < modulus() && 0 <= p.1 < modulus()) || p == infinity()
}

/// A canonical point of the curve `y^2 = x^3 + a x + b`.
pub open spec fn curve_point(p: (int, int, int), a: int, b: int) -> bool {
    canonical_point(p) && on_curve(p, a, b)
}

/// The curve's points are closed under `add_value`, which is associative on
/// them: the group law of an elliptic curve (of odd order, so that no finite
/// point doubles to infinity) over a prime field.
pub open spec fn curve_group(a: int, b: int) -> bool {
    &&& forall|p: (int, int, int), q: (int, int, int)|
        curve_point(p, a, b) && curve_point(q, a, b) ==> #[trigger] curve_point(add_value(p, q, a), a, b)
    &&& forall|p: (int, int, int), q: (int, int, int), r: (int, int, int)|
        curve_point(p, a, b) && curve_point(q, a, b) && curve_point(r, a, b) ==> #[trigger] add_value(
            add_value(p, q, a),
            r,
            a,
        ) == add_value(p, add_value(q, r, a), a)
}

/// `k p`: the point at infinity for zero, else `(k - 1) p + p`.
pub open spec fn multiple(p: (int, int, int), k: nat, a: int) -> (int, int, int)
    decreases k,
{
    if k == 0 {
        infinity()
    } else {
        add_value(multiple(p, (k - 1) as nat, a), p, a)
    }
}

/// The number `sum_{i < k} bits[i] 2^i`.
pub open spec fn bits_number(bits: Seq<int>, k: nat) -> int
    decreases k,
{
    if k == 0 {
        0
    } else {
        bits_number(bits, (k - 1) as nat) + bits[k - 1] * pow2((k - 1) as nat)
    }
}

/// The multiples of a curve point are curve points.
proof fn lemma_multiple_on_curve(p: (int, int, int), k: nat, a: int, b: int)
    requires
        curve_group(a, b),
        curve_point(p, a, b),
    ensures
        curve_point(multiple(p, k, a), a, b),
    decreases k,
{
    if k > 0 {
        lemma_multiple_on_curve(p, (k - 1) as nat, a, b);
        let m = multiple(p, (k - 1) as nat, a);
        assert(curve_point(add_value(m, p, a), a, b));
    }
}

/// `(m + n) p = m p + n p`.
proof fn lemma_multiple_add(p: (int, int, int), m: nat, n: nat, a: int, b: int)
    requires
        curve_group(a, b),
        curve_point(p, a, b),
    ensures
        multiple(p, m + n, a) == add_value(multiple(p, m, a), multiple(p, n, a), a),
    decreases n,
{
    lemma_multiple_on_curve(p, m, a, b);
    if n == 0 {
        assert(m + n == m);
        lemma_add_infinity(multiple(p, m, a), a);
    } else {
        let n1 = (n - 1) as nat;
        lemma_multiple_add(p, m, n1, a, b);
        lemma_multiple_on_curve(p, n1, a, b);
        assert((m + n - 1) as nat == m + n1);
        let mm = multiple(p, m, a);
        let mn = multiple(p, n1, a);
        assert(add_value(add_value(mm, mn, a), p, a) == add_value(mm, add_value(mn, p, a), a));
    }
}

/// Doubling a curve point that is at infinity or has nonzero `y` is adding
/// it to itself.
proof fn lemma_double_is_add(q: (int, int, int), a: int)
    requires
        canonical_point(q),
        q.2 == 1 || q.1 != 0,
    ensures
        double_value(q, a) == add_value(q, q, a),
{
}

/// `2 (k p) = (2 k) p` for a multiple at infinity or with nonzero `y`.
proof fn lemma_multiple_double(p: (int, int, int), k: nat, a: int, b: int)
    requires
        curve_group(a, b),
        curve_point(p, a, b),
        multiple(p, k, a).2 == 1 || multiple(p, k, a).1 != 0,
    ensures
        double_value(multiple(p, k, a), a) == multiple(p, 2 * k, a),
{
    lemma_multiple_on_curve(p, k, a, b);
    lemma_double_is_add(multiple(p, k, a), a);
    lemma_multiple_add(p, k, k, a, b);
    assert(k + k == 2 * k);
}

/// The incomplete addition law agrees with the complete one on finite points
/// with distinct `x`.
proof fn lemma_incomplete_add_agrees(p: (int, int, int), q: (int, int, int), a: int)
    requires
        p.2 == 0,
        q.2 == 0,
        p.0 != q.0,
    ensures
        add_value(p, q, a) == (add_incomplete_value((p.0, p.1), (q.0, q.1)).0, add_incomplete_value(
            (p.0, p.1),
            (q.0, q.1),
        ).1, 0int),
{
}

/// `3 x^2 + a` reduced in one step or after reducing `x^2`.
proof fn lemma_tangent_numerator(x: int, a: int)
    ensures
        fmod(3 * (fmod(x * x) as int) + a) == fmod(3 * x * x + a),
{
    let m = modulus() as int;
    let s = x * x;
    lemma_mul_is_associative(3, x, x);
    assert(3 * x * x == 3 * s);
    lemma_mul_mod_noop_right(3, s, m);
    lemma_add_mod_noop(3 * (fmod(s) as int), a, m);
    lemma_add_mod_noop(3 * s, a, m);
    lemma_mod_twice(3 * s, m);
}

/// The incomplete doubling agrees with the complete one on canonical finite
/// points with nonzero `y`.
proof fn lemma_incomplete_double_agrees(p: (int, int, int), a: int)
    requires
        p.2 == 0,
        0 <= p.0 < modulus(),
        0 < p.1 < modulus(),
    ensures
        double_value(p, a) == (double_incomplete_value((p.0, p.1), a).0, double_incomplete_value(
            (p.0, p.1),
            a,
        ).1, 0int),
{
    crate::gadgets::ecc::lemma_double_nonzero(p.1);
    lemma_tangent_numerator(p.0, a);
}


/// The accumulator's number after `k >= 1` incomplete steps: the first bit
/// taken as set, `1 + sum_{1 <= i < k} bits[i] 2^i`.
pub open spec fn acc_number(bits: Seq<int>, k: nat) -> int
    decreases k,
{
    if k <= 1 {
        1
    } else {
        acc_number(bits, (k - 1) as nat) + bits[k - 1] * pow2((k - 1) as nat)
    }
}

/// All entries of `bits` are bits.
pub open spec fn all_bits(bits: Seq<int>) -> bool {
    forall|i: int| 0 <= i < bits.len() ==> #[trigger] is_bit(bits[i])
}

proof fn lemma_numbers(bits: Seq<int>, k: nat)
    requires
        all_bits(bits),
        1 <= k <= bits.len(),
    ensures
        bits_number(bits, k) >= bits[0],
        acc_number(bits, k) == bits_number(bits, k) - bits[0] + 1,
        acc_number(bits, k) >= 1,
    decreases k,
{
    assert(is_bit(bits[0]));
    if k == 1 {
        lemma2_to64();
        assert(bits_number(bits, 1) == bits_number(bits, 0) + bits[0] * pow2(0));
    } else {
        lemma_numbers(bits, (k - 1) as nat);
        lemma_pow2_pos((k - 1) as nat);
        assert(is_bit(bits[k - 1]));
        assert(bits[k - 1] * pow2((k - 1) as nat) >= 0) by (nonlinear_arith)
            requires
                bits[k - 1] >= 0,
                pow2((k - 1) as nat) > 0,
        ;
    }
}

/// The incomplete phase computes multiples: after `k` steps the accumulator
/// is `acc_number(bits, k) p` and the doubled point `2^k p`.
proof fn lemma_incomplete_multiples(p: (int, int, int), bits: Seq<int>, k: nat, a: int, b: int)
    requires
        curve_group(a, b),
        curve_point(p, a, b),
        p.2 == 0,
        all_bits(bits),
        1 <= k <= bits.len(),
        sm_incomplete_ok((p.0, p.1), bits, k, a),
    ensures
        ({
            let st = sm_incomplete((p.0, p.1), bits, k, a);
            &&& (st.0.0, st.0.1, 0int) == multiple(p, acc_number(bits, k) as nat, a)
            &&& (st.1.0, st.1.1, 0int) == multiple(p, pow2(k), a)
        }),
    decreases k,
{
    lemma_numbers(bits, k);
    if k == 1 {
        lemma2_to64();
        assert(multiple(p, 1, a) == add_value(multiple(p, 0, a), p, a));
        assert(multiple(p, 1, a) == p);
        lemma_incomplete_double_agrees(p, a);
        lemma_multiple_double(p, 1, a, b);
    } else {
        let k1 = (k - 1) as nat;
        lemma_incomplete_multiples(p, bits, k1, a, b);
        lemma_numbers(bits, k1);
        let prev = sm_incomplete((p.0, p.1), bits, k1, a);
        let ma = acc_number(bits, k1) as nat;
        let mq = pow2(k1);
        lemma_multiple_on_curve(p, ma, a, b);
        lemma_multiple_on_curve(p, mq, a, b);
        let pa = (prev.0.0, prev.0.1, 0int);
        let pq = (prev.1.0, prev.1.1, 0int);
        lemma_incomplete_add_agrees(pa, pq, a);
        lemma_multiple_add(p, ma, mq, a, b);
        lemma_incomplete_double_agrees(pq, a);
        lemma_multiple_double(p, mq, a, b);
        lemma_pow2_unfold(k);
        assert(is_bit(bits[k - 1]));
        if bits[k - 1] == 1 {
            assert(acc_number(bits, k) == acc_number(bits, k1) + mq);
            assert((ma + mq) as nat == acc_number(bits, k) as nat);
        } else {
            assert(acc_number(bits, k) == acc_number(bits, k1));
        }
    }
}

/// Removing the initial point when the first bit is clear leaves
/// `bits_number(bits, split) p`.
proof fn lemma_middle_multiple(p: (int, int, int), bits: Seq<int>, split: nat, a: int, b: int)
    requires
        curve_group(a, b),
        curve_point(p, a, b),
        p.2 == 0,
        p.1 != 0,
        all_bits(bits),
        1 <= split <= bits.len(),
        (sm_incomplete((p.0, p.1), bits, split, a).0.0, sm_incomplete((p.0, p.1), bits, split, a).0.1, 0int)
            == multiple(p, acc_number(bits, split) as nat, a),
    ensures
        middle_value(p, sm_incomplete((p.0, p.1), bits, split, a).0, bits[0], a) == multiple(
            p,
            bits_number(bits, split) as nat,
            a,
        ),
{
    lemma_numbers(bits, split);
    let v = bits_number(bits, split) as nat;
    lemma_multiple_on_curve(p, v, a, b);
    assert(is_bit(bits[0]));
    if bits[0] == 0 {
        assert(acc_number(bits, split) as nat == v + 1);
        assert(multiple(p, v + 1, a) == add_value(multiple(p, v, a), p, a));
        let n = negate_value(p);
        lemma_negate_on_curve(p, a, b);
        assert(curve_point(n, a, b));
        lemma_add_negation(p, a);
        assert(add_value(add_value(multiple(p, v, a), p, a), n, a) == add_value(
            multiple(p, v, a),
            add_value(p, n, a),
            a,
        ));
        lemma_add_infinity(multiple(p, v, a), a);
    }
}

/// The complete phase computes multiples: after `k` more steps from bit
/// `split`, the accumulator is `bits_number(bits, split + k) p` and the
/// doubled point `2^(split + k) p`.
proof fn lemma_complete_multiples(
    p: (int, int, int),
    bits: Seq<int>,
    split: nat,
    k: nat,
    a: int,
    b: int,
)
    requires
        curve_group(a, b),
        curve_point(p, a, b),
        all_bits(bits),
        1 <= split,
        split + k <= bits.len(),
        sm_complete_ok(
            (multiple(p, bits_number(bits, split) as nat, a), multiple(p, pow2(split), a)),
            bits,
            split,
            k,
            a,
        ),
    ensures
        sm_complete(
            (multiple(p, bits_number(bits, split) as nat, a), multiple(p, pow2(split), a)),
            bits,
            split,
            k,
            a,
        ) == (multiple(p, bits_number(bits, split + k) as nat, a), multiple(p, pow2(split + k), a)),
    decreases k,
{
    let start = (multiple(p, bits_number(bits, split) as nat, a), multiple(p, pow2(split), a));
    lemma_numbers(bits, split + k);
    assert(is_bit(bits[0]));
    if k > 0 {
        let k1 = (k - 1) as nat;
        let j = split + k1;
        lemma_complete_multiples(p, bits, split, k1, a, b);
        lemma_numbers(bits, j);
        let v = bits_number(bits, j) as nat;
        let mq = pow2(j);
        lemma_multiple_on_curve(p, v, a, b);
        lemma_multiple_on_curve(p, mq, a, b);
        lemma_multiple_add(p, v, mq, a, b);
        lemma_multiple_double(p, mq, a, b);
        lemma_pow2_unfold(j + 1);
        assert(j + 1 == split + k);
        assert(is_bit(bits[j as int]));
        assert(bits_number(bits, j + 1) == bits_number(bits, j) + bits[j as int] * mq);
        if bits[j as int] == 1 {
            assert(bits[j as int] * mq == mq);
            assert((v + mq) as nat == bits_number(bits, split + k) as nat);
        } else {
            assert(bits[j as int] * mq == 0);
        }
        let prev = sm_complete(start, bits, split, k1, a);
        assert(sm_complete(start, bits, split, k, a) == (if bits[split + k - 1] == 1 {
            add_value(prev.0, prev.1, a)
        } else {
            prev.0
        }, double_value(prev.1, a)));
        assert(split + k - 1 == j);
    }
}

/// Scalar multiplication computes the multiple of the point by the number
/// the bits write (least significant first), on a curve whose addition is
/// a group law, whenever every step of the computation is regular.
pub proof fn lemma_scalar_mul_is_multiple(p: (int, int, int), bits: Seq<int>, a: int, b: int)
    requires
        curve_group(a, b),
        curve_point(p, a, b),
        p.2 == 0,
        bits.len() >= 1,
        all_bits(bits),
        scalar_mul_regular(p, bits, a),
    ensures
        scalar_mul_value(p, bits, a) == multiple(p, bits_number(bits, bits.len()) as nat, a),
{
    let n = bits.len();
    let split = incomplete_len(n);
    let base = (p.0, p.1);
    lemma_incomplete_multiples(p, bits, split, a, b);
    crate::gadgets::ecc::lemma_sm_incomplete_ok_prefix(base, bits, 1, split, a);
    assert(p.1 != 0);
    lemma_middle_multiple(p, bits, split, a, b);
    let st = sm_incomplete(base, bits, split, a);
    assert(st.1 == (multiple(p, pow2(split), a).0, multiple(p, pow2(split), a).1));
    assert(sm_middle(p, bits, split, a) == (
        multiple(p, bits_number(bits, split) as nat, a),
        multiple(p, pow2(split), a),
    ));
    lemma_complete_multiples(p, bits, split, (n - split) as nat, a, b);
    assert(split + (n - split) as nat == n);
}


/// The complete phase keeps both points at infinity once they are.
proof fn lemma_complete_flags(
    start: ((int, int, int), (int, int, int)),
    bits: Seq<int>,
    from: nat,
    k: nat,
    a: int,
)
    requires
        start.0.2 == 1,
        start.1.2 == 1,
    ensures
        sm_complete(start, bits, from, k, a).0.2 == 1,
        sm_complete(start, bits, from, k, a).1.2 == 1,
    decreases k,
{
    if k > 0 {
        lemma_complete_flags(start, bits, from, (k - 1) as nat, a);
    }
}

/// Multiplying the point at infinity, whatever its coordinates, by any
/// scalar gives a point at infinity.
pub proof fn lemma_scalar_mul_of_infinity(p: (int, int, int), bits: Seq<int>, a: int)
    requires
        p.2 == 1,
        bits.len() >= 1,
    ensures
        scalar_mul_value(p, bits, a).2 == 1,
{
    let split = incomplete_len(bits.len());
    let start = sm_middle(p, bits, split, a);
    assert(start.0.2 == 1);
    lemma_complete_flags(start, bits, split, (bits.len() - split) as nat, a);
}


/// The addition told whether the `x` coordinates agree returns the other
/// point when one of the two is at infinity (the first one first), whatever
/// it is told.
pub proof fn lemma_add_internal_infinity(p: (int, int, int), q: (int, int, int), e: int)
    ensures
        p.2 == 1 ==> add_internal_value(p, q, e) == q,
        p.2 != 1 && q.2 == 1 ==> add_internal_value(p, q, e) == p,
{
}

} // verus!
