//! The incomplete phase of scalar multiplication run on the point at
//! infinity `(0, 0)` of a curve with `a = 0`: the accumulator stays at
//! `(0, 0)` and the doubled point runs along the cusp `y^2 = x^3` as
//! `(h^2, -h^3)` with `h` the powers of one half, so every step's
//! constraints can be met.
use crate::field::{fmod, modulus};
use crate::gadgets::ecc::{
    add_incomplete_value, chord_x, chord_y, double_incomplete_value, incomplete_add_ok,
    incomplete_double_ok, incomplete_slope, lemma_quotient_unique, quotient, sm_incomplete,
    sm_incomplete_complete, tangent_slope,
};
use crate::gadgets::r1cs::no_zero_divisors;
use vstd::arithmetic::div_mod::*;
use vstd::prelude::*;

verus! {

/// One half modulo `q`.
pub open spec fn half() -> int {
    ((modulus() + 1) / 2) as int
}

/// The `j`-th power of one half, reduced.
pub open spec fn half_power(j: nat) -> int
    decreases j,
{
    if j == 0 {
        1
    } else {
        fmod(half() * half_power((j - 1) as nat)) as int
    }
}

/// The `j`-th power of two, reduced.
pub open spec fn two_power(j: nat) -> int
    decreases j,
{
    if j == 0 {
        1
    } else {
        fmod(2 * two_power((j - 1) as nat)) as int
    }
}

proof fn lemma_half_facts()
    ensures
        2 * half() == modulus() + 1,
        0 < half() < modulus(),
        modulus() > 2,
{
}

/// Equal up to a multiple of `q`, equal residues.
proof fn lemma_cong(a: int, b: int, k: int)
    requires
        a == b + modulus() * k,
    ensures
        fmod(a) == fmod(b),
{
    lemma_mod_multiples_vanish(k, b, modulus() as int);
    assert(modulus() * k + b == a);
}

proof fn lemma_cong_mul(x: int, x2: int, y: int, y2: int)
    requires
        fmod(x) == fmod(x2),
        fmod(y) == fmod(y2),
    ensures
        fmod(x * y) == fmod(x2 * y2),
{
    let m = modulus() as int;
    lemma_mul_mod_noop(x, y, m);
    lemma_mul_mod_noop(x2, y2, m);
}

proof fn lemma_cong_add(x: int, x2: int, y: int, y2: int)
    requires
        fmod(x) == fmod(x2),
        fmod(y) == fmod(y2),
    ensures
        fmod(x + y) == fmod(x2 + y2),
{
    let m = modulus() as int;
    lemma_add_mod_noop(x, y, m);
    lemma_add_mod_noop(x2, y2, m);
}

proof fn lemma_cong_neg(x: int, x2: int)
    requires
        fmod(x) == fmod(x2),
    ensures
        fmod(-x) == fmod(-x2),
{
    let m = modulus() as int;
    lemma_sub_mod_noop(0, x, m);
    lemma_sub_mod_noop(0, x2, m);
}

proof fn lemma_fmod_fmod(x: int)
    ensures
        fmod(fmod(x) as int) == fmod(x),
        0 <= fmod(x) < modulus(),
{
    lemma_mod_twice(x, modulus() as int);
    lemma_mod_bound(x, modulus() as int);
}

/// The powers of one half and of two are canonical and inverse to each
/// other.
proof fn lemma_half_two(j: nat)
    ensures
        0 <= half_power(j) < modulus(),
        0 <= two_power(j) < modulus(),
        fmod(half_power(j) * two_power(j)) == 1,
    decreases j,
{
    lemma_half_facts();
    if j == 0 {
        lemma_small_mod(1, modulus());
    } else {
        let j1 = (j - 1) as nat;
        lemma_half_two(j1);
        let h = half_power(j1);
        let t = two_power(j1);
        lemma_fmod_fmod(half() * h);
        lemma_fmod_fmod(2 * t);
        lemma_cong_mul(half_power(j), half() * h, two_power(j), 2 * t);
        assert((half() * h) * (2 * t) == (h * t) + modulus() * (h * t)) by (nonlinear_arith)
            requires
                2 * half() == modulus() + 1,
        ;
        lemma_cong((half() * h) * (2 * t), h * t, h * t);
    }
}

/// A nonzero product modulo `q` when a factor is invertible: `u^2` and
/// `2 u^3` are not multiples of `q` when `u t` is one.
proof fn lemma_powers_nonzero(u: int, t: int)
    requires
        fmod(u * t) == 1,
    ensures
        fmod(u * u) != 0,
        fmod(2 * (-(u * u * u))) != 0,
{
    let m = modulus() as int;
    lemma_half_facts();
    lemma_small_mod(1, modulus());
    lemma_small_mod(0, modulus());
    if fmod(u * u) == 0 {
        lemma_cong_mul(u * t, 1, u * t, 1);
        assert((u * t) * (u * t) == (u * u) * (t * t)) by (nonlinear_arith);
        lemma_fmod_fmod(u * u);
        lemma_cong_mul(u * u, 0, t * t, t * t);
        assert(false);
    }
    if fmod(2 * (-(u * u * u))) == 0 {
        let e = 2 * (-(u * u * u));
        lemma_cong_mul(e, 0, half() * (t * t * t), half() * (t * t * t));
        // e * (half t^3) == -(u t)^3 (2 half) == -(u t)^3 (q + 1)
        let v = u * t;
        assert(e * (half() * (t * t * t)) == -(v * v * v) + modulus() * (-(v * v * v))) by (nonlinear_arith)
            requires
                2 * half() == modulus() + 1,
                e == 2 * (-(u * u * u)),
                v == u * t,
        ;
        lemma_cong(e * (half() * (t * t * t)), -(v * v * v), -(v * v * v));
        lemma_cong_mul(v, 1, v, 1);
        lemma_cong_mul(v * v, 1, v, 1);
        lemma_cong_neg(v * v * v, 1);
        assert(fmod(-1) == modulus() - 1) by {
            lemma_cong(-1, modulus() - 1, -1);
            lemma_small_mod((modulus() - 1) as nat, modulus());
        }
        assert(false);
    }
}


/// Adding a point `(u^2, -u^3)` of the cusp to `(0, 0)` by the incomplete law
/// gives `(0, 0)`, and its constraints can be met.
proof fn lemma_add_from_origin(u: int, t: int)
    requires
        no_zero_divisors(),
        fmod(u * t) == 1,
    ensures
        incomplete_add_ok((0, 0), (fmod(u * u) as int, fmod(-(u * u * u)) as int)),
        add_incomplete_value((0, 0), (fmod(u * u) as int, fmod(-(u * u * u)) as int)) == (0int, 0int),
{
    let x = fmod(u * u) as int;
    let y = fmod(-(u * u * u)) as int;
    let l = fmod(-u) as int;
    lemma_powers_nonzero(u, t);
    lemma_fmod_fmod(u * u);
    lemma_fmod_fmod(-(u * u * u));
    lemma_fmod_fmod(-u);
    lemma_cong_mul(l, -u, x, u * u);
    assert((-u) * (u * u) == -(u * u * u)) by (nonlinear_arith);
    lemma_quotient_unique(y, x, l);
    assert(incomplete_slope((0, 0), (x, y)) == quotient(y - 0, x - 0));
    assert(y - 0 == y && x - 0 == x);
    lemma_cong_mul(l, -u, l, -u);
    assert((-u) * (-u) == u * u) by (nonlinear_arith);
    lemma_cong_neg(x, u * u);
    lemma_cong_add(l * l, u * u, -x, -(u * u));
    assert(l * l - 0 - x == l * l + (-x));
    lemma_small_mod(0, modulus());
    assert(chord_x(l, 0, x) == 0);
    assert(l * (0 - 0) - 0 == 0) by (nonlinear_arith);
}

/// Doubling a point `(u^2, -u^3)` of the cusp by the incomplete law (with
/// `a = 0`) gives the point of `u / 2`, and its constraints can be met.
proof fn lemma_double_on_cusp(u: int, t: int)
    requires
        no_zero_divisors(),
        fmod(u * t) == 1,
    ensures
        incomplete_double_ok((fmod(u * u) as int, fmod(-(u * u * u)) as int), 0),
        ({
            let v = fmod(half() * u) as int;
            double_incomplete_value((fmod(u * u) as int, fmod(-(u * u * u)) as int), 0) == (
                fmod(v * v) as int,
                fmod(-(v * v * v)) as int,
            )
        }),
{
    let q = modulus() as int;
    let h = half();
    lemma_half_facts();
    let x = fmod(u * u) as int;
    let y = fmod(-(u * u * u)) as int;
    let v = fmod(h * u) as int;
    lemma_powers_nonzero(u, t);
    lemma_fmod_fmod(u * u);
    lemma_fmod_fmod(-(u * u * u));
    lemma_fmod_fmod(h * u);
    // 2 y is not a multiple of q
    lemma_cong_mul(2, 2, y, -(u * u * u));
    assert(fmod(2) == 2) by {
        lemma_small_mod(2, modulus());
    }
    let d = fmod(2 * y) as int;
    assert(d != 0);
    // the tangent numerator: 3 u^4
    let n = fmod(3 * (fmod(x * x) as int) + 0) as int;
    lemma_cong_mul(x, u * u, x, u * u);
    lemma_fmod_fmod(x * x);
    lemma_cong_mul(3, 3, fmod(x * x) as int, (u * u) * (u * u));
    assert(3 * (fmod(x * x) as int) + 0 == 3 * (fmod(x * x) as int));
    lemma_fmod_fmod(3 * (fmod(x * x) as int));
    assert(fmod(n) == fmod(3 * ((u * u) * (u * u))));
    // the slope: -3 u / 2
    let m0 = -(3 * h * u);
    let l = fmod(m0) as int;
    lemma_fmod_fmod(m0);
    lemma_fmod_fmod(2 * y);
    lemma_cong_mul(l, m0, d, 2 * (-(u * u * u)));
    assert(m0 * (2 * (-(u * u * u))) == 3 * ((u * u) * (u * u)) + q * (3 * ((u * u) * (u * u))))
        by (nonlinear_arith)
        requires
            2 * h == q + 1,
            m0 == -(3 * h * u),
    ;
    lemma_cong(m0 * (2 * (-(u * u * u))), 3 * ((u * u) * (u * u)), 3 * ((u * u) * (u * u)));
    lemma_fmod_fmod(d);
    lemma_quotient_unique(n, d, l);
    assert(tangent_slope((x, y), 0) == l);
    // x3 = (u / 2)^2
    let x3 = chord_x(l, x, x);
    lemma_cong_mul(l, m0, l, m0);
    lemma_cong_neg(x, u * u);
    lemma_cong_add(l * l, m0 * m0, -x, -(u * u));
    lemma_cong_add(l * l + -x, m0 * m0 + -(u * u), -x, -(u * u));
    assert(l * l - x - x == l * l + -x + -x);
    let e1 = m0 * m0 + -(u * u) + -(u * u);
    assert(e1 == (h * u) * (h * u) + q * (2 * (u * u) * (2 * h + 1))) by (nonlinear_arith)
        requires
            2 * h == q + 1,
            m0 == -(3 * h * u),
            e1 == m0 * m0 + -(u * u) + -(u * u),
    ;
    lemma_cong(e1, (h * u) * (h * u), 2 * (u * u) * (2 * h + 1));
    lemma_cong_mul(v, h * u, v, h * u);
    assert(x3 == fmod(v * v) as int);
    // y3 = -(u / 2)^3
    lemma_fmod_fmod(l * l - x - x);
    lemma_cong_neg(x3, (h * u) * (h * u));
    lemma_cong_add(x, u * u, -x3, -((h * u) * (h * u)));
    assert(x - x3 == x + -x3);
    lemma_cong_mul(l, m0, x - x3, u * u + -((h * u) * (h * u)));
    lemma_cong_neg(y, -(u * u * u));
    lemma_cong_add(l * (x - x3), m0 * (u * u + -((h * u) * (h * u))), -y, -(-(u * u * u)));
    assert(l * (x - x3) - y == l * (x - x3) + -y);
    let e2 = m0 * (u * u + -((h * u) * (h * u))) + -(-(u * u * u));
    assert(e2 == -((h * u) * (h * u) * (h * u)) + q * ((u * u * u) * (2 * h * h + h - 1))) by (nonlinear_arith)
        requires
            2 * h == q + 1,
            m0 == -(3 * h * u),
            e2 == m0 * (u * u + -((h * u) * (h * u))) + -(-(u * u * u)),
    ;
    lemma_cong(e2, -((h * u) * (h * u) * (h * u)), (u * u * u) * (2 * h * h + h - 1));
    lemma_cong_mul(v, h * u, v, h * u);
    lemma_cong_mul(v * v, (h * u) * (h * u), v, h * u);
    lemma_cong_neg(v * v * v, (h * u) * (h * u) * (h * u));
}


/// The incomplete phase on `(0, 0)` with `a = 0`: after `k >= 1` steps the
/// accumulator is `(0, 0)` and the doubled point `(u^2, -u^3)` for `u` the
/// `(k - 1)`-th power of one half, and every step's constraints can be met.
pub proof fn lemma_identity_incomplete(bits: Seq<int>, k: nat)
    requires
        no_zero_divisors(),
        k >= 1,
    ensures
        ({
            let u = half_power((k - 1) as nat);
            sm_incomplete((0, 0), bits, k, 0) == ((0int, 0int), (fmod(u * u) as int, fmod(-(u * u * u)) as int))
        }),
        sm_incomplete_complete((0, 0), bits, k, 0),
    decreases k,
{
    if k == 1 {
        lemma_small_mod(0, modulus());
        lemma_small_mod(1, modulus());
        assert(fmod(0int * 0int) == 0);
        assert(fmod(2int * 0int) == 0);
        assert(tangent_slope((0, 0), 0) == 1);
        assert(chord_x(1, 0, 0) == 1);
        assert(1 * (0 - 1) - 0 == -(1 * 1 * 1));
        assert(half_power(0) == 1);
    } else {
        let k1 = (k - 1) as nat;
        lemma_identity_incomplete(bits, k1);
        let u = half_power((k1 - 1) as nat);
        let t = two_power((k1 - 1) as nat);
        crate::gadgets::identity::lemma_half_two((k1 - 1) as nat);
        lemma_add_from_origin(u, t);
        lemma_double_on_cusp(u, t);
        assert(half_power(k1) == fmod(half() * u) as int);
    }
}

} // verus!
