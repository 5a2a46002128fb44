//! The discrete Fourier transform over the Pallas scalar field, the roots of
//! unity it uses, and its inversion.
use crate::field::{fmod, lemma_root_of_unity_half_order, modulus, root_of_unity_value, two_adicity};
use crate::poly::eval;
use crate::sum::{lemma_sum_ext, lemma_sum_mod, lemma_sum_split, sum};
use vstd::arithmetic::div_mod::*;
use vstd::arithmetic::mul::*;
use vstd::arithmetic::power::*;
use vstd::arithmetic::power2::*;
use vstd::prelude::*;

verus! {

/// The transform of `v` at `w`: entry `k` is `v(w^k)`.
pub open spec fn dft(v: Seq<int>, w: int) -> Seq<int> {
    Seq::new(v.len(), |k: int| eval(v, pow(w, k as nat)))
}

/// The primitive `2^b`-th root of unity `ROOT_OF_UNITY^(2^(S - b))`.
pub open spec fn primitive_root(b: nat) -> nat {
    fmod(pow(root_of_unity_value() as int, pow2((two_adicity() - b) as nat)))
}

/// The inverse of `primitive_root(b)`, namely its `(2^b - 1)`-th power.
pub open spec fn primitive_root_inv(b: nat) -> nat {
    fmod(pow(primitive_root(b) as int, (pow2(b) - 1) as nat))
}

/// The inverse of two modulo `q`.
pub open spec fn inv_two() -> nat {
    ((modulus() + 1) / 2) as nat
}

/// The inverse of `2^b` modulo `q`.
pub open spec fn size_inv(b: nat) -> nat {
    fmod(pow(inv_two() as int, b))
}

proof fn lemma_modulus_facts()
    ensures
        modulus() > 2,
        modulus() % 2 == 1,
{
}

/// Inverses modulo `q` are unique.
pub proof fn lemma_inverse_unique(a: int, x: int, y: int)
    requires
        fmod(a * x) == 1,
        fmod(a * y) == 1,
    ensures
        fmod(x) == fmod(y),
{
    let p = modulus() as int;
    // x == x * (a * y) == (a * x) * y == y modulo p
    lemma_mul_mod_noop_right(x, a * y, p);
    lemma_mul_is_associative(x, a, y);
    lemma_mul_is_commutative(x, a);
    lemma_mul_mod_noop_left(a * x, y, p);
    lemma_mul_basics(x);
    lemma_mul_basics(y);
}

/// `fmod(pow(x, e))` depends only on `fmod(x)`.
pub proof fn lemma_pow_fmod(x: int, e: nat)
    ensures
        fmod(pow(fmod(x) as int, e)) == fmod(pow(x, e)),
{
    let p = modulus() as int;
    lemma_pow_mod_noop(x, e, p);
}

/// `fmod(u * v)` depends only on `fmod(u)` and `fmod(v)`.
pub proof fn lemma_mul_fmod(u: int, v: int)
    ensures
        fmod(fmod(u) as int * fmod(v)) == fmod(u * v),
{
    let p = modulus() as int;
    lemma_mul_mod_noop(u, v, p);
}

/// Once `w^n == 1`, powers of `w` only depend on the exponent modulo `n`.
pub proof fn lemma_pow_exponent_mod(w: int, n: nat, e: nat)
    requires
        n > 0,
        fmod(pow(w, n)) == 1,
    ensures
        fmod(pow(w, e)) == fmod(pow(w, e % n)),
{
    let p = modulus() as int;
    let q = e / n;
    let r = e % n;
    lemma_fundamental_div_mod(e as int, n as int);
    assert(e == n * q + r);
    lemma_pow_adds(w, n * q, r);
    lemma_pow_multiplies(w, n, q);
    lemma_pow_mod_noop(pow(w, n), q, p);
    lemma1_pow(q);
    lemma_mul_mod_noop(pow(w, n * q), pow(w, r), p);
    lemma_mul_basics(fmod(pow(w, r)) as int);
    lemma_mod_twice(pow(w, r), p);
}

/// The square of `-1` is `1`: a half-order element has full order twice that.
pub proof fn lemma_half_to_order(w: int, h: nat)
    requires
        fmod(pow(w, h)) == modulus() - 1,
    ensures
        fmod(pow(w, 2 * h)) == 1,
{
    let p = modulus() as int;
    lemma_pow_adds(w, h, h);
    assert(2 * h == h + h);
    lemma_mul_mod_noop(pow(w, h), pow(w, h), p);
    assert((p - 1) * (p - 1) == p * (p - 2) + 1) by (nonlinear_arith);
    lemma_mod_multiples_vanish(p - 2, 1, p);
    lemma_mul_is_commutative(p, p - 2);
}

/// Odd powers of `-1` are `-1`.
proof fn lemma_minus_one_odd_pow(o: nat)
    requires
        o % 2 == 1,
    ensures
        fmod(pow(modulus() - 1, o)) == modulus() - 1,
    decreases o,
{
    let p = modulus() as int;
    if o == 1 {
        lemma_pow1(p - 1);
    } else {
        lemma_minus_one_odd_pow((o - 2) as nat);
        lemma_pow1(p - 1);
        lemma_half_to_order(p - 1, 1);
        lemma_pow_adds(p - 1, (o - 2) as nat, 2);
        assert((o - 2) as nat + 2 == o);
        lemma_mul_mod_noop(pow(p - 1, (o - 2) as nat), pow(p - 1, 2), p);
        assert(((p - 1) * 1) % p == p - 1) by {
            lemma_small_mod((p - 1) as nat, p as nat);
        }
    }
}

/// Every `0 < d < 2^b` is `2^e * o` with `e < b` and `o` odd.
proof fn lemma_two_adic_split(d: nat, b: nat) -> (eo: (nat, nat))
    requires
        0 < d < pow2(b),
    ensures
        eo.0 < b,
        eo.1 % 2 == 1,
        d == pow2(eo.0) * eo.1,
    decreases d,
{
    if b == 0 {
        lemma2_to64();
        (0, 0)
    } else if d % 2 == 1 {
        lemma2_to64();
        (0, d)
    } else {
        lemma_pow2_unfold(b);
        let (e, o) = lemma_two_adic_split(d / 2, (b - 1) as nat);
        lemma_pow2_unfold(e + 1);
        lemma_mul_is_associative(2, pow2(e) as int, o as int);
        (e + 1, o)
    }
}

/// From a `2 * t == 0` congruence modulo the odd modulus, `t == 0`.
proof fn lemma_double_zero(t: int)
    requires
        (t + t) % (modulus() as int) == 0,
    ensures
        t % (modulus() as int) == 0,
{
    let p = modulus() as int;
    lemma_add_mod_noop(t, t, p);
    let r = t % p;
    assert(0 <= r < p);
    assert((r + r) % p == 0);
    if r != 0 {
        assert(p < r + r < 2 * p || r + r == p);
        if r + r == p {
            assert(false);
        } else {
            lemma_fundamental_div_mod(r + r, p);
            let q = (r + r) / p;
            assert(r + r == p * q);
            assert(q == 1) by (nonlinear_arith)
                requires
                    r + r == p * q,
                    p < r + r < 2 * p,
                    p > 0,
            ;
        }
    }
}

/// Over a full period, the powers of a nontrivial `2^b`-th root of unity
/// sum to zero: `sum_{k < 2^b} w^(d k) == 0` for `0 < d < 2^b`.
pub proof fn lemma_geometric_sum_zero(w: int, b: nat, d: nat)
    requires
        b >= 1,
        fmod(pow(w, pow2((b - 1) as nat))) == modulus() - 1,
        0 < d < pow2(b),
    ensures
        fmod(sum(pow2(b), |k: int| pow(w, (d * k) as nat))) == 0,
{
    let p = modulus() as int;
    let n = pow2(b);
    let half = pow2((b - 1) as nat);
    lemma_pow2_unfold(b);
    lemma_modulus_facts();
    let (e, o) = lemma_two_adic_split(d, b);
    let h = pow2((b - 1 - e) as nat);
    lemma_pow2_pos((b - 1 - e) as nat);
    let u = pow(w, d);
    // u^h == -1
    assert(d * h == o * half) by {
        lemma_pow2_adds(e, (b - 1 - e) as nat);
        assert(e + (b - 1 - e) as nat == (b - 1) as nat);
        lemma_mul_is_associative(pow2(e) as int, o as int, h as int);
        lemma_mul_is_commutative(o as int, h as int);
        lemma_mul_is_associative(pow2(e) as int, h as int, o as int);
        lemma_mul_is_commutative(half as int, o as int);
    }
    lemma_pow_multiplies(w, d, h);
    lemma_pow_multiplies(w, half, o);
    lemma_mul_is_commutative(o as int, half as int);
    lemma_pow_fmod(pow(w, half), o);
    lemma_minus_one_odd_pow(o);
    assert(fmod(pow(u, h)) == p - 1);
    // u^n == 1
    lemma_half_to_order(w, half);
    lemma_pow_multiplies(w, d, n);
    lemma_pow_multiplies(w, n, d);
    lemma_mul_is_commutative(d as int, n as int);
    lemma_pow_fmod(pow(w, n), d);
    lemma1_pow(d);
    assert(fmod(pow(u, n)) == 1);
    // The sum in terms of u.
    let f = |k: int| pow(u, k as nat);
    assert forall|k: int| 0 <= k < n implies #[trigger] pow(w, (d * k) as nat) == f(k) by {
        lemma_pow_multiplies(w, d, k as nat);
    }
    lemma_sum_ext(n, |k: int| pow(w, (d * k) as nat), f);
    let t = sum(n, f);
    // Shifting by n keeps each term.
    lemma_sum_split(n, h, f);
    lemma_sum_split(h, n, f);
    assert(n + h == h + n);
    assert forall|k: int| 0 <= k < h implies #[trigger] f(n + k) % p == f(k) % p by {
        lemma_pow_adds(u, n, k as nat);
        assert((n + k) as nat == n + k as nat);
        lemma_mul_mod_noop(pow(u, n), pow(u, k as nat), p);
        lemma_mod_twice(pow(u, k as nat), p);
    }
    lemma_sum_mod(h, |k: int| f(n + k), f, p);
    let t2 = sum(n, |k: int| f(h + k));
    assert(t2 % p == t % p) by {
        lemma_add_mod_noop(t, sum(h, |k: int| f(n + k)), p);
        lemma_add_mod_noop(sum(h, f), t2, p);
        assert((sum(h, f) + t2) % p == (t + sum(h, f)) % p);
        lemma_sub_mod_noop(sum(h, f) + t2, sum(h, f), p);
        lemma_sub_mod_noop(t + sum(h, f), sum(h, f), p);
    }
    // Shifting by h negates each term.
    let g = |k: int| (p - 1) * f(k);
    assert forall|k: int| 0 <= k < n implies #[trigger] f(h + k) % p == g(k) % p by {
        lemma_pow_adds(u, h, k as nat);
        assert((h + k) as nat == h + k as nat);
        lemma_mul_mod_noop(pow(u, h), pow(u, k as nat), p);
        lemma_mul_mod_noop(p - 1, pow(u, k as nat), p);
        lemma_small_mod((p - 1) as nat, p as nat);
    }
    lemma_sum_mod(n, |k: int| f(h + k), g, p);
    crate::sum::lemma_sum_scale(n, f, p - 1);
    assert(((p - 1) * t + t) % p == 0) by {
        assert((p - 1) * t + t == p * t) by (nonlinear_arith);
        lemma_mod_multiples_basic(t, p);
        lemma_mul_is_commutative(p, t);
    }
    assert((t + t) % p == 0) by {
        lemma_add_mod_noop(t2, t, p);
        lemma_add_mod_noop((p - 1) * t, t, p);
        lemma_add_mod_noop(t, t, p);
    }
    lemma_double_zero(t);
}

/// A multiplicative inverse of a root of unity of order `n` is its `(n-1)`-th power.
pub proof fn lemma_inverse_is_power(w: int, winv: int, n: nat)
    requires
        n >= 1,
        fmod(pow(w, n)) == 1,
        fmod(w * winv) == 1,
    ensures
        fmod(winv) == fmod(pow(w, (n - 1) as nat)),
{
    lemma_pow_adds(w, 1, (n - 1) as nat);
    lemma_pow1(w);
    assert(1 + (n - 1) as nat == n);
    lemma_inverse_unique(w, winv, pow(w, (n - 1) as nat));
}

/// `sum_k (w^k)^j (winv^i)^k` is `n` when `i == j` and `0` otherwise.
pub proof fn lemma_root_power_sum(w: int, winv: int, b: nat, i: nat, j: nat)
    requires
        b >= 1,
        fmod(pow(w, pow2((b - 1) as nat))) == modulus() - 1,
        fmod(w * winv) == 1,
        i < pow2(b),
        j < pow2(b),
    ensures
        fmod(sum(pow2(b), |k: int| pow(pow(w, k as nat), j) * pow(pow(winv, i), k as nat))) == if i
            == j {
            fmod(pow2(b) as int)
        } else {
            0
        },
{
    let p = modulus() as int;
    let n = pow2(b);
    lemma_pow2_unfold(b);
    lemma_half_to_order(w, pow2((b - 1) as nat));
    lemma_inverse_is_power(w, winv, n);
    let c: nat = j + (n - 1) as nat * i;
    let d: nat = c % n;
    let term = |k: int| pow(pow(w, k as nat), j) * pow(pow(winv, i), k as nat);
    let g = |k: int| pow(w, (d * k) as nat);
    assert forall|k: int| 0 <= k < n implies #[trigger] term(k) % p == g(k) % p by {
        let kk = k as nat;
        lemma_pow_multiplies(w, kk, j);
        lemma_pow_multiplies(winv, i, kk);
        // winv^(i k) == w^((n-1) i k)
        lemma_pow_fmod(winv, i * kk);
        lemma_pow_fmod(pow(w, (n - 1) as nat), i * kk);
        lemma_pow_multiplies(w, (n - 1) as nat, i * kk);
        lemma_mul_mod_noop(pow(w, kk * j), pow(winv, i * kk), p);
        lemma_mul_mod_noop(pow(w, kk * j), pow(w, ((n - 1) as nat * (i * kk)) as nat), p);
        lemma_pow_adds(w, kk * j, ((n - 1) as nat * (i * kk)) as nat);
        assert(kk * j + (n - 1) as nat * (i * kk) == c * kk) by (nonlinear_arith)
            requires
                c == j + (n - 1) as nat * i,
        ;
        lemma_pow_exponent_mod(w, n, c * kk);
        lemma_pow_exponent_mod(w, n, d * kk);
        lemma_mul_mod_noop_left(c as int, kk as int, n as int);
        assert((d * kk) as nat == d * kk);
    }
    lemma_sum_mod(n, term, g, p);
    assert(c == n * i + j - i) by (nonlinear_arith)
        requires
            c == j + (n - 1) as nat * i,
            n >= 1,
    ;
    if i == j {
        assert(d == 0) by {
            lemma_mod_multiples_basic(i as int, n as int);
            lemma_mul_is_commutative(n as int, i as int);
        }
        assert forall|k: int| 0 <= k < n implies #[trigger] g(k) == 1 by {
            lemma_pow0(w);
        }
        crate::sum::lemma_sum_ext(n, g, |k: int| 1);
        lemma_sum_const(n);
    } else {
        assert(d != 0) by {
            lemma_mod_multiples_vanish(i as int, j - i, n as int);
            if j > i {
                lemma_small_mod((j - i) as nat, n);
            } else {
                lemma_mod_add_multiples_vanish(j - i, n as int);
                lemma_small_mod((j - i + n) as nat, n);
            }
        }
        lemma_mod_bound(c as int, n as int);
        lemma_geometric_sum_zero(w, b, d);
    }
}

proof fn lemma_sum_const(n: nat)
    ensures
        sum(n, |k: int| 1) == n,
    decreases n,
{
    if n > 0 {
        lemma_sum_const((n - 1) as nat);
    }
}

/// Transforming at `w` and then at `w^(-1)` multiplies by `n`:
/// `sum_k dft(v, w)[k] * w^(-ik) == n * v[i]`.
pub proof fn lemma_dft_inverse(v: Seq<int>, b: nat, w: int, winv: int, i: int)
    requires
        b >= 1,
        v.len() == pow2(b),
        fmod(pow(w, pow2((b - 1) as nat))) == modulus() - 1,
        fmod(w * winv) == 1,
        0 <= i < v.len(),
    ensures
        fmod(eval(dft(v, w), pow(winv, i as nat))) == fmod(pow2(b) * v[i]),
{
    let p = modulus() as int;
    let n = pow2(b);
    let x = pow(winv, i as nat);
    let dv = dft(v, w);
    let ff = |j: int, k: int| v[j] * (pow(pow(w, k as nat), j as nat) * pow(x, k as nat));
    assert forall|k: int| 0 <= k < n implies #[trigger] (dv[k] * pow(x, k as nat)) == sum(
        n,
        |j: int| ff(j, k),
    ) by {
        let h = |j: int| v[j] * pow(pow(w, k as nat), j as nat);
        crate::sum::lemma_sum_scale(n, h, pow(x, k as nat));
        assert forall|j: int| 0 <= j < n implies #[trigger] (pow(x, k as nat) * h(j)) == ff(j, k) by {
            let a = v[j];
            let bb = pow(pow(w, k as nat), j as nat);
            let c = pow(x, k as nat);
            assert(c * (a * bb) == a * (bb * c)) by (nonlinear_arith);
        }
        lemma_sum_ext(n, |j: int| pow(x, k as nat) * h(j), |j: int| ff(j, k));
        lemma_mul_is_commutative(dv[k], pow(x, k as nat));
    }
    lemma_sum_ext(n, |k: int| dv[k] * pow(x, k as nat), |k: int| sum(n, |j: int| ff(j, k)));
    crate::sum::lemma_sum_swap(n, n, ff);
    let s = |j: int| sum(n, |k: int| pow(pow(w, k as nat), j as nat) * pow(x, k as nat));
    let target = |j: int| if j == i { n * v[j] } else { 0 };
    assert forall|j: int| 0 <= j < n implies sum(n, |k: int| ff(j, k)) % p == #[trigger] target(j)
        % p by {
        let inner = |k: int| pow(pow(w, k as nat), j as nat) * pow(x, k as nat);
        crate::sum::lemma_sum_scale(n, inner, v[j]);
        lemma_sum_ext(n, |k: int| ff(j, k), |k: int| v[j] * inner(k));
        lemma_root_power_sum(w, winv, b, i as nat, j as nat);
        lemma_mul_mod_noop(v[j], s(j), p);
        if j == i {
            lemma_mul_mod_noop(v[j], n as int, p);
            lemma_mul_is_commutative(v[j], n as int);
        } else {
            lemma_mul_basics(v[j] % p);
        }
    }
    lemma_sum_mod(n, |j: int| sum(n, |k: int| ff(j, k)), target, p);
    crate::sum::lemma_sum_single(n, target, i);
}

/// `primitive_root(b)` has half order: its `2^(b-1)`-th power is `-1`.
pub proof fn lemma_primitive_root_half(b: nat)
    requires
        1 <= b <= two_adicity(),
    ensures
        fmod(pow(primitive_root(b) as int, pow2((b - 1) as nat))) == modulus() - 1,
{
    let r = root_of_unity_value() as int;
    let e1 = pow2((two_adicity() - b) as nat);
    let e2 = pow2((b - 1) as nat);
    lemma_pow_fmod(pow(r, e1), e2);
    lemma_pow_multiplies(r, e1, e2);
    lemma_pow2_adds((two_adicity() - b) as nat, (b - 1) as nat);
    assert((two_adicity() - b) as nat + (b - 1) as nat == (two_adicity() - 1) as nat);
    lemma_root_of_unity_half_order();
}

/// `primitive_root(b)` has order dividing `2^b`.
pub proof fn lemma_primitive_root_order(b: nat)
    requires
        b <= two_adicity(),
    ensures
        fmod(pow(primitive_root(b) as int, pow2(b))) == 1,
{
    let r = root_of_unity_value() as int;
    let e1 = pow2((two_adicity() - b) as nat);
    lemma_pow_fmod(pow(r, e1), pow2(b));
    lemma_pow_multiplies(r, e1, pow2(b));
    lemma_pow2_adds((two_adicity() - b) as nat, b);
    assert((two_adicity() - b) as nat + b == two_adicity());
    lemma_root_of_unity_half_order();
    lemma_half_to_order(r, pow2((two_adicity() - 1) as nat));
    lemma_pow2_unfold(two_adicity());
}

/// `primitive_root_inv(b)` is the inverse of `primitive_root(b)`.
pub proof fn lemma_primitive_root_inv(b: nat)
    requires
        b <= two_adicity(),
    ensures
        fmod(primitive_root(b) as int * primitive_root_inv(b)) == 1,
        primitive_root_inv(b) < modulus(),
{
    let w = primitive_root(b) as int;
    let n = pow2(b);
    lemma_pow2_pos(b);
    lemma_primitive_root_order(b);
    lemma_mul_fmod(w, pow(w, (n - 1) as nat));
    lemma_pow_adds(w, 1, (n - 1) as nat);
    lemma_pow1(w);
    assert(1 + (n - 1) as nat == n);
    lemma_small_mod(w as nat, modulus());
}

/// `size_inv(b)` is the inverse of `2^b`.
pub proof fn lemma_size_inv(b: nat)
    ensures
        fmod(pow2(b) as int * size_inv(b)) == 1,
        size_inv(b) < modulus(),
{
    let p = modulus() as int;
    let t = inv_two() as int;
    let a = pow(2, b);
    let bb = pow(t, b);
    lemma_pow2(b);
    lemma_mul_mod_noop_right(a, bb, p);
    lemma_pow_distributes(2, t, b);
    assert(2 * t == p + 1);
    lemma_pow_fmod(2 * t, b);
    lemma_mod_add_multiples_vanish(1, p);
    lemma1_pow(b);
}

/// The inverse of a half-order element also has half order.
pub proof fn lemma_inverse_half(w: int, winv: int, h: nat)
    requires
        fmod(pow(w, h)) == modulus() - 1,
        fmod(w * winv) == 1,
    ensures
        fmod(pow(winv, h)) == modulus() - 1,
{
    let p = modulus() as int;
    lemma_pow_distributes(w, winv, h);
    lemma_pow_fmod(w * winv, h);
    lemma1_pow(h);
    lemma_mul_fmod(pow(w, h), pow(winv, h));
    lemma_mul_fmod(p - 1, pow(winv, h));
    lemma_small_mod((p - 1) as nat, p as nat);
    // (p - 1) is its own inverse
    assert((p - 1) * (p - 1) == p * (p - 2) + 1) by (nonlinear_arith);
    lemma_mod_multiples_vanish(p - 2, 1, p);
    lemma_mul_is_commutative(p, p - 2);
    lemma_inverse_unique(p - 1, pow(winv, h), p - 1);
}

/// The bit reversal of the low `l` bits of `i`.
pub open spec fn bit_rev(i: nat, l: nat) -> nat
    decreases l,
{
    if l == 0 {
        0
    } else {
        (i % 2) * pow2((l - 1) as nat) + bit_rev(i / 2, (l - 1) as nat)
    }
}

/// The reversal of `l` bits is below `2^l`.
pub proof fn lemma_bit_rev_bound(i: nat, l: nat)
    ensures
        bit_rev(i, l) < pow2(l),
    decreases l,
{
    if l == 0 {
        lemma2_to64();
    } else {
        lemma_bit_rev_bound(i / 2, (l - 1) as nat);
        lemma_pow2_unfold(l);
        if i % 2 == 0 {
            assert((i % 2) * pow2((l - 1) as nat) == 0);
        } else {
            assert((i % 2) * pow2((l - 1) as nat) == pow2((l - 1) as nat));
        }
    }
}

/// The entries `v[r], v[r + stride], ..., v[r + (m - 1) * stride]`.
pub open spec fn strided(v: Seq<int>, r: int, stride: int, m: nat) -> Seq<int> {
    Seq::new(m, |t: int| v[r + t * stride])
}

/// The value that position `idx` holds once the in-place transform has
/// built all blocks of size `2^s`: block `c` holds the transform of size
/// `2^s` of the entries of `v` congruent to `bit_rev(c)` modulo `2^(b - s)`.
pub open spec fn stage_value(v: Seq<int>, w: int, b: nat, s: nat, idx: int) -> int {
    let m = pow2(s);
    let st = pow2((b - s) as nat);
    eval(
        strided(v, bit_rev((idx / m as int) as nat, (b - s) as nat) as int, st as int, m),
        pow(pow(w, st), (idx % m as int) as nat),
    )
}

/// One butterfly: the values of blocks of size `2^(s + 1)` come from the
/// two halves of size `2^s`, combined with the `j`-th power of the stage root.
pub proof fn lemma_butterfly(v: Seq<int>, w: int, b: nat, s: nat, c: int, j: int)
    requires
        s < b,
        v.len() == pow2(b),
        fmod(pow(w, pow2((b - 1) as nat))) == modulus() - 1,
        0 <= c < pow2((b - s - 1) as nat),
        0 <= j < pow2(s),
    ensures
        ({
            let m = pow2(s) as int;
            let start = c * (2 * m);
            let x = pow(pow(w, pow2((b - s - 1) as nat)), j as nat);
            &&& fmod(stage_value(v, w, b, s + 1, start + j)) == fmod(
                stage_value(v, w, b, s, start + j) + x * stage_value(v, w, b, s, start + j + m),
            )
            &&& fmod(stage_value(v, w, b, s + 1, start + j + m)) == fmod(
                stage_value(v, w, b, s, start + j) - x * stage_value(v, w, b, s, start + j + m),
            )
        }),
{
    let p = modulus() as int;
    let m = pow2(s) as int;
    let l = (b - s - 1) as nat;
    let st1 = pow2(l) as int;
    let st0 = pow2((b - s) as nat) as int;
    let start = c * (2 * m);
    let idx = start + j;
    lemma_pow2_pos(s);
    lemma_pow2_pos(l);
    lemma_pow2_unfold(s + 1);
    lemma_pow2_unfold((b - s) as nat);
    assert((b - s - 1) as nat == ((b - s) as nat - 1) as nat);
    assert(st0 == 2 * st1);
    assert(pow2(s + 1) == 2 * m);
    assert((b - (s + 1)) as nat == l);
    // Positions at the two levels.
    lemma_fundamental_div_mod_converse(idx, 2 * m, c, j);
    lemma_fundamental_div_mod_converse(idx + m, 2 * m, c, j + m);
    assert(idx == (2 * c) * m + j) by (nonlinear_arith)
        requires
            idx == c * (2 * m) + j,
    ;
    assert(idx + m == (2 * c + 1) * m + j) by (nonlinear_arith)
        requires
            idx == c * (2 * m) + j,
    ;
    lemma_fundamental_div_mod_converse(idx, m, 2 * c, j);
    lemma_fundamental_div_mod_converse(idx + m, m, 2 * c + 1, j);
    // Residues of the blocks.
    let r = bit_rev(c as nat, l) as int;
    assert(((2 * c) as nat) % 2 == 0 && ((2 * c) as nat) / 2 == c as nat);
    assert(((2 * c + 1) as nat) % 2 == 1 && ((2 * c + 1) as nat) / 2 == c as nat);
    assert(bit_rev((2 * c) as nat, l + 1) == r);
    assert(bit_rev((2 * c + 1) as nat, l + 1) == st1 + r);
    assert((l + 1) as nat == (b - s) as nat);
    let big = strided(v, r, st1, (2 * m) as nat);
    let ev = strided(v, r, st0, m as nat);
    let od = strided(v, st1 + r, st0, m as nat);
    assert forall|u: int| 0 <= u < m implies #[trigger] crate::poly::evens(big, m as nat)[u] == ev[u] by {
        assert((2 * u) * st1 == u * st0) by (nonlinear_arith)
            requires
                st0 == 2 * st1,
        ;
    }
    assert forall|u: int| 0 <= u < m implies #[trigger] crate::poly::odds(big, m as nat)[u] == od[u] by {
        assert((2 * u + 1) * st1 == st1 + u * st0) by (nonlinear_arith)
            requires
                st0 == 2 * st1,
        ;
    }
    assert(crate::poly::evens(big, m as nat) =~= ev);
    assert(crate::poly::odds(big, m as nat) =~= od);
    // The points.
    let om = pow(w, st1 as nat);
    let x = pow(om, j as nat);
    let y = pow(om, (j + m) as nat);
    let pe = pow(pow(w, st0 as nat), j as nat);
    assert(x * x == pe) by {
        lemma_square_is_pow2(x);
        lemma_pow_multiplies(om, j as nat, 2);
        lemma_pow_multiplies(w, st1 as nat, (j * 2) as nat);
        lemma_pow_multiplies(w, st0 as nat, j as nat);
        lemma_pow_multiplies(w, st1 as nat, 2);
        lemma_pow_multiplies(pow(w, st1 as nat), 2, j as nat);
        lemma_mul_is_commutative(j, 2);
        assert(st1 * 2 == st0);
    }
    lemma_eval_even_odd_at(big, m as nat, x);
    lemma_eval_even_odd_at(big, m as nat, y);
    // om^m == -1 and om^(2m) == 1.
    assert(fmod(pow(om, m as nat)) == p - 1) by {
        lemma_pow_multiplies(w, st1 as nat, m as nat);
        lemma_pow2_adds(l, s);
        assert(l + s == (b - 1) as nat);
    }
    lemma_pow_adds(om, j as nat, m as nat);
    assert((j + m) as nat == j as nat + m as nat);
    // y == -x and y * y == x * x modulo p.
    assert(fmod(y) == fmod(0 - x)) by {
        lemma_mul_mod_noop(x, pow(om, m as nat), p);
        lemma_mul_mod_noop(x, p - 1, p);
        assert(x * (p - 1) == p * x - x) by (nonlinear_arith);
        lemma_mod_multiples_vanish(x, 0 - x, p);
        lemma_mul_is_commutative(p, x);
        lemma_small_mod((p - 1) as nat, p as nat);
    }
    assert(fmod(y * y) == fmod(x * x)) by {
        lemma_mul_mod_noop(y, y, p);
        lemma_mul_mod_noop(0 - x, 0 - x, p);
        assert((0 - x) * (0 - x) == x * x) by (nonlinear_arith);
    }
    let e_val = eval(ev, pe);
    let o_val = eval(od, pe);
    crate::poly::lemma_eval_mod(ev, ev, y * y, pe, p);
    crate::poly::lemma_eval_mod(od, od, y * y, pe, p);
    // Left output.
    assert(stage_value(v, w, b, s + 1, idx) == eval(big, x));
    assert(stage_value(v, w, b, s, idx) == e_val);
    assert(stage_value(v, w, b, s, idx + m) == o_val);
    assert(stage_value(v, w, b, s + 1, idx + m) == eval(big, y));
    // Right output: eval(big, y) == e(y^2) + y * o(y^2) == e_val - x * o_val modulo p.
    let ey = eval(ev, y * y);
    let oy = eval(od, y * y);
    assert(fmod(ey + y * oy) == fmod(e_val - x * o_val)) by {
        lemma_add_mod_noop(ey, y * oy, p);
        lemma_mul_mod_noop(y, oy, p);
        lemma_mul_mod_noop(0 - x, o_val, p);
        lemma_mul_mod_noop(y, oy, p);
        assert((0 - x) * o_val == 0 - x * o_val) by (nonlinear_arith);
        lemma_add_mod_noop(e_val, 0 - x * o_val, p);
        lemma_mod_twice(y, p);
        lemma_mod_twice(0 - x, p);
        assert((y % p) * (oy % p) % p == ((0 - x) % p) * (o_val % p) % p);
    }
}

/// `lemma_eval_even_odd` restated for `strided` blocks.
proof fn lemma_eval_even_odd_at(c: Seq<int>, m: nat, x: int)
    requires
        c.len() == 2 * m,
    ensures
        eval(c, x) == eval(crate::poly::evens(c, m), x * x) + x * eval(crate::poly::odds(c, m), x * x),
{
    crate::poly::lemma_eval_even_odd(c, m, x);
}

/// Reversal seen from the top bit: `rev(a 2^(l-1) + z) == 2 rev(z) + a`.
pub proof fn lemma_bit_rev_high(a: nat, z: nat, l: nat)
    requires
        l >= 1,
        a <= 1,
        z < pow2((l - 1) as nat),
    ensures
        bit_rev(a * pow2((l - 1) as nat) + z, l) == 2 * bit_rev(z, (l - 1) as nat) + a,
    decreases l,
{
    let y = a * pow2((l - 1) as nat) + z;
    if l == 1 {
        lemma2_to64();
        assert(z == 0);
        assert(y == a);
        assert(bit_rev(a / 2, 0) == 0);
    } else {
        let h = pow2((l - 2) as nat);
        lemma_pow2_unfold((l - 1) as nat);
        assert(pow2((l - 1) as nat) == 2 * h);
        assert(y == 2 * (a * h) + z) by (nonlinear_arith)
            requires
                y == a * (2 * h) + z,
        ;
        assert(y % 2 == z % 2 && y / 2 == a * h + z / 2) by {
            lemma_fundamental_div_mod(z as int, 2);
            lemma_fundamental_div_mod_converse(y as int, 2, (a * h + z / 2) as int, (z % 2) as int);
        }
        lemma_bit_rev_high(a, z / 2, (l - 1) as nat);
        assert(((l - 1) as nat - 1) as nat == (l - 2) as nat);
        assert(bit_rev(z, (l - 1) as nat) == (z % 2) * h + bit_rev(z / 2, (l - 2) as nat));
        assert((z % 2) * pow2((l - 1) as nat) == 2 * ((z % 2) * h)) by (nonlinear_arith)
            requires
                pow2((l - 1) as nat) == 2 * h,
        ;
    }
}

/// Bit reversal is an involution on `[0, 2^l)`.
pub proof fn lemma_bit_rev_involution(i: nat, l: nat)
    requires
        i < pow2(l),
    ensures
        bit_rev(bit_rev(i, l), l) == i,
    decreases l,
{
    if l == 0 {
        lemma2_to64();
    } else {
        let q = i / 2;
        let a = i % 2;
        lemma_pow2_unfold(l);
        lemma_bit_rev_bound(q, (l - 1) as nat);
        lemma_bit_rev_involution(q, (l - 1) as nat);
        lemma_bit_rev_high(a, bit_rev(q, (l - 1) as nat), l);
    }
}

/// The number of trailing zero bits of `n` (zero for `n == 0`).
pub open spec fn trailing_zero_count(n: nat) -> nat
    decreases n,
{
    if n == 0 || n % 2 == 1 {
        0
    } else {
        1 + trailing_zero_count(n / 2)
    }
}

/// The largest power of two dividing a positive `n` divides it and is at most `n`.
pub proof fn lemma_trailing_zero_count(n: nat)
    requires
        n > 0,
    ensures
        n % pow2(trailing_zero_count(n)) == 0,
        pow2(trailing_zero_count(n)) <= n,
    decreases n,
{
    let t = trailing_zero_count(n);
    if n % 2 == 1 {
        lemma2_to64();
    } else {
        lemma_trailing_zero_count(n / 2);
        let t1 = trailing_zero_count(n / 2);
        lemma_pow2_unfold(t);
        assert(t == t1 + 1);
        lemma_pow2_pos(t1);
        lemma_fundamental_div_mod((n / 2) as int, pow2(t1) as int);
        let k = (n / 2) / pow2(t1);
        assert(n == 2 * ((n / 2) as int));
        assert(n == pow2(t) * k) by (nonlinear_arith)
            requires
                n == 2 * (n / 2) as int,
                (n / 2) as int == pow2(t1) * k + 0,
                pow2(t) == 2 * pow2(t1),
        ;
        lemma_mod_multiples_basic(k as int, pow2(t) as int);
        lemma_mul_is_commutative(pow2(t) as int, k as int);
    }
}

/// The trailing zero count of a power of two is its exponent.
pub proof fn lemma_trailing_zero_count_pow2(b: nat)
    ensures
        trailing_zero_count(pow2(b)) == b,
    decreases b,
{
    if b == 0 {
        lemma2_to64();
    } else {
        lemma_pow2_unfold(b);
        lemma_pow2_pos((b - 1) as nat);
        lemma_trailing_zero_count_pow2((b - 1) as nat);
        assert(pow2(b) % 2 == 0);
        assert(pow2(b) / 2 == pow2((b - 1) as nat));
    }
}

/// Powers of two are injective.
pub proof fn lemma_pow2_injective(a: nat, b: nat)
    requires
        pow2(a) == pow2(b),
    ensures
        a == b,
{
    if a < b {
        lemma_pow2_strictly_increases(a, b);
    } else if b < a {
        lemma_pow2_strictly_increases(b, a);
    }
}

/// Powers of two are monotone.
pub proof fn lemma_pow2_le(a: nat, b: nat)
    requires
        a <= b,
    ensures
        pow2(a) <= pow2(b),
{
    if a < b {
        lemma_pow2_strictly_increases(a, b);
    }
}

/// The root used by stage `s` (blocks of size `2^(s + 1)`) of a transform of
/// size `2^b` at `w`: `w^(2^(b - 1 - s))`.
pub open spec fn stage_root(w: int, b: nat, s: nat) -> nat {
    fmod(pow(w, pow2((b - 1 - s) as nat)))
}

/// Before any stage, position `idx` holds the input entry at the reversed index.
pub proof fn lemma_stage_value_initial(v: Seq<int>, w: int, b: nat, idx: int)
    requires
        0 <= idx,
    ensures
        stage_value(v, w, b, 0, idx) == v[bit_rev(idx as nat, b) as int],
{
    lemma2_to64();
    let st = pow2(b);
    let r = bit_rev(idx as nat, b) as int;
    let sq = strided(v, r, st as int, 1);
    assert(idx / 1 == idx && idx % 1 == 0);
    assert(sq[0] == v[r]);
    lemma_pow0(pow(w, st));
    let f = |j: int| sq[j] * pow(1, j as nat);
    assert(eval(sq, 1) == sum(1, f));
    assert(sum(1, f) == sum(0, f) + f(0));
    lemma_pow0(1);
}

/// After the last stage, position `idx` holds the transform's entry `idx`.
pub proof fn lemma_stage_value_final(v: Seq<int>, w: int, b: nat, idx: int)
    requires
        v.len() == pow2(b),
        0 <= idx < pow2(b),
    ensures
        stage_value(v, w, b, b, idx) == eval(v, pow(w, idx as nat)),
{
    lemma2_to64();
    let m = pow2(b) as int;
    lemma_fundamental_div_mod_converse(idx, m, 0, idx);
    assert((b - b) as nat == 0);
    assert(bit_rev(0, 0) == 0);
    let sq = strided(v, 0, 1, pow2(b));
    assert(sq =~= v);
    lemma_pow1(w);
}

/// One butterfly in terms of the reduced values the code holds.
pub proof fn lemma_butterfly_step(
    v: Seq<int>,
    w: int,
    b: nat,
    s: nat,
    c: int,
    j: int,
    wc: nat,
    uv: nat,
    rv: nat,
)
    requires
        s < b,
        v.len() == pow2(b),
        fmod(pow(w, pow2((b - 1) as nat))) == modulus() - 1,
        0 <= c < pow2((b - s - 1) as nat),
        0 <= j < pow2(s),
        wc == fmod(pow(stage_root(w, b, s) as int, j as nat)),
        uv == fmod(stage_value(v, w, b, s, c * (2 * pow2(s)) + j)),
        rv == fmod(stage_value(v, w, b, s, c * (2 * pow2(s)) + j + pow2(s))),
    ensures
        fmod(uv as int + fmod(wc as int * rv)) == fmod(stage_value(v, w, b, s + 1, c * (2 * pow2(s)) + j)),
        fmod(uv - fmod(wc as int * rv)) == fmod(
            stage_value(v, w, b, s + 1, c * (2 * pow2(s)) + j + pow2(s)),
        ),
{
    let p = modulus() as int;
    let m = pow2(s) as int;
    let start = c * (2 * m);
    let om = pow(w, pow2((b - s - 1) as nat));
    let x = pow(om, j as nat);
    let uu = stage_value(v, w, b, s, start + j);
    let rr = stage_value(v, w, b, s, start + j + m);
    lemma_butterfly(v, w, b, s, c, j);
    assert((b - 1 - s) as nat == (b - s - 1) as nat);
    lemma_pow_fmod(om, j as nat);
    lemma_mul_fmod(x, rr);
    lemma_mod_twice(x, p);
    lemma_mod_twice(rr, p);
    lemma_mul_mod_noop(x % p, rr % p, p);
    assert(fmod(wc as int * rv) == fmod(x * rr));
    lemma_add_mod_noop(uu, x * rr, p);
    lemma_add_mod_noop(uv as int, fmod(x * rr) as int, p);
    lemma_mod_twice(uu, p);
    lemma_mod_twice(x * rr, p);
    lemma_sub_mod_noop(uu, x * rr, p);
    lemma_sub_mod_noop(uv as int, fmod(x * rr) as int, p);
}

} // verus!
