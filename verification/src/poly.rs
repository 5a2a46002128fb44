//! Polynomials with integer coefficients in little-endian order, their
//! product, evaluation, and the product of linear factors `x - r`.
use crate::sum::{
    lemma_sum_even_odd, lemma_sum_ext, lemma_sum_mod, lemma_sum_scale, lemma_sum_single,
    lemma_sum_split, lemma_sum_sub, lemma_sum_swap, lemma_sum_zero, sum,
};
use vstd::arithmetic::div_mod::*;
use vstd::arithmetic::mul::*;
use vstd::arithmetic::power::*;
use vstd::prelude::*;

verus! {

/// Coefficient `t` of `c`, zero outside the stored range.
pub open spec fn coef(c: Seq<int>, t: int) -> int {
    if 0 <= t < c.len() {
        c[t]
    } else {
        0
    }
}

/// Coefficient `k` of the product `a * b`: `sum_i a[i] * b[k - i]`.
pub open spec fn conv(a: Seq<int>, b: Seq<int>, k: int) -> int {
    sum(a.len(), |i: int| a[i] * coef(b, k - i))
}

/// Length of the coefficient vector of a product: zero when either
/// factor is empty, `len a + len b - 1` otherwise.
pub open spec fn product_len(a: Seq<int>, b: Seq<int>) -> nat {
    if a.len() == 0 || b.len() == 0 {
        0
    } else {
        (a.len() + b.len() - 1) as nat
    }
}

/// The coefficient vector of `a(x) * b(x)`.
pub open spec fn poly_mul(a: Seq<int>, b: Seq<int>) -> Seq<int> {
    Seq::new(product_len(a, b), |k: int| conv(a, b, k))
}

/// The coefficient vector of `c(x) * (x - r)`.
pub open spec fn mul_linear(c: Seq<int>, r: int) -> Seq<int> {
    Seq::new(c.len() + 1, |k: int| coef(c, k - 1) - r * coef(c, k))
}

/// The monic polynomial `prod_i (x - roots[i])`.
pub open spec fn roots_poly(roots: Seq<int>) -> Seq<int>
    decreases roots.len(),
{
    if roots.len() == 0 {
        seq![1int]
    } else {
        mul_linear(roots_poly(roots.drop_last()), roots.last())
    }
}

/// The value of the polynomial `c` at `x`.
pub open spec fn eval(c: Seq<int>, x: int) -> int {
    sum(c.len(), |j: int| c[j] * pow(x, j as nat))
}

/// Moving the support of `b` by `i` inside a sum weighted by `g`.
pub proof fn lemma_sum_coef_shift(b: Seq<int>, i: int, total: nat, g: spec_fn(int) -> int)
    requires
        0 <= i,
        i + b.len() <= total,
    ensures
        sum(total, |t: int| coef(b, t - i) * g(t)) == sum(b.len(), |j: int| b[j] * g(j + i)),
{
    let f = |t: int| coef(b, t - i) * g(t);
    let rest = (total - i) as nat;
    lemma_sum_split(i as nat, rest, f);
    lemma_sum_zero(i as nat, f);
    let h = |j: int| f(i + j);
    let tail = (rest - b.len()) as nat;
    lemma_sum_split(b.len(), tail, h);
    assert forall|j: int| 0 <= j < tail implies #[trigger] h(b.len() + j) == 0 by {}
    lemma_sum_zero(tail, |j: int| h(b.len() + j));
    lemma_sum_ext(b.len(), h, |j: int| b[j] * g(j + i));
    assert((i + rest) as nat == total);
    assert((b.len() + tail) as nat == rest);
}

/// Coefficients of a product vanish outside its length.
pub proof fn lemma_conv_outside(a: Seq<int>, b: Seq<int>, k: int)
    requires
        k < 0 || k >= a.len() + b.len() - 1,
    ensures
        conv(a, b, k) == 0,
{
    assert forall|i: int| 0 <= i < a.len() implies #[trigger] (a[i] * coef(b, k - i)) == 0 by {}
    lemma_sum_zero(a.len(), |i: int| a[i] * coef(b, k - i));
}

/// Every coefficient of `poly_mul(a, b)`, inside or outside its length, is `conv`.
pub proof fn lemma_coef_poly_mul(a: Seq<int>, b: Seq<int>, k: int)
    ensures
        coef(poly_mul(a, b), k) == conv(a, b, k),
{
    if !(0 <= k < product_len(a, b)) {
        if a.len() == 0 {
        } else if b.len() == 0 {
            assert forall|i: int| 0 <= i < a.len() implies #[trigger] (a[i] * coef(b, k - i)) == 0 by {}
            lemma_sum_zero(a.len(), |i: int| a[i] * coef(b, k - i));
        } else {
            lemma_conv_outside(a, b, k);
        }
    }
}

/// Every coefficient of `mul_linear(s, x)`, inside or outside its length.
pub proof fn lemma_coef_mul_linear(s: Seq<int>, x: int, t: int)
    ensures
        coef(mul_linear(s, x), t) == coef(s, t - 1) - x * coef(s, t),
{
}

/// Multiplying by a linear factor shifts and scales each coefficient of a product.
pub proof fn lemma_conv_mul_linear(q: Seq<int>, s: Seq<int>, x: int, k: int)
    ensures
        conv(q, mul_linear(s, x), k) == conv(q, s, k - 1) - x * conv(q, s, k),
{
    let f = |i: int| q[i] * coef(s, (k - 1) - i);
    let g = |i: int| q[i] * coef(s, k - i);
    let g2 = |i: int| x * g(i);
    assert forall|i: int| 0 <= i < q.len() implies #[trigger] (q[i] * coef(mul_linear(s, x), k - i))
        == f(i) - g2(i) by {
        lemma_coef_mul_linear(s, x, k - i);
        let u = coef(s, k - i - 1);
        let v = coef(s, k - i);
        assert(q[i] * (u - x * v) == q[i] * u - x * (q[i] * v)) by (nonlinear_arith);
    }
    lemma_sum_ext(q.len(), |i: int| q[i] * coef(mul_linear(s, x), k - i), |i: int| f(i) - g2(i));
    lemma_sum_sub(q.len(), f, g2);
    lemma_sum_scale(q.len(), g, x);
    lemma_sum_ext(q.len(), f, |i: int| q[i] * coef(s, k - 1 - i));
}

/// `q * ((x - r) * s) == (x - r) * (q * s)` for nonempty `q`, `s`.
pub proof fn lemma_poly_mul_mul_linear(q: Seq<int>, s: Seq<int>, x: int)
    requires
        q.len() > 0,
        s.len() > 0,
    ensures
        poly_mul(q, mul_linear(s, x)) == mul_linear(poly_mul(q, s), x),
{
    let lhs = poly_mul(q, mul_linear(s, x));
    let rhs = mul_linear(poly_mul(q, s), x);
    assert(lhs.len() == rhs.len());
    assert forall|k: int| 0 <= k < lhs.len() implies lhs[k] == rhs[k] by {
        lemma_conv_mul_linear(q, s, x, k);
        lemma_coef_poly_mul(q, s, k - 1);
        lemma_coef_poly_mul(q, s, k);
    }
    assert(lhs =~= rhs);
}

/// `q * 1 == q`.
pub proof fn lemma_poly_mul_one(q: Seq<int>)
    ensures
        poly_mul(q, seq![1int]) == q,
{
    let lhs = poly_mul(q, seq![1int]);
    assert forall|k: int| 0 <= k < q.len() implies lhs[k] == q[k] by {
        let f = |i: int| q[i] * coef(seq![1int], k - i);
        assert forall|i: int| 0 <= i < q.len() && i != k implies #[trigger] f(i) == 0 by {}
        lemma_sum_single(q.len(), f, k);
    }
    assert(lhs =~= q);
}

/// The product of the root polynomials of two root lists is the root
/// polynomial of their concatenation.
pub proof fn lemma_roots_poly_concat(a: Seq<int>, b: Seq<int>)
    ensures
        poly_mul(roots_poly(a), roots_poly(b)) == roots_poly(a + b),
        roots_poly(a).len() == a.len() + 1,
    decreases b.len(),
{
    lemma_roots_poly_len(a);
    if b.len() == 0 {
        lemma_poly_mul_one(roots_poly(a));
        assert(a + b =~= a);
    } else {
        let b0 = b.drop_last();
        lemma_roots_poly_concat(a, b0);
        lemma_roots_poly_len(b0);
        assert((a + b).drop_last() =~= a + b0);
        assert((a + b).last() == b.last());
        lemma_poly_mul_mul_linear(roots_poly(a), roots_poly(b0), b.last());
    }
}

/// A product of `n` linear factors has `n + 1` coefficients.
pub proof fn lemma_roots_poly_len(a: Seq<int>)
    ensures
        roots_poly(a).len() == a.len() + 1,
    decreases a.len(),
{
    if a.len() > 0 {
        lemma_roots_poly_len(a.drop_last());
    }
}

/// The even-indexed coefficients `c[0], c[2], ...` of a vector of length `2m`.
pub open spec fn evens(c: Seq<int>, m: nat) -> Seq<int> {
    Seq::new(m, |u: int| c[2 * u])
}

/// The odd-indexed coefficients `c[1], c[3], ...` of a vector of length `2m`.
pub open spec fn odds(c: Seq<int>, m: nat) -> Seq<int> {
    Seq::new(m, |u: int| c[2 * u + 1])
}

/// `c(x) = c_even(x^2) + x * c_odd(x^2)`.
pub proof fn lemma_eval_even_odd(c: Seq<int>, m: nat, x: int)
    requires
        c.len() == 2 * m,
    ensures
        eval(c, x) == eval(evens(c, m), x * x) + x * eval(odds(c, m), x * x),
{
    let f = |j: int| c[j] * pow(x, j as nat);
    lemma_sum_even_odd(m, f);
    let e = evens(c, m);
    let o = odds(c, m);
    let fo = |u: int| o[u] * pow(x * x, u as nat);
    assert forall|u: int| 0 <= u < m implies #[trigger] f(2 * u) == e[u] * pow(x * x, u as nat) by {
        lemma_square_is_pow2(x);
        lemma_pow_multiplies(x, 2, u as nat);
        assert((2 * u) as nat == 2 * (u as nat));
    }
    assert forall|u: int| 0 <= u < m implies #[trigger] f(2 * u + 1) == x * fo(u) by {
        lemma_square_is_pow2(x);
        lemma_pow_multiplies(x, 2, u as nat);
        lemma_pow_adds(x, (2 * u) as nat, 1);
        lemma_pow1(x);
        assert((2 * u + 1) as nat == (2 * u) as nat + 1);
        let a = c[2 * u + 1];
        let p = pow(x, (2 * u) as nat);
        assert(a * (p * x) == x * (a * p)) by (nonlinear_arith);
    }
    lemma_sum_ext(m, |u: int| f(2 * u), |u: int| e[u] * pow(x * x, u as nat));
    lemma_sum_ext(m, |u: int| f(2 * u + 1), |u: int| x * fo(u));
    lemma_sum_scale(m, fo, x);
}

/// Evaluation respects congruence of coefficients and of the point.
pub proof fn lemma_eval_mod(c: Seq<int>, d: Seq<int>, x: int, y: int, p: int)
    requires
        p > 0,
        c.len() == d.len(),
        forall|j: int| 0 <= j < c.len() ==> #[trigger] c[j] % p == d[j] % p,
        x % p == y % p,
    ensures
        eval(c, x) % p == eval(d, y) % p,
{
    let f = |j: int| c[j] * pow(x, j as nat);
    let g = |j: int| d[j] * pow(y, j as nat);
    assert forall|j: int| 0 <= j < c.len() implies #[trigger] f(j) % p == g(j) % p by {
        lemma_pow_mod_noop(x, j as nat, p);
        lemma_pow_mod_noop(y, j as nat, p);
        lemma_mul_mod_noop(c[j], pow(x, j as nat), p);
        lemma_mul_mod_noop(d[j], pow(y, j as nat), p);
    }
    lemma_sum_mod(c.len(), f, g, p);
}

/// Trailing zero coefficients do not change the value.
pub proof fn lemma_eval_zero_pad(c: Seq<int>, d: Seq<int>, x: int)
    requires
        c.len() <= d.len(),
        forall|j: int| 0 <= j < c.len() ==> #[trigger] d[j] == c[j],
        forall|j: int| c.len() <= j < d.len() ==> #[trigger] d[j] == 0,
    ensures
        eval(d, x) == eval(c, x),
{
    let g = |j: int| d[j] * pow(x, j as nat);
    let tail = (d.len() - c.len()) as nat;
    lemma_sum_split(c.len(), tail, g);
    assert forall|j: int| 0 <= j < tail implies #[trigger] g(c.len() + j) == 0 by {}
    lemma_sum_zero(tail, |j: int| g(c.len() + j));
    lemma_sum_ext(c.len(), g, |j: int| c[j] * pow(x, j as nat));
    assert((c.len() + tail) as nat == d.len());
}

/// The value of a product is the product of the values.
pub proof fn lemma_eval_poly_mul(a: Seq<int>, b: Seq<int>, x: int)
    ensures
        eval(poly_mul(a, b), x) == eval(a, x) * eval(b, x),
{
    if a.len() == 0 || b.len() == 0 {
        if a.len() == 0 {
            assert(eval(a, x) == 0);
        } else {
            assert(eval(b, x) == 0);
        }
        assert(eval(poly_mul(a, b), x) == 0);
        lemma_mul_basics(eval(b, x));
        lemma_mul_basics(eval(a, x));
    } else {
        let la = a.len();
        let total = product_len(a, b);
        let pm = poly_mul(a, b);
        let eb = eval(b, x);
        let ff = |i: int, k: int| a[i] * (coef(b, k - i) * pow(x, k as nat));
        // Expand each coefficient of the product inside the value.
        assert forall|k: int| 0 <= k < total implies #[trigger] (pm[k] * pow(x, k as nat)) == sum(
            la,
            |i: int| ff(i, k),
        ) by {
            let h = |i: int| a[i] * coef(b, k - i);
            lemma_sum_scale(la, h, pow(x, k as nat));
            assert forall|i: int| 0 <= i < la implies #[trigger] (pow(x, k as nat) * h(i)) == ff(
                i,
                k,
            ) by {
                let u = a[i];
                let v = coef(b, k - i);
                let w = pow(x, k as nat);
                assert(w * (u * v) == u * (v * w)) by (nonlinear_arith);
            }
            lemma_sum_ext(la, |i: int| pow(x, k as nat) * h(i), |i: int| ff(i, k));
            lemma_mul_is_commutative(conv(a, b, k), pow(x, k as nat));
        }
        lemma_sum_ext(
            total,
            |k: int| pm[k] * pow(x, k as nat),
            |k: int| sum(la, |i: int| ff(i, k)),
        );
        lemma_sum_swap(total, la, ff);
        // Each row is a shifted copy of `b`.
        assert forall|i: int| 0 <= i < la implies sum(total, |k: int| ff(i, k)) == eb * (#[trigger] a[i]
            * pow(x, i as nat)) by {
            let g = |t: int| pow(x, t as nat);
            let inner = |k: int| coef(b, k - i) * g(k);
            lemma_sum_scale(total, inner, a[i]);
            lemma_sum_ext(total, |k: int| ff(i, k), |k: int| a[i] * inner(k));
            lemma_sum_coef_shift(b, i, total, g);
            let bj = |j: int| b[j] * pow(x, j as nat);
            assert forall|j: int| 0 <= j < b.len() implies #[trigger] (b[j] * g(j + i)) == pow(
                x,
                i as nat,
            ) * bj(j) by {
                lemma_pow_adds(x, j as nat, i as nat);
                assert((j + i) as nat == j as nat + i as nat);
                let u = b[j];
                let v = pow(x, j as nat);
                let w = pow(x, i as nat);
                assert(u * (v * w) == w * (u * v)) by (nonlinear_arith);
            }
            lemma_sum_ext(b.len(), |j: int| b[j] * g(j + i), |j: int| pow(x, i as nat) * bj(j));
            lemma_sum_scale(b.len(), bj, pow(x, i as nat));
            let u = a[i];
            let w = pow(x, i as nat);
            assert(u * (w * eb) == eb * (u * w)) by (nonlinear_arith);
        }
        let ea = |i: int| a[i] * pow(x, i as nat);
        lemma_sum_ext(la, |i: int| sum(total, |k: int| ff(i, k)), |i: int| eb * ea(i));
        lemma_sum_scale(la, ea, eb);
        lemma_mul_is_commutative(eb, eval(a, x));
    }
}

/// Coefficients of a product depend only on the factors' coefficients modulo `p`.
pub proof fn lemma_conv_mod(a: Seq<int>, b: Seq<int>, c: Seq<int>, d: Seq<int>, k: int, p: int)
    requires
        p > 0,
        a.len() == c.len(),
        b.len() == d.len(),
        forall|j: int| 0 <= j < a.len() ==> #[trigger] a[j] % p == c[j] % p,
        forall|j: int| 0 <= j < b.len() ==> #[trigger] b[j] % p == d[j] % p,
    ensures
        conv(a, b, k) % p == conv(c, d, k) % p,
{
    let f = |i: int| a[i] * coef(b, k - i);
    let g = |i: int| c[i] * coef(d, k - i);
    assert forall|i: int| 0 <= i < a.len() implies #[trigger] f(i) % p == g(i) % p by {
        assert(coef(b, k - i) % p == coef(d, k - i) % p);
        lemma_mul_mod_noop(a[i], coef(b, k - i), p);
        lemma_mul_mod_noop(c[i], coef(d, k - i), p);
    }
    lemma_sum_mod(a.len(), f, g, p);
}


/// Evaluating a product with a linear factor: `(c (x - r))(y) = c(y) (y - r)`.
pub proof fn lemma_eval_mul_linear(c: Seq<int>, r: int, y: int)
    ensures
        eval(mul_linear(c, r), y) == eval(c, y) * (y - r),
{
    let n = c.len();
    let m = mul_linear(c, r);
    let e = eval(c, y);
    let fa = |k: int| coef(c, k - 1) * pow(y, k as nat);
    let fb = |k: int| coef(c, k) * pow(y, k as nat);
    let rfb = |k: int| r * fb(k);
    assert forall|k: int| 0 <= k < n + 1 implies #[trigger] (m[k] * pow(y, k as nat)) == fa(k) - rfb(k) by {
        let u = coef(c, k - 1);
        let v = coef(c, k);
        let w = pow(y, k as nat);
        assert((u - r * v) * w == u * w - r * (v * w)) by (nonlinear_arith);
    }
    lemma_sum_ext(n + 1, |k: int| m[k] * pow(y, k as nat), |k: int| fa(k) - rfb(k));
    lemma_sum_sub(n + 1, fa, rfb);
    lemma_sum_scale(n + 1, fb, r);
    // the second sum is `c(y)`: its last term vanishes
    lemma_sum_ext(n, fb, |j: int| c[j] * pow(y, j as nat));
    assert(sum(n + 1, fb) == sum(n, fb) + fb(n as int));
    // the first sum is `y c(y)`: shift by one
    lemma_sum_split(1, n, fa);
    assert(sum(1, fa) == sum(0, fa) + fa(0));
    let g = |j: int| c[j] * pow(y, j as nat);
    assert forall|j: int| 0 <= j < n implies #[trigger] fa(1 + j) == y * g(j) by {
        assert(pow(y, (1 + j) as nat) == y * pow(y, j as nat)) by {
            reveal(pow);
        }
        let cj = c[j];
        let pj = pow(y, j as nat);
        assert(cj * (y * pj) == y * (cj * pj)) by (nonlinear_arith);
    }
    lemma_sum_ext(n, |j: int| fa(1 + j), |j: int| y * g(j));
    lemma_sum_scale(n, g, y);
    assert(y * e - r * e == e * (y - r)) by (nonlinear_arith);
}

/// A product of linear factors vanishes at each of its roots.
pub proof fn lemma_roots_poly_vanishes(roots: Seq<int>, i: int)
    requires
        0 <= i < roots.len(),
    ensures
        eval(roots_poly(roots), roots[i]) == 0,
    decreases roots.len(),
{
    let rest = roots.drop_last();
    let x = roots[i];
    lemma_eval_mul_linear(roots_poly(rest), roots.last(), x);
    if i < roots.len() - 1 {
        lemma_roots_poly_vanishes(rest, i);
        assert(rest[i] == x);
        lemma_mul_basics(x - roots.last());
    } else {
        lemma_mul_basics(eval(roots_poly(rest), x));
    }
}


/// A product of linear factors is monic: its leading coefficient, at the
/// number of roots, is one.
pub proof fn lemma_roots_poly_monic(roots: Seq<int>)
    ensures
        roots_poly(roots).len() == roots.len() + 1,
        roots_poly(roots)[roots.len() as int] == 1,
    decreases roots.len(),
{
    lemma_roots_poly_len(roots);
    if roots.len() > 0 {
        lemma_roots_poly_monic(roots.drop_last());
    }
}

} // verus!
