//! Finite sums of integer-valued spec functions and their algebra.
use vstd::arithmetic::div_mod::*;
use vstd::arithmetic::mul::*;
use vstd::prelude::*;

verus! {

/// `f(0) + f(1) + ... + f(n - 1)`.
pub open spec fn sum(n: nat, f: spec_fn(int) -> int) -> int
    decreases n,
{
    if n == 0 {
        0
    } else {
        sum((n - 1) as nat, f) + f(n - 1)
    }
}

/// Sums of functions that agree on the range are equal.
pub proof fn lemma_sum_ext(n: nat, f: spec_fn(int) -> int, g: spec_fn(int) -> int)
    requires
        forall|j: int| 0 <= j < n ==> #[trigger] f(j) == g(j),
    ensures
        sum(n, f) == sum(n, g),
    decreases n,
{
    if n > 0 {
        lemma_sum_ext((n - 1) as nat, f, g);
    }
}

/// A sum of zeros is zero.
pub proof fn lemma_sum_zero(n: nat, f: spec_fn(int) -> int)
    requires
        forall|j: int| 0 <= j < n ==> #[trigger] f(j) == 0,
    ensures
        sum(n, f) == 0,
    decreases n,
{
    if n > 0 {
        lemma_sum_zero((n - 1) as nat, f);
    }
}

/// The sum of a pointwise sum is the sum of the sums.
pub proof fn lemma_sum_add(n: nat, f: spec_fn(int) -> int, g: spec_fn(int) -> int)
    ensures
        sum(n, |j: int| f(j) + g(j)) == sum(n, f) + sum(n, g),
    decreases n,
{
    if n > 0 {
        lemma_sum_add((n - 1) as nat, f, g);
    }
}

/// The sum of a pointwise difference is the difference of the sums.
pub proof fn lemma_sum_sub(n: nat, f: spec_fn(int) -> int, g: spec_fn(int) -> int)
    ensures
        sum(n, |j: int| f(j) - g(j)) == sum(n, f) - sum(n, g),
    decreases n,
{
    if n > 0 {
        lemma_sum_sub((n - 1) as nat, f, g);
    }
}

/// A constant factor moves out of a sum.
pub proof fn lemma_sum_scale(n: nat, f: spec_fn(int) -> int, c: int)
    ensures
        sum(n, |j: int| c * f(j)) == c * sum(n, f),
    decreases n,
{
    if n > 0 {
        lemma_sum_scale((n - 1) as nat, f, c);
        lemma_mul_is_distributive_add(c, sum((n - 1) as nat, f), f(n - 1));
    }
}

/// A sum over `n + m` terms splits into the first `n` and the last `m`.
pub proof fn lemma_sum_split(n: nat, m: nat, f: spec_fn(int) -> int)
    ensures
        sum(n + m, f) == sum(n, f) + sum(m, |j: int| f(n + j)),
    decreases m,
{
    if m > 0 {
        lemma_sum_split(n, (m - 1) as nat, f);
        assert((n + m - 1) as nat == (n + (m - 1)) as nat);
    }
}

/// A sum whose terms vanish except at one index is that term.
pub proof fn lemma_sum_single(n: nat, f: spec_fn(int) -> int, i: int)
    requires
        0 <= i < n,
        forall|j: int| 0 <= j < n && j != i ==> #[trigger] f(j) == 0,
    ensures
        sum(n, f) == f(i),
    decreases n,
{
    if n - 1 == i {
        lemma_sum_zero((n - 1) as nat, f);
    } else {
        lemma_sum_single((n - 1) as nat, f, i);
    }
}

/// Exchange of the order of summation in a double sum.
pub proof fn lemma_sum_swap(n: nat, m: nat, f: spec_fn(int, int) -> int)
    ensures
        sum(n, |k: int| sum(m, |j: int| f(j, k))) == sum(m, |j: int| sum(n, |k: int| f(j, k))),
    decreases n,
{
    if n == 0 {
        lemma_sum_zero(m, |j: int| sum(0, |k: int| f(j, k)));
    } else {
        lemma_sum_swap((n - 1) as nat, m, f);
        let prev = |j: int| sum((n - 1) as nat, |k: int| f(j, k));
        let last = |j: int| f(j, n - 1);
        lemma_sum_add(m, prev, last);
        lemma_sum_ext(
            m,
            |j: int| sum(n, |k: int| f(j, k)),
            |j: int| prev(j) + last(j),
        );
    }
}

/// A sum over `2m` indices splits into its even- and odd-indexed terms.
pub proof fn lemma_sum_even_odd(m: nat, f: spec_fn(int) -> int)
    ensures
        sum(2 * m, f) == sum(m, |u: int| f(2 * u)) + sum(m, |u: int| f(2 * u + 1)),
    decreases m,
{
    if m > 0 {
        lemma_sum_even_odd((m - 1) as nat, f);
        let k = (2 * m) as nat;
        assert(sum(k, f) == sum((k - 1) as nat, f) + f(k - 1));
        assert(sum((k - 1) as nat, f) == sum((k - 2) as nat, f) + f(k - 2));
        assert(((k - 2) as nat) == 2 * ((m - 1) as nat));
    }
}

/// Sums of termwise congruent functions are congruent.
pub proof fn lemma_sum_mod(n: nat, f: spec_fn(int) -> int, g: spec_fn(int) -> int, p: int)
    requires
        p > 0,
        forall|j: int| 0 <= j < n ==> #[trigger] f(j) % p == g(j) % p,
    ensures
        sum(n, f) % p == sum(n, g) % p,
    decreases n,
{
    if n > 0 {
        lemma_sum_mod((n - 1) as nat, f, g, p);
        let a = sum((n - 1) as nat, f);
        let b = sum((n - 1) as nat, g);
        assert(f(n - 1) % p == g(n - 1) % p);
        lemma_add_mod_noop(a, f(n - 1), p);
        lemma_add_mod_noop(b, g(n - 1), p);
    }
}

} // verus!
