//! Radix-2 NTT utilities over the Pallas scalar field: in-place forward and
//! inverse transforms, polynomial multiplication and the construction of a
//! polynomial from its roots.
use crate::dft::{
    bit_rev, lemma_bit_rev_bound, lemma_bit_rev_involution, lemma_butterfly_step,
    lemma_inverse_unique, lemma_pow2_injective, lemma_pow2_le, lemma_primitive_root_half, lemma_primitive_root_inv, lemma_size_inv,
    lemma_stage_value_final, lemma_stage_value_initial, lemma_trailing_zero_count,
    lemma_trailing_zero_count_pow2, primitive_root, primitive_root_inv, size_inv, stage_root,
    stage_value, trailing_zero_count,
};
use crate::field::{
    all_wf, fe_zero, fe_from_u64, fe_invert, fe_mul, fe_one, fe_pow, fe_root_of_unity, fe_two_adicity,
    fe_add, fe_sub, fmod, lemma_square_chain, modulus, root_of_unity_value, square_chain,
    two_adicity, int_values, Fe,
};
use crate::dft::lemma_mul_fmod;
use crate::poly::{coef, eval, lemma_eval_mod, lemma_roots_poly_vanishes, poly_mul, roots_poly};
use crate::sum::sum;
use vstd::arithmetic::power::*;
use vstd::arithmetic::div_mod::*;
use vstd::arithmetic::mul::*;
use vstd::arithmetic::power2::*;
use std::collections::HashMap;
use vstd::prelude::*;

verus! {

/// Default threshold for switching polynomial multiplication to naive mode.
///
/// When `a.len().min(b.len()) <= POLY_MUL_NAIVE_THRESHOLD`, the adaptive
/// routine uses schoolbook multiplication instead of NTT.
pub const POLY_MUL_NAIVE_THRESHOLD: usize = 64;

/// Default threshold for switching to direct root expansion.
pub const ROOTS_NAIVE_THRESHOLD: usize = 64;

/// Errors returned by radix-2 NTT routines.
#[derive(Debug, Clone, Copy, PartialEq, Eq)]
pub enum NttError {
    /// Input length must be a power of two.
    NonPowerOfTwoLength,
    /// Input length exceeds the field's 2-adicity.
    UnsupportedLength,
    /// Input length is too large to represent safely in `u64`.
    LengthTooLarge,
}

impl NttError {
    /// The human-readable description of the error.
    pub fn message(&self) -> (r: &'static str)
        ensures
            r@ == (match self {
                NttError::NonPowerOfTwoLength => "NTT input length must be a power of two"@,
                NttError::UnsupportedLength => "NTT input length exceeds field two-adicity"@,
                NttError::LengthTooLarge => "NTT input length is too large"@,
            }),
    {
        match self {
            NttError::NonPowerOfTwoLength => "NTT input length must be a power of two",
            NttError::UnsupportedLength => "NTT input length exceeds field two-adicity",
            NttError::LengthTooLarge => "NTT input length is too large",
        }
    }
}

/// Splits a positive `n` into `odd * 2^t`: returns `(t, odd, 2^t)`.
fn split_two_power(n: usize) -> (r: (u32, usize, usize))
    requires
        n > 0,
    ensures
        r.0 == trailing_zero_count(n as nat),
        r.2 == pow2(r.0 as nat),
        n == r.1 * r.2,
        r.1 % 2 == 1,
        r.0 < 64,
{
    let mut m: usize = n;
    let mut t: u32 = 0;
    let mut pw: usize = 1;
    proof {
        lemma2_to64();
    }
    while m % 2 == 0
        invariant
            m > 0,
            n == m * pw,
            pw == pow2(t as nat),
            trailing_zero_count(n as nat) == t + trailing_zero_count(m as nat),
            t < 64,
        decreases m,
    {
        proof {
            lemma_pow2_unfold((t + 1) as nat);
            assert(n == (m / 2) * (pw * 2)) by (nonlinear_arith)
                requires
                    n == m * pw,
                    m % 2 == 0,
            ;
            lemma2_to64_rest();
            assert(pw * 2 <= n) by (nonlinear_arith)
                requires
                    n == (m / 2) * (pw * 2),
                    m / 2 >= 1,
            ;
            if t + 1 >= 64 {
                lemma_pow2_le(64, (t + 1) as nat);
                assert(false);
            }
        }
        m = m / 2;
        pw = pw * 2;
        t = t + 1;
    }
    proof {
        lemma_mul_is_commutative(m as int, pw as int);
    }
    (t, m, pw)
}

/// An odd multiple of `2^t` other than `2^t` itself is not a power of two.
proof fn lemma_not_pow2(n: nat, odd: nat, t: nat, b: nat)
    requires
        n == odd * pow2(t),
        odd % 2 == 1,
        odd > 1,
    ensures
        pow2(b) != n,
{
    lemma_pow2_pos(t);
    if pow2(b) == n {
        if b >= t {
            lemma_pow2_adds((b - t) as nat, t);
            assert((b - t) as nat + t == b);
            lemma_mul_is_commutative(odd as int, pow2(t) as int);
            lemma_mul_is_commutative(pow2((b - t) as nat) as int, pow2(t) as int);
            lemma_mul_equality_converse(pow2(t) as int, odd as int, pow2((b - t) as nat) as int);
            if b == t {
                lemma2_to64();
            } else {
                lemma_pow2_unfold((b - t) as nat);
            }
        } else {
            lemma_pow2_strictly_increases(b, t);
            assert(odd * pow2(t) >= 2 * pow2(t)) by (nonlinear_arith)
                requires
                    odd >= 2,
            ;
        }
    }
}

/// The bit reversal of the low `bits` bits of `i`.
fn reverse_low_bits(i: usize, bits: u32) -> (r: usize)
    requires
        bits < 64,
        pow2(bits as nat) <= usize::MAX,
    ensures
        r == bit_rev(i as nat, bits as nat),
{
    let mut r: usize = 0;
    let mut x: usize = i;
    let mut t: u32 = 0;
    proof {
        lemma2_to64();
    }
    while t < bits
        invariant
            t <= bits < 64,
            pow2(bits as nat) <= usize::MAX,
            r < pow2(t as nat),
            bit_rev(i as nat, bits as nat) == r * pow2((bits - t) as nat) + bit_rev(
                x as nat,
                (bits - t) as nat,
            ),
        decreases bits - t,
    {
        proof {
            let l = (bits - t) as nat;
            lemma_pow2_unfold(l);
            lemma_pow2_unfold((t + 1) as nat);
            lemma_pow2_le((t + 1) as nat, bits as nat);
            assert((l - 1) as nat == (bits - (t + 1)) as nat);
            let h = pow2((l - 1) as nat);
            assert(r * pow2(l) + (x % 2) * h == (r * 2 + x % 2) * h) by (nonlinear_arith)
                requires
                    pow2(l) == 2 * h,
            ;
        }
        r = r * 2 + x % 2;
        x = x / 2;
        t = t + 1;
    }
    proof {
        lemma2_to64();
        assert((bits - t) as nat == 0);
        assert(bit_rev(x as nat, 0) == 0);
        assert(r * pow2(0) == r);
    }
    r
}

/// `new` is `old` with its first `2^t` entries in bit-reversed order of
/// their `t`-bit indices, for `2^t` the largest power of two dividing the
/// length, and its other entries in place.
pub open spec fn bit_reverse_permuted(old: Seq<Fe>, new: Seq<Fe>) -> bool {
    let t = trailing_zero_count(old.len() as nat);
    &&& new.len() == old.len()
    &&& forall|k: int|
        0 <= k < old.len() ==> #[trigger] new[k] == (if k < pow2(t) {
            old[bit_rev(k as nat, t) as int]
        } else {
            old[k]
        })
}

/// Permutes `values` in place: for `n = values.len()` and `2^t` the largest
/// power of two dividing `n`, the first `2^t` entries are put in bit-reversed
/// order of their `t`-bit indices; the other entries stay where they are.
pub fn bit_reverse_permute(values: &mut [Fe])
    requires
        old(values).len() <= 1 || old(values).len() % 2 == 0,
    ensures
        final(values).len() == old(values).len(),
        forall|k: int|
            0 <= k < old(values).len() ==> #[trigger] final(values)[k] == (if k < pow2(
                trailing_zero_count(old(values).len() as nat),
            ) {
                old(values)[bit_rev(k as nat, trailing_zero_count(old(values).len() as nat)) as int]
            } else {
                old(values)[k]
            }),
        bit_reverse_permuted(old(values)@, final(values)@),
{
    let n = values.len();
    if n <= 1 {
        proof {
            lemma2_to64();
        }
        return;
    }
    let (bits, _odd, m) = split_two_power(n);
    let ghost orig = values@;
    proof {
        lemma_trailing_zero_count(n as nat);
    }
    let mut i: usize = 0;
    while i < m
        invariant
            values.len() == n,
            orig.len() == n,
            bits == trailing_zero_count(n as nat),
            m == pow2(bits as nat),
            m <= n,
            bits < 64,
            i <= m,
            forall|k: int|
                0 <= k < n ==> #[trigger] values@[k] == (if k < m && (k < i || bit_rev(
                    k as nat,
                    bits as nat,
                ) < i) {
                    orig[bit_rev(k as nat, bits as nat) as int]
                } else {
                    orig[k]
                }),
        decreases m - i,
    {
        let j = reverse_low_bits(i, bits);
        proof {
            lemma_bit_rev_bound(i as nat, bits as nat);
            lemma_bit_rev_involution(i as nat, bits as nat);
        }
        if i < j {
            let a = values[i];
            let b = values[j];
            values[i] = b;
            values[j] = a;
        }
        proof {
            assert forall|k: int| 0 <= k < n implies #[trigger] values@[k] == (if k < m && (k < i
                + 1 || bit_rev(k as nat, bits as nat) < i + 1) {
                orig[bit_rev(k as nat, bits as nat) as int]
            } else {
                orig[k]
            }) by {
                if k < m {
                    lemma_bit_rev_involution(k as nat, bits as nat);
                    lemma_bit_rev_bound(k as nat, bits as nat);
                }
            }
        }
        i = i + 1;
    }
    proof {
        assert forall|k: int| 0 <= k < n implies #[trigger] values@[k] == (if k < pow2(
            trailing_zero_count(n as nat),
        ) {
            orig[bit_rev(k as nat, trailing_zero_count(n as nat)) as int]
        } else {
            orig[k]
        }) by {
            if k < m {
                lemma_bit_rev_bound(k as nat, bits as nat);
            }
        }
    }
}

/// `ROOT_OF_UNITY^(2^(S - k))`, a primitive `2^k`-th root of unity.
fn primitive_2k_root(k: u32) -> (r: Fe)
    requires
        k <= two_adicity(),
    ensures
        r@ == primitive_root(k as nat),
{
    let mut root = fe_root_of_unity();
    let s = fe_two_adicity();
    let mut i = k;
    proof {
        lemma_small_mod(root_of_unity_value(), modulus());
    }
    while i < s
        invariant
            k <= i <= s,
            s == two_adicity(),
            root@ == square_chain(root_of_unity_value(), (i - k) as nat),
        decreases s - i,
    {
        proof {
            assert(((i + 1 - k) as nat - 1) as nat == (i - k) as nat);
        }
        root = fe_mul(&root, &root);
        i = i + 1;
    }
    proof {
        lemma_square_chain(root_of_unity_value(), (s - k) as nat);
    }
    root
}

/// Twiddle roots for each stage of a transform of size `n == 2^b`, for the
/// forward and for the inverse transform.
fn precompute_stage_twiddles(n: usize, Ghost(b): Ghost<nat>) -> (r: (Vec<Fe>, Vec<Fe>))
    requires
        n == pow2(b),
        b <= two_adicity(),
    ensures
        r.0.len() == b,
        r.1.len() == b,
        forall|s: int|
            0 <= s < b ==> #[trigger] r.0@[s]@ == stage_root(primitive_root(b) as int, b, s as nat),
        forall|s: int|
            0 <= s < b ==> #[trigger] r.1@[s]@ == stage_root(
                primitive_root_inv(b) as int,
                b,
                s as nat,
            ),
{
    proof {
        lemma_pow2_pos(b);
        lemma_trailing_zero_count_pow2(b);
    }
    let (log_n, _odd, _pw) = split_two_power(n);
    let omega = primitive_2k_root(log_n);
    proof {
        lemma_primitive_root_inv(b);
        if omega@ == 0 {
            assert(fmod(0int * primitive_root_inv(b)) == 0);
        }
    }
    let omega_inv = fe_invert(&omega).unwrap();
    proof {
        lemma_inverse_unique(omega@ as int, omega_inv@ as int, primitive_root_inv(b) as int);
        lemma_small_mod(omega_inv@, modulus());
        lemma_small_mod(primitive_root_inv(b), modulus());
    }
    let mut stage_fwd: Vec<Fe> = Vec::new();
    let mut stage_inv: Vec<Fe> = Vec::new();
    let mut m: usize = 1;
    let ghost mut s: nat = 0;
    proof {
        lemma2_to64();
    }
    while m < n
        invariant
            n == pow2(b),
            b <= two_adicity(),
            m == pow2(s),
            s <= b,
            omega@ == primitive_root(b),
            omega_inv@ == primitive_root_inv(b),
            stage_fwd.len() == s,
            stage_inv.len() == s,
            forall|t: int|
                0 <= t < s ==> #[trigger] stage_fwd@[t]@ == stage_root(
                    primitive_root(b) as int,
                    b,
                    t as nat,
                ),
            forall|t: int|
                0 <= t < s ==> #[trigger] stage_inv@[t]@ == stage_root(
                    primitive_root_inv(b) as int,
                    b,
                    t as nat,
                ),
        decreases n - m,
    {
        proof {
            if s >= b {
                lemma_pow2_le(b, s);
                assert(false);
            }
            lemma_pow2_unfold(s + 1);
            lemma_pow2_le(s + 1, b);
            lemma_pow2_adds((b - 1 - s) as nat, s + 1);
            assert((b - 1 - s) as nat + (s + 1) == b);
            lemma_pow2_pos(s + 1);
            lemma_div_multiples_vanish(pow2((b - 1 - s) as nat) as int, pow2(s + 1) as int);
            lemma_mul_is_commutative(pow2((b - 1 - s) as nat) as int, pow2(s + 1) as int);
        }
        let span = m * 2;
        let step = n / span;
        stage_fwd.push(fe_pow(&omega, step as u64));
        stage_inv.push(fe_pow(&omega_inv, step as u64));
        m = span;
        proof {
            s = s + 1;
        }
    }
    proof {
        if s < b {
            lemma_pow2_strictly_increases(s, b);
        }
    }
    (stage_fwd, stage_inv)
}

/// The transform of `v` at `w`, reduced modulo `q`: entry `k` is `v(w^k)`.
pub open spec fn transform(v: Seq<int>, w: int) -> Seq<int> {
    Seq::new(v.len(), |k: int| fmod(eval(v, pow(w, k as nat))) as int)
}

/// The transform at `w` followed by scaling with `2^(-b)`.
pub open spec fn scaled_transform(v: Seq<int>, w: int, b: nat) -> Seq<int> {
    Seq::new(v.len(), |k: int| fmod(size_inv(b) * eval(v, pow(w, k as nat))) as int)
}

/// The in-place radix-2 transform of `values` (of length `2^b`) using the
/// given stage roots, which must be the stage roots of a root `w` of half
/// order `2^(b - 1)`; with `inverse` the result is scaled by `2^(-b)`.
fn ntt_in_place_with_twiddles(
    values: &mut [Fe],
    stage_roots: &[Fe],
    inverse: bool,
    Ghost(b): Ghost<nat>,
    Ghost(w): Ghost<int>,
) -> (r: Result<(), NttError>)
    requires
        old(values).len() == pow2(b),
        b <= two_adicity(),
        all_wf(old(values)@),
        stage_roots.len() >= b,
        forall|s: int| 0 <= s < b ==> #[trigger] stage_roots@[s]@ == stage_root(w, b, s as nat),
        b >= 1 ==> fmod(pow(w, pow2((b - 1) as nat))) == modulus() - 1,
    ensures
        r is Ok,
        int_values(final(values)@) == (if inverse {
            scaled_transform(int_values(old(values)@), w, b)
        } else {
            transform(int_values(old(values)@), w)
        }),
{
    let n = values.len();
    let ghost v0 = int_values(values@);
    let ghost orig = values@;
    let n_u64 = n as u64;
    proof {
        lemma_pow2_pos(b);
        lemma_trailing_zero_count_pow2(b);
        if b >= 1 {
            lemma_pow2_unfold(b);
            assert(n % 2 == 0);
        } else {
            lemma2_to64();
        }
    }
    bit_reverse_permute(values);
    proof {
        assert forall|idx: int| 0 <= idx < n implies #[trigger] values@[idx]@ == fmod(
            stage_value(v0, w, b, 0, idx),
        ) by {
            lemma_stage_value_initial(v0, w, b, idx);
            lemma_bit_rev_bound(idx as nat, b);
            lemma_small_mod(orig[bit_rev(idx as nat, b) as int]@, modulus());
        }
    }
    let mut m: usize = 1;
    let mut stage_idx: usize = 0;
    proof {
        lemma2_to64();
    }
    while m < n
        invariant
            n == values.len(),
            n == pow2(b),
            b <= two_adicity(),
            v0.len() == n,
            m == pow2(stage_idx as nat),
            stage_idx <= b,
            stage_roots.len() >= b,
            forall|s: int| 0 <= s < b ==> #[trigger] stage_roots@[s]@ == stage_root(w, b, s as nat),
            b >= 1 ==> fmod(pow(w, pow2((b - 1) as nat))) == modulus() - 1,
            forall|idx: int|
                0 <= idx < n ==> #[trigger] values@[idx]@ == fmod(
                    stage_value(v0, w, b, stage_idx as nat, idx),
                ),
        decreases n - m,
    {
        let ghost s = stage_idx as nat;
        proof {
            if s >= b {
                lemma_pow2_le(b, s);
                assert(false);
            }
            lemma_pow2_unfold(s + 1);
            lemma_pow2_le(s + 1, b);
            lemma_pow2_adds((b - 1 - s) as nat, s + 1);
            assert((b - 1 - s) as nat + (s + 1) == b);
            lemma_pow2_pos(s);
        }
        let span = m * 2;
        let w_m = stage_roots[stage_idx];
        let ghost blocks = pow2((b - 1 - s) as nat);
        let mut start: usize = 0;
        let ghost mut c: int = 0;
        while start < n
            invariant
                n == values.len(),
                n == pow2(b),
                v0.len() == n,
                s < b,
                m == pow2(s),
                m > 0,
                span == 2 * m,
                n == blocks * span,
                blocks == pow2((b - 1 - s) as nat),
                start == c * span,
                0 <= c <= blocks,
                w_m@ == stage_root(w, b, s),
                fmod(pow(w, pow2((b - 1) as nat))) == modulus() - 1,
                forall|idx: int|
                    0 <= idx < n ==> #[trigger] values@[idx]@ == fmod(
                        if idx < start {
                            stage_value(v0, w, b, s + 1, idx)
                        } else {
                            stage_value(v0, w, b, s, idx)
                        },
                    ),
            decreases n - start,
        {
            proof {
                if c >= blocks {
                    assert(start >= n) by (nonlinear_arith)
                        requires
                            start == c * span,
                            c >= blocks,
                            n == blocks * span,
                            span > 0,
                    ;
                }
                assert(start + span <= n) by (nonlinear_arith)
                    requires
                        start == c * span,
                        c < blocks,
                        n == blocks * span,
                ;
            }
            let mut wc = fe_one();
            let mut j: usize = 0;
            proof {
                lemma_pow0(w_m@ as int);
            }
            while j < m
                invariant
                    n == values.len(),
                    n == pow2(b),
                    v0.len() == n,
                    s < b,
                    m == pow2(s),
                    span == 2 * m,
                    start == c * span,
                    0 <= c < blocks,
                    blocks == pow2((b - 1 - s) as nat),
                    start + span <= n,
                    j <= m,
                    w_m@ == stage_root(w, b, s),
                    wc@ == fmod(pow(w_m@ as int, j as nat)),
                    fmod(pow(w, pow2((b - 1) as nat))) == modulus() - 1,
                    forall|idx: int|
                        0 <= idx < n ==> #[trigger] values@[idx]@ == fmod(
                            if idx < start + j || (start + m <= idx && idx < start + m + j) {
                                stage_value(v0, w, b, s + 1, idx)
                            } else {
                                stage_value(v0, w, b, s, idx)
                            },
                        ),
                decreases m - j,
            {
                let right = values[start + j + m];
                let t = fe_mul(&wc, &right);
                let u = values[start + j];
                proof {
                    assert((b - s - 1) as nat == (b - 1 - s) as nat);
                    lemma_butterfly_step(v0, w, b, s, c, j as int, wc@, u@, right@);
                }
                values[start + j] = fe_add(&u, &t);
                values[start + j + m] = fe_sub(&u, &t);
                proof {
                    lemma_pow_adds(w_m@ as int, j as nat, 1);
                    lemma_pow1(w_m@ as int);
                    lemma_mul_fmod(pow(w_m@ as int, j as nat), w_m@ as int);
                    lemma_small_mod(w_m@, modulus());
                }
                wc = fe_mul(&wc, &w_m);
                j = j + 1;
            }
            proof {
                assert(start + span == (c + 1) * span) by (nonlinear_arith)
                    requires
                        start == c * span,
                ;
            }
            start = start + span;
            proof {
                c = c + 1;
            }
        }
        m = span;
        stage_idx = stage_idx + 1;
    }
    proof {
        if stage_idx < b {
            lemma_pow2_strictly_increases(stage_idx as nat, b);
        }
        assert forall|idx: int| 0 <= idx < n implies #[trigger] values@[idx]@ == fmod(
            eval(v0, pow(w, idx as nat)),
        ) by {
            lemma_stage_value_final(v0, w, b, idx);
        }
    }
    if inverse {
        let n_inv = match fe_invert(&fe_from_u64(n_u64)) {
            Some(x) => x,
            None => {
                proof {
                    lemma_size_inv(b);
                    assert(fmod(0int * size_inv(b)) == 0);
                }
                return Err(NttError::UnsupportedLength);
            },
        };
        proof {
            lemma_size_inv(b);
            lemma_inverse_unique(n as int, n_inv@ as int, size_inv(b) as int);
            lemma_small_mod(n_inv@, modulus());
            lemma_small_mod(size_inv(b), modulus());
        }
        let mut i: usize = 0;
        while i < n
            invariant
                n == values.len(),
                v0.len() == n,
                n_inv@ == size_inv(b),
                i <= n,
                forall|idx: int|
                    0 <= idx < n ==> #[trigger] values@[idx]@ == (if idx < i {
                        fmod(size_inv(b) * eval(v0, pow(w, idx as nat)))
                    } else {
                        fmod(eval(v0, pow(w, idx as nat)))
                    }),
            decreases n - i,
        {
            let x = values[i];
            proof {
                let e = eval(v0, pow(w, i as nat));
                lemma_mul_fmod(size_inv(b) as int, e);
                lemma_small_mod(size_inv(b), modulus());
            }
            values[i] = fe_mul(&x, &n_inv);
            proof {
                lemma_mul_is_commutative(x@ as int, n_inv@ as int);
            }
            i = i + 1;
        }
        proof {
            assert(int_values(values@) =~= scaled_transform(v0, w, b));
        }
    } else {
        proof {
            assert(int_values(values@) =~= transform(v0, w));
        }
    }
    Ok(())
}

/// `n` is a power of two.
pub open spec fn is_power_of_two(n: nat) -> bool {
    exists|b: nat| #[trigger] pow2(b) == n
}

/// `n` is a power of two whose exponent is at most the field's 2-adicity.
pub open spec fn is_supported_size(n: nat) -> bool {
    exists|b: nat| b <= two_adicity() && #[trigger] pow2(b) == n
}

/// The outcome of the transform of `old` into `new`: `Ok` exactly for
/// supported power-of-two lengths, then the transform at the primitive root
/// of that order (or its scaled inverse); the errors for the other lengths,
/// leaving the input untouched.
pub open spec fn ntt_outcome(old: Seq<Fe>, new: Seq<Fe>, inverse: bool, r: Result<(), NttError>) -> bool {
    &&& (r is Ok <==> is_supported_size(old.len()))
    &&& (r == Err::<(), NttError>(NttError::NonPowerOfTwoLength) <==> !is_power_of_two(old.len()))
    &&& (r == Err::<(), NttError>(NttError::UnsupportedLength) <==> (is_power_of_two(old.len())
        && !is_supported_size(old.len())))
    &&& (r is Err ==> new == old)
    &&& forall|b: nat|
        r is Ok && #[trigger] pow2(b) == old.len() ==> int_values(new) == (if inverse {
            scaled_transform(int_values(old), primitive_root_inv(b) as int, b)
        } else {
            transform(int_values(old), primitive_root(b) as int)
        })
}

fn ntt_in_place(values: &mut [Fe], inverse: bool) -> (r: Result<(), NttError>)
    requires
        all_wf(old(values)@),
    ensures
        ntt_outcome(old(values)@, final(values)@, inverse, r),
{
    let n = values.len();
    if n == 0 {
        proof {
            assert forall|b: nat| #[trigger] pow2(b) != 0 by {
                lemma_pow2_pos(b);
            }
        }
        return Err(NttError::NonPowerOfTwoLength);
    }
    let (log_n, odd, _pw) = split_two_power(n);
    if odd != 1 {
        proof {
            assert forall|b: nat| #[trigger] pow2(b) != n by {
                lemma_not_pow2(n as nat, odd as nat, log_n as nat, b);
            }
        }
        return Err(NttError::NonPowerOfTwoLength);
    }
    let ghost b = log_n as nat;
    proof {
        assert(pow2(b) == n);
        assert forall|c: nat| #[trigger] pow2(c) == n implies c == b by {
            lemma_pow2_injective(c, b);
        }
    }
    if log_n > fe_two_adicity() {
        return Err(NttError::UnsupportedLength);
    }
    let (stage_fwd, stage_inv) = precompute_stage_twiddles(n, Ghost(b));
    proof {
        if b >= 1 {
            lemma_primitive_root_half(b);
            lemma_primitive_root_inv(b);
            crate::dft::lemma_inverse_half(
                primitive_root(b) as int,
                primitive_root_inv(b) as int,
                pow2((b - 1) as nat),
            );
        }
    }
    if inverse {
        ntt_in_place_with_twiddles(
            values,
            stage_inv.as_slice(),
            true,
            Ghost(b),
            Ghost(primitive_root_inv(b) as int),
        )
    } else {
        ntt_in_place_with_twiddles(
            values,
            stage_fwd.as_slice(),
            false,
            Ghost(b),
            Ghost(primitive_root(b) as int),
        )
    }
}

/// Computes an in-place radix-2 NTT over `values`.
///
/// The transform length is `values.len() = 2^k`, and requires `k <= S`.
pub fn radix2_ntt(values: &mut [Fe]) -> (r: Result<(), NttError>)
    requires
        all_wf(old(values)@),
    ensures
        ntt_outcome(old(values)@, final(values)@, false, r),
{
    ntt_in_place(values, false)
}

/// Computes an in-place inverse radix-2 NTT over `values`.
///
/// This is the inverse of [`radix2_ntt`], including scaling by `n^{-1}`.
pub fn radix2_intt(values: &mut [Fe]) -> (r: Result<(), NttError>)
    requires
        all_wf(old(values)@),
    ensures
        ntt_outcome(old(values)@, final(values)@, true, r),
{
    ntt_in_place(values, true)
}

/// Round trip of the transforms on canonical integer vectors.
proof fn lemma_roundtrip_values(vi: Seq<int>, b: nat)
    requires
        forall|i: int| 0 <= i < vi.len() ==> 0 <= #[trigger] vi[i] < modulus(),
        vi.len() == pow2(b),
        b <= two_adicity(),
    ensures
        scaled_transform(transform(vi, primitive_root(b) as int), primitive_root_inv(b) as int, b)
            == vi,
{
    let p = modulus() as int;
    let w = primitive_root(b) as int;
    let winv = primitive_root_inv(b) as int;
    let t = transform(vi, w);
    let res = scaled_transform(t, winv, b);
    lemma_size_inv(b);
    assert forall|i: int| 0 <= i < vi.len() implies #[trigger] res[i] == vi[i] by {
        let x = pow(winv, i as nat);
        let dv = crate::dft::dft(vi, w);
        assert forall|k: int| 0 <= k < t.len() implies #[trigger] t[k] % p == dv[k] % p by {
            lemma_mod_twice(eval(vi, pow(w, k as nat)), p);
        }
        crate::poly::lemma_eval_mod(t, dv, x, x, p);
        if b >= 1 {
            lemma_primitive_root_half(b);
            lemma_primitive_root_inv(b);
            crate::dft::lemma_dft_inverse(vi, b, w, winv, i);
            assert(eval(t, x) % p == (pow2(b) * vi[i]) % p);
        } else {
            lemma2_to64();
            assert(i == 0);
            lemma_pow0(w);
            lemma_pow0(winv);
            let f = |j: int| dv[j] * pow(1, j as nat);
            assert(eval(dv, 1) == sum(1, f));
            assert(sum(1, f) == sum(0, f) + f(0));
            let g = |j: int| vi[j] * pow(1, j as nat);
            assert(dv[0] == eval(vi, 1));
            assert(eval(vi, 1) == sum(1, g));
            assert(sum(1, g) == sum(0, g) + g(0));
            assert(x == 1);
            lemma_pow0(1);
            assert(dv.len() == 1);
            let h = |j: int| dv[j] * pow(x, j as nat);
            assert(eval(dv, x) == sum(1, h));
            assert(sum(1, h) == sum(0, h) + h(0));
            assert(eval(dv, x) == vi[0]);
            assert(eval(t, x) % p == (pow2(b) * vi[i]) % p);
        }
        // res[i] == fmod(size_inv * eval(t, x)), eval(t, x) == n * v[i] modulo p
        let e = eval(t, x);
        let si = size_inv(b) as int;
        let n = pow2(b) as int;
        assert(e % p == (n * vi[i]) % p);
        assert(res[i] == (si * e) % p);
        lemma_mul_mod_noop_right(si, e, p);
        lemma_mul_mod_noop_right(si, n * vi[i], p);
        assert((si * e) % p == (si * (n * vi[i])) % p);
        lemma_mul_is_associative(si, n, vi[i]);
        lemma_mul_mod_noop_left(si * n, vi[i], p);
        lemma_mul_is_commutative(si, n);
        assert((si * n) % p == 1);
        assert(((si * n) * vi[i]) % p == (1 * vi[i]) % p);
        lemma_small_mod(vi[i] as nat, modulus());
    }
    assert(res =~= vi);
}

/// Round trip of the transforms in the other order.
proof fn lemma_roundtrip_values_rev(vi: Seq<int>, b: nat)
    requires
        forall|i: int| 0 <= i < vi.len() ==> 0 <= #[trigger] vi[i] < modulus(),
        vi.len() == pow2(b),
        b <= two_adicity(),
    ensures
        transform(scaled_transform(vi, primitive_root_inv(b) as int, b), primitive_root(b) as int)
            == vi,
{
    let p = modulus() as int;
    let w = primitive_root(b) as int;
    let winv = primitive_root_inv(b) as int;
    let si = size_inv(b) as int;
    let n = pow2(b) as int;
    let u = scaled_transform(vi, winv, b);
    let res = transform(u, w);
    lemma_size_inv(b);
    assert forall|i: int| 0 <= i < vi.len() implies #[trigger] res[i] == vi[i] by {
        let x = pow(w, i as nat);
        let dv = crate::dft::dft(vi, winv);
        let sd = Seq::new(dv.len(), |k: int| si * dv[k]);
        assert forall|k: int| 0 <= k < u.len() implies #[trigger] u[k] % p == sd[k] % p by {
            lemma_mod_twice(si * eval(vi, pow(winv, k as nat)), p);
        }
        crate::poly::lemma_eval_mod(u, sd, x, x, p);
        let g = |k: int| dv[k] * pow(x, k as nat);
        assert forall|k: int| 0 <= k < n implies #[trigger] (sd[k] * pow(x, k as nat)) == si * g(k) by {
            let d = dv[k];
            let q = pow(x, k as nat);
            assert((si * d) * q == si * (d * q)) by (nonlinear_arith);
        }
        crate::sum::lemma_sum_ext(n as nat, |k: int| sd[k] * pow(x, k as nat), |k: int| si * g(k));
        crate::sum::lemma_sum_scale(n as nat, g, si);
        assert(eval(sd, x) == si * eval(dv, x));
        if b >= 1 {
            lemma_primitive_root_half(b);
            lemma_primitive_root_inv(b);
            crate::dft::lemma_inverse_half(w, winv, pow2((b - 1) as nat));
            lemma_mul_is_commutative(w, winv);
            crate::dft::lemma_dft_inverse(vi, b, winv, w, i);
            assert(eval(dv, x) % p == (n * vi[i]) % p);
        } else {
            lemma2_to64();
            assert(i == 0);
            lemma_pow0(w);
            lemma_pow0(winv);
            lemma_pow0(1);
            let f = |j: int| vi[j] * pow(1, j as nat);
            assert(dv[0] == eval(vi, 1));
            assert(eval(vi, 1) == sum(1, f));
            assert(sum(1, f) == sum(0, f) + f(0));
            let h = |j: int| dv[j] * pow(x, j as nat);
            assert(x == 1);
            assert(eval(dv, x) == sum(1, h));
            assert(sum(1, h) == sum(0, h) + h(0));
            assert(eval(dv, x) == vi[0]);
            assert(eval(dv, x) % p == (n * vi[i]) % p);
        }
        let e = eval(dv, x);
        assert(res[i] == eval(u, x) % p);
        assert(eval(u, x) % p == (si * e) % p);
        lemma_mul_mod_noop_right(si, e, p);
        lemma_mul_mod_noop_right(si, n * vi[i], p);
        assert((si * e) % p == (si * (n * vi[i])) % p);
        lemma_mul_is_associative(si, n, vi[i]);
        lemma_mul_mod_noop_left(si * n, vi[i], p);
        lemma_mul_is_commutative(si, n);
        assert((si * n) % p == 1);
        assert(((si * n) * vi[i]) % p == (1 * vi[i]) % p);
        lemma_small_mod(vi[i] as nat, modulus());
    }
    assert(res =~= vi);
}

/// The forward transform undoes the inverse transform: for canonical `v` of
/// length `2^b` with `b <= S`, transforming at the root the scaled transform
/// at the inverse root gives back `v`.
pub proof fn lemma_ntt_inverts_intt(v: Seq<Fe>, b: nat)
    requires
        all_wf(v),
        v.len() == pow2(b),
        b <= two_adicity(),
    ensures
        transform(
            scaled_transform(int_values(v), primitive_root_inv(b) as int, b),
            primitive_root(b) as int,
        ) == int_values(v),
{
    lemma_roundtrip_values_rev(int_values(v), b);
}

/// The forward transform undoes the inverse one: when both succeed in turn,
/// the entries come back to their values.
pub proof fn lemma_ntt_after_intt(v: Seq<Fe>, w: Seq<Fe>, u: Seq<Fe>)
    requires
        all_wf(v),
        ntt_outcome(v, w, true, Ok(())),
        ntt_outcome(w, u, false, Ok(())),
    ensures
        int_values(u) == int_values(v),
{
    let b = choose|b: nat| b <= two_adicity() && #[trigger] pow2(b) == v.len();
    assert(int_values(w) == scaled_transform(int_values(v), primitive_root_inv(b) as int, b));
    assert(w.len() == v.len());
    assert(int_values(u) == transform(int_values(w), primitive_root(b) as int));
    lemma_ntt_inverts_intt(v, b);
}

/// The inverse transform undoes the forward transform: for canonical `v`
/// of length `2^b` with `b <= S`, scaling the transform at the inverse root
/// of the transform at the root gives back `v`.
pub proof fn lemma_intt_inverts_ntt(v: Seq<Fe>, b: nat)
    requires
        all_wf(v),
        v.len() == pow2(b),
        b <= two_adicity(),
    ensures
        scaled_transform(
            transform(int_values(v), primitive_root(b) as int),
            primitive_root_inv(b) as int,
            b,
        ) == int_values(v),
{
    lemma_roundtrip_values(int_values(v), b);
}

/// The inverse transform undoes the forward one: when both succeed in turn,
/// the entries come back to their values.
pub proof fn lemma_intt_after_ntt(v: Seq<Fe>, w: Seq<Fe>, u: Seq<Fe>)
    requires
        all_wf(v),
        ntt_outcome(v, w, false, Ok(())),
        ntt_outcome(w, u, true, Ok(())),
    ensures
        int_values(u) == int_values(v),
{
    let b = choose|b: nat| b <= two_adicity() && #[trigger] pow2(b) == v.len();
    assert(int_values(w) == transform(int_values(v), primitive_root(b) as int));
    assert(w.len() == v.len());
    assert(int_values(u) == scaled_transform(int_values(w), primitive_root_inv(b) as int, b));
    lemma_intt_inverts_ntt(v, b);
}

/// The reductions modulo `q` of the entries of `c`.
pub open spec fn reduced(c: Seq<int>) -> Seq<int> {
    Seq::new(c.len(), |k: int| fmod(c[k]) as int)
}

/// `len` copies of zero.
fn zeros(len: usize) -> (r: Vec<Fe>)
    ensures
        r.len() == len,
        forall|k: int| 0 <= k < len ==> #[trigger] r@[k]@ == 0,
{
    let mut r: Vec<Fe> = Vec::new();
    let mut i: usize = 0;
    while i < len
        invariant
            i <= len,
            r.len() == i,
            forall|k: int| 0 <= k < i ==> #[trigger] r@[k]@ == 0,
        decreases len - i,
    {
        r.push(fe_zero());
        i = i + 1;
    }
    r
}

/// Schoolbook multiplication of the polynomials `a` and `b` (coefficients
/// in little-endian order).
pub fn poly_mul_naive(a: &[Fe], b: &[Fe]) -> (r: Vec<Fe>)
    requires
        all_wf(a@),
        all_wf(b@),
        a.len() + b.len() <= usize::MAX,
    ensures
        int_values(r@) == reduced(poly_mul(int_values(a@), int_values(b@))),
{
    let ghost va = int_values(a@);
    let ghost vb = int_values(b@);
    if a.len() == 0 || b.len() == 0 {
        let r: Vec<Fe> = Vec::new();
        proof {
            assert(int_values(r@) =~= reduced(poly_mul(va, vb)));
        }
        return r;
    }
    let la = a.len();
    let lb = b.len();
    let total = la + lb - 1;
    let mut out = zeros(total);
    let mut i: usize = 0;
    proof {
        assert forall|k: int| 0 <= k < total implies #[trigger] out@[k]@ == fmod(
            sum(0, |t: int| va[t] * coef(vb, k - t)),
        ) by {}
    }
    while i < la
        invariant
            la == a.len(),
            lb == b.len(),
            la >= 1,
            lb >= 1,
            total == la + lb - 1,
            va == int_values(a@),
            vb == int_values(b@),
            all_wf(a@),
            all_wf(b@),
            out.len() == total,
            i <= la,
            forall|k: int|
                0 <= k < total ==> #[trigger] out@[k]@ == fmod(
                    sum(i as nat, |t: int| va[t] * coef(vb, k - t)),
                ),
        decreases la - i,
    {
        let mut j: usize = 0;
        while j < lb
            invariant
                la == a.len(),
                lb == b.len(),
                total == la + lb - 1,
                va == int_values(a@),
                vb == int_values(b@),
                all_wf(a@),
                all_wf(b@),
                out.len() == total,
                i < la,
                j <= lb,
                forall|k: int|
                    0 <= k < total ==> #[trigger] out@[k]@ == fmod(
                        sum(i as nat, |t: int| va[t] * coef(vb, k - t)) + (if i <= k < i + j {
                            va[i as int] * vb[k - i]
                        } else {
                            0
                        }),
                    ),
            decreases lb - j,
        {
            let prod = fe_mul(&a[i], &b[j]);
            let cur = out[i + j];
            proof {
                let k = (i + j) as int;
                let s0 = sum(i as nat, |t: int| va[t] * coef(vb, k - t));
                lemma_add_mod_noop(s0, va[i as int] * vb[j as int], modulus() as int);
                lemma_mod_twice(s0, modulus() as int);
                lemma_mod_twice(va[i as int] * vb[j as int], modulus() as int);
            }
            out.set(i + j, fe_add(&cur, &prod));
            j = j + 1;
        }
        proof {
            assert forall|k: int| 0 <= k < total implies #[trigger] out@[k]@ == fmod(
                sum((i + 1) as nat, |t: int| va[t] * coef(vb, k - t)),
            ) by {}
        }
        i = i + 1;
    }
    proof {
        assert(int_values(out@) =~= reduced(poly_mul(va, vb)));
    }
    out
}

/// Expands `prod_i (x - roots[i])` one linear factor at a time.
pub fn poly_from_roots_naive_generic(roots: &[Fe]) -> (r: Vec<Fe>)
    requires
        all_wf(roots@),
        roots.len() < usize::MAX,
    ensures
        int_values(r@) == reduced(roots_poly(int_values(roots@))),
{
    let ghost vr = int_values(roots@);
    let mut poly: Vec<Fe> = Vec::new();
    poly.push(fe_one());
    let mut t: usize = 0;
    proof {
        assert(vr.subrange(0, 0) =~= Seq::<int>::empty());
        assert(int_values(poly@) =~= reduced(roots_poly(vr.subrange(0, 0))));
    }
    while t < roots.len()
        invariant
            vr == int_values(roots@),
            all_wf(roots@),
            roots.len() < usize::MAX,
            t <= roots.len(),
            poly.len() == t + 1,
            all_wf(poly@),
            int_values(poly@) == reduced(roots_poly(vr.subrange(0, t as int))),
        decreases roots.len() - t,
    {
        let r = roots[t];
        let ghost prev = roots_poly(vr.subrange(0, t as int));
        let len = poly.len();
        let mut next = zeros(len + 1);
        let mut i: usize = 0;
        proof {
            crate::poly::lemma_roots_poly_len(vr.subrange(0, t as int));
        }
        while i < len
            invariant
                len == poly.len(),
                prev.len() == len,
                all_wf(poly@),
                int_values(poly@) == reduced(prev),
                r.wf(),
                t < vr.len(),
                r@ == vr[t as int],
                next.len() == len + 1,
                i <= len,
                forall|k: int|
                    0 <= k <= len ==> #[trigger] next@[k]@ == fmod(
                        (if 1 <= k && k - 1 < i {
                            prev[k - 1]
                        } else {
                            0
                        }) - (if k < i {
                            vr[t as int] * prev[k]
                        } else {
                            0
                        }),
                    ),
            decreases len - i,
        {
            let c = poly[i];
            let cr = fe_mul(&c, &r);
            let cur = next[i];
            let ghost p = modulus() as int;
            proof {
                let u = if 1 <= i && i - 1 < i {
                    prev[i - 1]
                } else {
                    0
                };
                assert(int_values(poly@)[i as int] == reduced(prev)[i as int]);
                assert(c@ == fmod(prev[i as int]));
                lemma_mul_mod_noop(prev[i as int], vr[t as int], p);
                lemma_mod_twice(vr[t as int], p);
                lemma_small_mod(r@, modulus());
                lemma_sub_mod_noop(u, prev[i as int] * vr[t as int], p);
                lemma_mul_is_commutative(prev[i as int], vr[t as int]);
            }
            next.set(i, fe_sub(&cur, &cr));
            let cur2 = next[i + 1];
            proof {
                lemma_add_mod_noop(0, prev[i as int], p);
                lemma_mod_twice(prev[i as int], p);
            }
            next.set(i + 1, fe_add(&cur2, &c));
            i = i + 1;
        }
        proof {
            let sub1 = vr.subrange(0, t + 1);
            assert(sub1.drop_last() =~= vr.subrange(0, t as int));
            assert(int_values(next@) =~= reduced(roots_poly(sub1)));
        }
        poly = next;
        t = t + 1;
    }
    proof {
        assert(vr.subrange(0, roots.len() as int) =~= vr);
    }
    poly
}

/// A copy of a run of field elements.
fn copy_elements(v: &[Fe], len: usize) -> (r: Vec<Fe>)
    requires
        len <= v.len(),
    ensures
        r@ == v@.subrange(0, len as int),
{
    let mut r: Vec<Fe> = Vec::new();
    let mut i: usize = 0;
    while i < len
        invariant
            len <= v.len(),
            i <= len,
            r@ == v@.subrange(0, i as int),
        decreases len - i,
    {
        r.push(v[i]);
        proof {
            assert(r@ =~= v@.subrange(0, i + 1));
        }
        i = i + 1;
    }
    r
}

/// Resets `buf` to `n` zeros, reusing its allocation.
fn prepare_buffer(buf: &mut Vec<Fe>, n: usize)
    ensures
        final(buf).len() == n,
        forall|k: int| 0 <= k < n ==> #[trigger] final(buf)@[k]@ == 0,
{
    if buf.len() > n {
        buf.truncate(n);
    }
    let mut i: usize = 0;
    let len = buf.len();
    while i < len
        invariant
            len == buf.len(),
            len <= n,
            i <= len,
            forall|k: int| 0 <= k < i ==> #[trigger] buf@[k]@ == 0,
        decreases len - i,
    {
        buf.set(i, fe_zero());
        i = i + 1;
    }
    while buf.len() < n
        invariant
            buf.len() <= n,
            forall|k: int| 0 <= k < buf.len() ==> #[trigger] buf@[k]@ == 0,
        decreases n - buf.len(),
    {
        buf.push(fe_zero());
    }
}

/// The stage roots cached for transforms of size `2^k`.
pub open spec fn twiddles_ok(k: u32, t: (Vec<Fe>, Vec<Fe>)) -> bool {
    &&& k <= two_adicity()
    &&& t.0.len() == k
    &&& t.1.len() == k
    &&& forall|s: int|
        0 <= s < k ==> #[trigger] t.0@[s]@ == stage_root(primitive_root(k as nat) as int, k as nat, s as nat)
    &&& forall|s: int|
        0 <= s < k ==> #[trigger] t.1@[s]@ == stage_root(
            primitive_root_inv(k as nat) as int,
            k as nat,
            s as nat,
        )
}

/// Reusable workspace for repeated polynomial multiplications.
///
/// This reduces allocation churn by reusing temporary buffers and cached
/// stage twiddles across calls.
#[derive(Debug)]
pub struct PolyMulWorkspace {
    a_pad: Vec<Fe>,
    b_pad: Vec<Fe>,
    stage_twiddles: HashMap<u32, (Vec<Fe>, Vec<Fe>)>,
}

impl PolyMulWorkspace {
    /// Every cached entry holds the stage roots of its size.
    pub closed spec fn wf(&self) -> bool {
        forall|k: u32| #[trigger]
            self.stage_twiddles@.contains_key(k) ==> twiddles_ok(k, self.stage_twiddles@[k])
    }
}

impl Default for PolyMulWorkspace {
    fn default() -> (r: Self)
        ensures
            r.wf(),
    {
        PolyMulWorkspace { a_pad: Vec::new(), b_pad: Vec::new(), stage_twiddles: HashMap::new() }
    }
}

/// `v` padded with zeros to length `n`.
pub open spec fn zero_pad(v: Seq<int>, n: nat) -> Seq<int> {
    Seq::new(n, |i: int| if i < v.len() { v[i] } else { 0 })
}

/// The transform of the product is the pointwise product of the transforms.
proof fn lemma_product_point(va: Seq<int>, vb: Seq<int>, n: nat, x: int)
    requires
        va.len() >= 1,
        vb.len() >= 1,
        va.len() + vb.len() - 1 <= n,
    ensures
        fmod(fmod(eval(zero_pad(va, n), x)) as int * fmod(eval(zero_pad(vb, n), x))) == fmod(
            eval(zero_pad(reduced(poly_mul(va, vb)), n), x),
        ),
{
    let p = modulus() as int;
    let pm = poly_mul(va, vb);
    crate::poly::lemma_eval_zero_pad(va, zero_pad(va, n), x);
    crate::poly::lemma_eval_zero_pad(vb, zero_pad(vb, n), x);
    crate::poly::lemma_eval_zero_pad(reduced(pm), zero_pad(reduced(pm), n), x);
    crate::poly::lemma_eval_poly_mul(va, vb, x);
    assert forall|j: int| 0 <= j < pm.len() implies #[trigger] reduced(pm)[j] % p == pm[j] % p by {
        lemma_mod_twice(pm[j], p);
    }
    crate::poly::lemma_eval_mod(reduced(pm), pm, x, x, p);
    crate::dft::lemma_mul_fmod(eval(va, x), eval(vb, x));
}

/// The outcome of a transform-based product of `a` and `b`: success
/// exactly when a factor is empty or the product fits a supported size, and
/// then the product reduced modulo `q`.
pub open spec fn ntt_product_outcome(a: Seq<Fe>, b: Seq<Fe>, r: Result<Vec<Fe>, NttError>) -> bool {
    &&& (r is Ok <==> (a.len() == 0 || b.len() == 0 || a.len() + b.len() - 1 <= pow2(two_adicity())))
    &&& (r is Err ==> r == Err::<Vec<Fe>, NttError>(NttError::UnsupportedLength))
    &&& (r matches Ok(c) ==> int_values(c@) == reduced(poly_mul(int_values(a), int_values(b))))
}

/// The outcome of an adaptive product of `a` and `b`: success exactly when a
/// factor is short enough for the schoolbook method or the product fits a
/// supported size, and then the product reduced modulo `q`.
pub open spec fn adaptive_product_outcome(a: Seq<Fe>, b: Seq<Fe>, r: Result<Vec<Fe>, NttError>) -> bool {
    &&& (r is Ok <==> (a.len() <= POLY_MUL_NAIVE_THRESHOLD || b.len() <= POLY_MUL_NAIVE_THRESHOLD
        || a.len() + b.len() - 1 <= pow2(two_adicity())))
    &&& (r is Err ==> r == Err::<Vec<Fe>, NttError>(NttError::UnsupportedLength))
    &&& (r matches Ok(c) ==> int_values(c@) == reduced(poly_mul(int_values(a), int_values(b))))
}

/// The outcome of a transform-based root product: success exactly when the
/// result fits a supported size, and then the root product reduced modulo `q`.
pub open spec fn ntt_roots_outcome(roots: Seq<Fe>, r: Result<Vec<Fe>, NttError>) -> bool {
    &&& (r is Ok <==> roots.len() + 1 <= pow2(two_adicity()))
    &&& (r is Err ==> r == Err::<Vec<Fe>, NttError>(NttError::UnsupportedLength))
    &&& (r matches Ok(c) ==> int_values(c@) == reduced(roots_poly(int_values(roots))))
}

/// The outcome of an adaptive root product: success exactly when the result
/// fits a supported size, and then the root product reduced modulo `q`.
pub open spec fn adaptive_roots_outcome(roots: Seq<Fe>, r: Result<Vec<Fe>, NttError>) -> bool {
    &&& (r is Ok <==> roots.len() + 1 <= pow2(two_adicity()))
    &&& (r is Err ==> r == Err::<Vec<Fe>, NttError>(NttError::UnsupportedLength))
    &&& (r matches Ok(c) ==> int_values(c@) == reduced(roots_poly(int_values(roots))))
}

/// The adaptive product succeeds whenever the transform-based one does, with
/// the same values.
pub proof fn lemma_adaptive_product_agrees(
    a: Seq<Fe>,
    b: Seq<Fe>,
    r1: Result<Vec<Fe>, NttError>,
    r2: Result<Vec<Fe>, NttError>,
)
    requires
        ntt_product_outcome(a, b, r1),
        adaptive_product_outcome(a, b, r2),
    ensures
        r1 is Ok ==> r2 is Ok && int_values(r1->Ok_0@) == int_values(r2->Ok_0@),
{
}

/// The adaptive root product succeeds exactly when the transform-based one
/// does, with the same values.
pub proof fn lemma_adaptive_roots_agree(
    roots: Seq<Fe>,
    r1: Result<Vec<Fe>, NttError>,
    r2: Result<Vec<Fe>, NttError>,
)
    requires
        ntt_roots_outcome(roots, r1),
        adaptive_roots_outcome(roots, r2),
    ensures
        r1 is Ok <==> r2 is Ok,
        r1 is Ok ==> int_values(r1->Ok_0@) == int_values(r2->Ok_0@),
{
}

/// Multiplies two dense polynomials using radix-2 NTT and a reusable workspace.
pub fn poly_mul_ntt_with_workspace(
    a: &[Fe],
    b: &[Fe],
    workspace: &mut PolyMulWorkspace,
) -> (r: Result<Vec<Fe>, NttError>)
    requires
        all_wf(a@),
        all_wf(b@),
        old(workspace).wf(),
        a.len() + b.len() <= usize::MAX / 2,
    ensures
        final(workspace).wf(),
        a.len() == 0 || b.len() == 0 || r is Err ==> *final(workspace) == *old(workspace),
        ntt_product_outcome(a@, b@, r),
{
    broadcast use vstd::std_specs::hash::group_hash_axioms;

    let ghost va = int_values(a@);
    let ghost vb = int_values(b@);
    if a.len() == 0 || b.len() == 0 {
        let r: Vec<Fe> = Vec::new();
        proof {
            assert(int_values(r@) =~= reduced(poly_mul(va, vb)));
        }
        return Ok(r);
    }
    let out_len = a.len() + b.len() - 1;
    let s = fe_two_adicity();
    let ghost w0 = *workspace;
    let mut n: usize = 1;
    let mut log_n: u32 = 0;
    proof {
        lemma2_to64();
    }
    while n < out_len
        invariant
            n == pow2(log_n as nat),
            log_n <= s,
            s == two_adicity(),
            out_len <= usize::MAX / 2,
            out_len == a.len() + b.len() - 1,
            a.len() > 0,
            b.len() > 0,
            n >= 1,
            workspace.wf(),
            *workspace == w0,
            log_n == 0 || pow2((log_n - 1) as nat) < out_len,
        decreases s - log_n,
    {
        if log_n == s {
            proof {
                assert(out_len > pow2(two_adicity()));
            }
            return Err(NttError::UnsupportedLength);
        }
        proof {
            lemma_pow2_unfold((log_n + 1) as nat);
            lemma_pow2_pos(log_n as nat);
        }
        n = n * 2;
        log_n = log_n + 1;
    }
    let ghost bb = log_n as nat;
    proof {
        if log_n >= 1 {
            lemma_pow2_unfold(bb);
        }
        // The size found is within the supported range exactly when out_len is.
        assert(out_len <= pow2(two_adicity())) by {
            lemma_pow2_le(bb, two_adicity());
        }
    }
    prepare_buffer(&mut workspace.a_pad, n);
    prepare_buffer(&mut workspace.b_pad, n);
    let mut i: usize = 0;
    while i < a.len()
        invariant
            workspace.a_pad.len() == n,
            workspace.b_pad.len() == n,
            forall|k: int| 0 <= k < n ==> #[trigger] workspace.b_pad@[k]@ == 0,
            workspace.wf(),
            a.len() <= out_len <= n,
            all_wf(a@),
            va == int_values(a@),
            i <= a.len(),
            forall|k: int|
                0 <= k < n ==> #[trigger] workspace.a_pad@[k]@ == (if k < i {
                    va[k]
                } else {
                    0
                }),
        decreases a.len() - i,
    {
        workspace.a_pad.set(i, a[i]);
        i = i + 1;
    }
    let mut i: usize = 0;
    while i < b.len()
        invariant
            workspace.b_pad.len() == n,
            workspace.a_pad.len() == n,
            workspace.wf(),
            va == int_values(a@),
            forall|k: int|
                0 <= k < n ==> #[trigger] workspace.a_pad@[k]@ == (if k < a.len() {
                    va[k]
                } else {
                    0
                }),
            b.len() <= out_len <= n,
            all_wf(b@),
            vb == int_values(b@),
            i <= b.len(),
            forall|k: int|
                0 <= k < n ==> #[trigger] workspace.b_pad@[k]@ == (if k < i {
                    vb[k]
                } else {
                    0
                }),
        decreases b.len() - i,
    {
        workspace.b_pad.set(i, b[i]);
        i = i + 1;
    }
    let ghost pa = workspace.a_pad@;
    let ghost pb = workspace.b_pad@;
    proof {
        assert(int_values(pa) =~= zero_pad(va, n as nat));
        assert(int_values(pb) =~= zero_pad(vb, n as nat));
        assert(all_wf(pa));
        assert(all_wf(pb));
    }
    let (stage_fwd, stage_inv) = match workspace.stage_twiddles.get(&log_n) {
        Some(t) => (copy_elements(t.0.as_slice(), t.0.len()), copy_elements(t.1.as_slice(), t.1.len())),
        None => {
            let t = precompute_stage_twiddles(n, Ghost(bb));
            let kept = (copy_elements(t.0.as_slice(), t.0.len()), copy_elements(t.1.as_slice(), t.1.len()));
            proof {
                assert(kept.0@ =~= t.0@);
                assert(kept.1@ =~= t.1@);
                assert(twiddles_ok(log_n, kept));
            }
            workspace.stage_twiddles.insert(log_n, kept);
            t
        },
    };
    proof {
        assert(stage_fwd@ =~= stage_fwd@.subrange(0, stage_fwd.len() as int));
        if bb >= 1 {
            lemma_primitive_root_half(bb);
            lemma_primitive_root_inv(bb);
            crate::dft::lemma_inverse_half(
                primitive_root(bb) as int,
                primitive_root_inv(bb) as int,
                pow2((bb - 1) as nat),
            );
        }
    }
    let ghost w = primitive_root(bb) as int;
    let ghost winv = primitive_root_inv(bb) as int;
    let _ = ntt_in_place_with_twiddles(
        workspace.a_pad.as_mut_slice(),
        stage_fwd.as_slice(),
        false,
        Ghost(bb),
        Ghost(w),
    );
    let _ = ntt_in_place_with_twiddles(
        workspace.b_pad.as_mut_slice(),
        stage_fwd.as_slice(),
        false,
        Ghost(bb),
        Ghost(w),
    );
    let ghost ta = workspace.a_pad@;
    let ghost tb = workspace.b_pad@;
    proof {
        assert(int_values(ta).len() == n);
        assert(int_values(tb).len() == n);
    }
    let ghost cpad = zero_pad(reduced(poly_mul(va, vb)), n as nat);
    let mut i: usize = 0;
    while i < n
        invariant
            workspace.a_pad.len() == n,
            workspace.wf(),
            workspace.b_pad@ == tb,
            cpad.len() == n,
            cpad == zero_pad(reduced(poly_mul(va, vb)), n as nat),
            tb.len() == n,
            ta.len() == n,
            i <= n,
            int_values(ta) == transform(zero_pad(va, n as nat), w),
            int_values(tb) == transform(zero_pad(vb, n as nat), w),
            va.len() >= 1,
            vb.len() >= 1,
            va.len() + vb.len() - 1 <= n,
            forall|k: int|
                0 <= k < n ==> #[trigger] workspace.a_pad@[k]@ == (if k < i {
                    transform(cpad, w)[k]
                } else {
                    ta[k]@ as int
                }),
        decreases n - i,
    {
        let x = workspace.a_pad[i];
        let y = workspace.b_pad[i];
        proof {
            assert(int_values(ta)[i as int] == transform(zero_pad(va, n as nat), w)[i as int]);
            assert(int_values(tb)[i as int] == transform(zero_pad(vb, n as nat), w)[i as int]);
            lemma_product_point(va, vb, n as nat, pow(w, i as nat));
        }
        workspace.a_pad.set(i, fe_mul(&x, &y));
        i = i + 1;
    }
    let ghost prod = workspace.a_pad@;
    proof {
        assert(int_values(prod) =~= transform(cpad, w));
    }
    let _ = ntt_in_place_with_twiddles(
        workspace.a_pad.as_mut_slice(),
        stage_inv.as_slice(),
        true,
        Ghost(bb),
        Ghost(winv),
    );
    proof {
        assert forall|k: int| 0 <= k < cpad.len() implies 0 <= #[trigger] cpad[k] < modulus() by {}
        lemma_roundtrip_values(cpad, bb);
    }
    let r = copy_elements(workspace.a_pad.as_slice(), out_len);
    proof {
        let fin = workspace.a_pad@;
        assert(int_values(fin) == scaled_transform(int_values(prod), winv, bb));
        assert(int_values(fin) == cpad);
        let pm = poly_mul(va, vb);
        assert(pm.len() == out_len);
        assert forall|k: int| 0 <= k < out_len implies #[trigger] int_values(r@)[k] == reduced(pm)[k] by {
            assert(int_values(fin)[k] == cpad[k]);
        }
        assert(int_values(r@) =~= reduced(poly_mul(va, vb)));
    }
    Ok(r)
}

/// Multiplies two dense polynomials using radix-2 NTT.
///
/// Inputs are coefficient vectors in little-endian order:
/// `a(x) = a[0] + a[1]x + ...`, `b(x) = b[0] + b[1]x + ...`.
///
/// Returns the coefficient vector of `c(x) = a(x) * b(x)` in the same order.
pub fn poly_mul_ntt(a: &[Fe], b: &[Fe]) -> (r: Result<Vec<Fe>, NttError>)
    requires
        all_wf(a@),
        all_wf(b@),
        a.len() + b.len() <= usize::MAX / 2,
    ensures
        ntt_product_outcome(a@, b@, r),
{
    let mut workspace = PolyMulWorkspace::default();
    poly_mul_ntt_with_workspace(a, b, &mut workspace)
}

/// Adaptive multiplication using reusable workspace.
pub fn poly_mul_adaptive_with_workspace(
    a: &[Fe],
    b: &[Fe],
    workspace: &mut PolyMulWorkspace,
) -> (r: Result<Vec<Fe>, NttError>)
    requires
        all_wf(a@),
        all_wf(b@),
        old(workspace).wf(),
        a.len() + b.len() <= usize::MAX / 2,
    ensures
        final(workspace).wf(),
        a.len() <= POLY_MUL_NAIVE_THRESHOLD || b.len() <= POLY_MUL_NAIVE_THRESHOLD || r is Err
            ==> *final(workspace) == *old(workspace),
        adaptive_product_outcome(a@, b@, r),
{
    let min_len = if a.len() < b.len() {
        a.len()
    } else {
        b.len()
    };
    if min_len <= POLY_MUL_NAIVE_THRESHOLD {
        Ok(poly_mul_naive(a, b))
    } else {
        poly_mul_ntt_with_workspace(a, b, workspace)
    }
}

/// Multiplies two dense polynomials with an adaptive strategy.
///
/// This uses schoolbook multiplication for small inputs and falls back to
/// [`poly_mul_ntt`] for larger inputs.
pub fn poly_mul_adaptive(a: &[Fe], b: &[Fe]) -> (r: Result<Vec<Fe>, NttError>)
    requires
        all_wf(a@),
        all_wf(b@),
        a.len() + b.len() <= usize::MAX / 2,
    ensures
        adaptive_product_outcome(a@, b@, r),
{
    let mut workspace = PolyMulWorkspace::default();
    poly_mul_adaptive_with_workspace(a, b, &mut workspace)
}

/// One merge of the product tree, by the requested multiplication routine.
fn mul_step(
    a: &[Fe],
    b: &[Fe],
    workspace: &mut PolyMulWorkspace,
    adaptive: bool,
    reuse: bool,
) -> (r: Result<Vec<Fe>, NttError>)
    requires
        all_wf(a@),
        all_wf(b@),
        old(workspace).wf(),
        a.len() + b.len() <= usize::MAX / 2,
    ensures
        final(workspace).wf(),
        a.len() + b.len() - 1 <= pow2(two_adicity()) ==> r is Ok,
        !adaptive && a.len() > 0 && b.len() > 0 && a.len() + b.len() - 1 > pow2(two_adicity())
            ==> r is Err,
        r is Err ==> r == Err::<Vec<Fe>, NttError>(NttError::UnsupportedLength),
        r matches Ok(c) ==> int_values(c@) == reduced(poly_mul(int_values(a@), int_values(b@))),
{
    if adaptive {
        if reuse {
            poly_mul_adaptive_with_workspace(a, b, workspace)
        } else {
            poly_mul_adaptive(a, b)
        }
    } else {
        if reuse {
            poly_mul_ntt_with_workspace(a, b, workspace)
        } else {
            poly_mul_ntt(a, b)
        }
    }
}

/// Reducing the factors of a product before multiplying does not change
/// the reduced product.
proof fn lemma_reduced_poly_mul(x: Seq<int>, y: Seq<int>)
    ensures
        reduced(poly_mul(reduced(x), reduced(y))) == reduced(poly_mul(x, y)),
{
    let p = modulus() as int;
    let lhs = reduced(poly_mul(reduced(x), reduced(y)));
    let rhs = reduced(poly_mul(x, y));
    assert forall|k: int| 0 <= k < lhs.len() implies lhs[k] == rhs[k] by {
        assert forall|j: int| 0 <= j < x.len() implies #[trigger] reduced(x)[j] % p == x[j] % p by {
            lemma_mod_twice(x[j], p);
        }
        assert forall|j: int| 0 <= j < y.len() implies #[trigger] reduced(y)[j] % p == y[j] % p by {
            lemma_mod_twice(y[j], p);
        }
        crate::poly::lemma_conv_mod(reduced(x), reduced(y), x, y, k, p);
    }
    assert(lhs =~= rhs);
}

/// The linear factor `x - r`, as `[-r, 1]`.
fn linear_factor(r: &Fe) -> (f: Vec<Fe>)
    requires
        r.wf(),
    ensures
        int_values(f@) == reduced(roots_poly(seq![r@ as int])),
{
    let mut f: Vec<Fe> = Vec::new();
    f.push(crate::field::fe_neg(r));
    f.push(fe_one());
    proof {
        let one = seq![r@ as int];
        assert(one.drop_last() =~= Seq::<int>::empty());
        assert(one.last() == r@ as int);
        assert(roots_poly(one.drop_last()) == seq![1int]);
        let lin = roots_poly(one);
        assert(lin == crate::poly::mul_linear(seq![1int], r@ as int));
        assert(lin[0] == 0 - r@ * 1);
        assert(lin[1] == 1 - r@ * 0);
        lemma_small_mod(1, modulus());
        assert(int_values(f@) =~= reduced(lin));
    }
    f
}

/// Builds `prod_i (x - roots[i])` with a product tree, merging neighbouring
/// partial products level by level.
fn poly_from_roots_tree(
    roots: &[Fe],
    workspace: &mut PolyMulWorkspace,
    adaptive: bool,
    reuse: bool,
) -> (r: Result<Vec<Fe>, NttError>)
    requires
        all_wf(roots@),
        old(workspace).wf(),
        roots.len() + 2 <= usize::MAX / 2,
    ensures
        final(workspace).wf(),
        r is Ok <==> roots.len() + 1 <= pow2(two_adicity()),
        r is Err ==> r == Err::<Vec<Fe>, NttError>(NttError::UnsupportedLength),
        r matches Ok(c) ==> int_values(c@) == reduced(roots_poly(int_values(roots@))),
{
    let ghost vr = int_values(roots@);
    let len = roots.len();
    proof {
        lemma2_to64();
        lemma_pow2_pos(two_adicity());
        crate::field::lemma_two_adicity_value();
    }
    if len == 0 {
        let mut one: Vec<Fe> = Vec::new();
        one.push(fe_one());
        proof {
            lemma_small_mod(1, modulus());
            assert(int_values(one@) =~= reduced(roots_poly(vr)));
        }
        return Ok(one);
    }
    // The product tree merges two halves of 2^31 roots, whose product
    // exceeds the supported size, as soon as there are 2^32 roots.
    if adaptive && len as u64 >= 0x1_0000_0000u64 {
        return Err(NttError::UnsupportedLength);
    }
    let mut level: Vec<Vec<Fe>> = Vec::new();
    let mut i: usize = 0;
    while i < len
        invariant
            len == roots.len(),
            vr == int_values(roots@),
            all_wf(roots@),
            i <= len,
            level.len() == i,
            forall|k: int|
                0 <= k < i ==> all_wf(#[trigger] level@[k]@) && int_values(level@[k]@) == reduced(
                    roots_poly(vr.subrange(k, k + 1)),
                ),
        decreases len - i,
    {
        let f = linear_factor(&roots[i]);
        proof {
            assert(vr.subrange(i as int, i + 1) =~= seq![roots@[i as int]@ as int]);
            lemma_reduced_wf(f@, roots_poly(vr.subrange(i as int, i + 1)));
        }
        level.push(f);
        i = i + 1;
    }
    let ghost mut cuts: Seq<int> = Seq::new((len + 1) as nat, |k: int| k);
    while level.len() > 1
        invariant
            len == roots.len(),
            len >= 1,
            len + 2 <= usize::MAX / 2,
            vr == int_values(roots@),
            workspace.wf(),
            level.len() >= 1,
            cuts.len() == level.len() + 1,
            cuts[0] == 0,
            cuts[level.len() as int] == len,
            forall|k: int| 0 <= k < level.len() ==> #[trigger] cuts[k] < cuts[k + 1],
            forall|k: int|
                0 <= k < level.len() ==> all_wf(#[trigger] level@[k]@) && int_values(level@[k]@)
                    == reduced(roots_poly(vr.subrange(cuts[k], cuts[k + 1]))),
            level.len() <= len,
            level.len() == 1 ==> (adaptive || len + 1 <= pow2(two_adicity())),
        decreases level.len(),
    {
        let mut next: Vec<Vec<Fe>> = Vec::new();
        let ghost mut ncuts: Seq<int> = seq![0int];
        let mut j: usize = 0;
        let lcount = level.len();
        while j < lcount
            invariant
                lcount == level.len(),
                lcount >= 2,
                len == roots.len(),
                len + 2 <= usize::MAX / 2,
                vr == int_values(roots@),
                workspace.wf(),
                cuts.len() == lcount + 1,
                cuts[0] == 0,
                cuts[lcount as int] == len,
                forall|k: int| 0 <= k < lcount ==> #[trigger] cuts[k] < cuts[k + 1],
                forall|k: int|
                    0 <= k < lcount ==> all_wf(#[trigger] level@[k]@) && int_values(level@[k]@)
                        == reduced(roots_poly(vr.subrange(cuts[k], cuts[k + 1]))),
                j % 2 == 0,
                j <= lcount + 1,
                next.len() == j / 2,
                ncuts.len() == next.len() + 1,
                forall|k: int| 0 <= k <= next.len() ==> #[trigger] ncuts[k] == cuts[
                    if 2 * k <= lcount { 2 * k } else { lcount as int }],
                forall|k: int|
                    0 <= k < next.len() ==> all_wf(#[trigger] next@[k]@) && int_values(next@[k]@)
                        == reduced(roots_poly(vr.subrange(ncuts[k], ncuts[k + 1]))),
                lcount <= len,
                (lcount == 2 && j >= 2) ==> (adaptive || len + 1 <= pow2(two_adicity())),
            decreases lcount + 1 - j,
        {
            if j + 1 < lcount {
                let ghost c0 = cuts[j as int];
                let ghost c1 = cuts[j + 1];
                let ghost c2 = cuts[j + 2];
                proof {
                    crate::poly::lemma_roots_poly_len(vr.subrange(c0, c1));
                    crate::poly::lemma_roots_poly_len(vr.subrange(c1, c2));
                    assert(cuts[j + 1] < cuts[j + 2]);
                    assert(c2 <= len) by {
                        lemma_cuts_bounded(cuts, lcount as int, (j + 2) as int);
                    }
                    if j > 0 {
                        lemma_cuts_increasing(cuts, lcount as int, 0, j as int);
                    }
                    assert(int_values(level@[j as int]@).len() == level@[j as int]@.len());
                    assert(int_values(level@[j + 1]@).len() == level@[j + 1]@.len());
                    assert(level@[j as int]@.len() == c1 - c0 + 1);
                    assert(level@[j + 1]@.len() == c2 - c1 + 1);
                }
                let prod = mul_step(
                    level[j].as_slice(),
                    level[j + 1].as_slice(),
                    workspace,
                    adaptive,
                    reuse,
                );
                let prod = match prod {
                    Ok(c) => c,
                    Err(e) => {
                        return Err(e);
                    },
                };
                proof {
                    if lcount == 2 {
                        assert(j == 0);
                        assert(c0 == 0 && c2 == len);
                    }
                    let x = roots_poly(vr.subrange(c0, c1));
                    let y = roots_poly(vr.subrange(c1, c2));
                    lemma_reduced_poly_mul(x, y);
                    crate::poly::lemma_roots_poly_concat(vr.subrange(c0, c1), vr.subrange(c1, c2));
                    assert(vr.subrange(c0, c1) + vr.subrange(c1, c2) =~= vr.subrange(c0, c2));
                    lemma_reduced_wf(prod@, roots_poly(vr.subrange(c0, c2)));
                }
                next.push(prod);
                proof {
                    ncuts = ncuts.push(c2);
                }
            } else {
                let single = copy_elements(level[j].as_slice(), level[j].len());
                proof {
                    assert(single@ =~= level@[j as int]@);
                }
                next.push(single);
                proof {
                    ncuts = ncuts.push(cuts[j + 1]);
                }
            }
            j = j + 2;
        }
        proof {
            assert forall|k: int| 0 <= k < next.len() implies #[trigger] ncuts[k] < ncuts[k + 1] by {
                lemma_cuts_increasing(cuts, lcount as int, 2 * k, if 2 * k + 2 <= lcount {
                    2 * k + 2
                } else {
                    lcount as int
                });
            }
        }
        proof {
            if lcount > 2 {
                assert(next.len() >= 2);
            }
        }
        level = next;
        proof {
            cuts = ncuts;
        }
    }
    let result = copy_elements(level[0].as_slice(), level[0].len());
    proof {
        assert(vr.subrange(0, len as int) =~= vr);
        assert(result@ =~= level@[0]@);
    }
    Ok(result)
}

proof fn lemma_cuts_increasing(cuts: Seq<int>, count: int, a: int, b: int)
    requires
        cuts.len() == count + 1,
        forall|k: int| 0 <= k < count ==> #[trigger] cuts[k] < cuts[k + 1],
        0 <= a < b <= count,
    ensures
        cuts[a] < cuts[b],
    decreases b - a,
{
    if b > a + 1 {
        lemma_cuts_increasing(cuts, count, a, b - 1);
        assert(cuts[b - 1] < cuts[b]);
    }
}

proof fn lemma_cuts_bounded(cuts: Seq<int>, count: int, a: int)
    requires
        cuts.len() == count + 1,
        forall|k: int| 0 <= k < count ==> #[trigger] cuts[k] < cuts[k + 1],
        0 <= a <= count,
    ensures
        cuts[a] <= cuts[count],
{
    if a < count {
        lemma_cuts_increasing(cuts, count, a, count);
    }
}

/// Elements holding reduced values are canonical.
proof fn lemma_reduced_wf(s: Seq<Fe>, c: Seq<int>)
    requires
        int_values(s) == reduced(c),
    ensures
        all_wf(s),
{
    assert forall|k: int| 0 <= k < s.len() implies #[trigger] s[k].wf() by {
        assert(int_values(s).len() == s.len());
        assert(reduced(c).len() == c.len());
        assert(int_values(s)[k] == s[k]@);
        assert(reduced(c)[k] == fmod(c[k]));
        lemma_mod_bound(c[k], modulus() as int);
    }
}

/// Builds the monic polynomial whose roots are `roots`:
/// `v(x) = \prod_i (x - roots[i])`.
///
/// Returns coefficients in little-endian order.
pub fn poly_from_roots_ntt(roots: &[Fe]) -> (r: Result<Vec<Fe>, NttError>)
    requires
        all_wf(roots@),
        roots.len() + 2 <= usize::MAX / 2,
    ensures
        ntt_roots_outcome(roots@, r),
{
    let mut workspace = PolyMulWorkspace::default();
    poly_from_roots_tree(roots, &mut workspace, false, false)
}

/// Builds `v(x) = \prod_i (x - roots[i])` with NTT multiplications and workspace reuse.
pub fn poly_from_roots_ntt_with_workspace(
    roots: &[Fe],
    workspace: &mut PolyMulWorkspace,
) -> (r: Result<Vec<Fe>, NttError>)
    requires
        all_wf(roots@),
        old(workspace).wf(),
        roots.len() + 2 <= usize::MAX / 2,
    ensures
        final(workspace).wf(),
        ntt_roots_outcome(roots@, r),
{
    poly_from_roots_tree(roots, workspace, false, true)
}

/// Builds the monic polynomial `v(x) = \prod_i (x - roots[i])` adaptively.
///
/// This keeps the same product-tree structure but uses [`poly_mul_adaptive`]
/// for each merge step, which is typically faster for small/medium inputs.
pub fn poly_from_roots_adaptive(roots: &[Fe]) -> (r: Result<Vec<Fe>, NttError>)
    requires
        all_wf(roots@),
        roots.len() + 2 <= usize::MAX / 2,
    ensures
        adaptive_roots_outcome(roots@, r),
{
    let mut workspace = PolyMulWorkspace::default();
    poly_from_roots_tree(roots, &mut workspace, true, false)
}

/// Builds `v(x) = \prod_i (x - roots[i])` adaptively with workspace reuse.
pub fn poly_from_roots_adaptive_with_workspace(
    roots: &[Fe],
    workspace: &mut PolyMulWorkspace,
) -> (r: Result<Vec<Fe>, NttError>)
    requires
        all_wf(roots@),
        old(workspace).wf(),
        roots.len() + 2 <= usize::MAX / 2,
    ensures
        final(workspace).wf(),
        adaptive_roots_outcome(roots@, r),
{
    poly_from_roots_tree(roots, workspace, true, true)
}

/// Final optimized API for `v(x)=\prod_i (x-roots[i])`.
///
/// It combines:
/// - small-size direct expansion,
/// - product tree for larger inputs,
/// - adaptive multiplication with reusable workspace.
pub fn poly_from_roots_optimized(roots: &[Fe]) -> (r: Result<Vec<Fe>, NttError>)
    requires
        all_wf(roots@),
        roots.len() + 2 <= usize::MAX / 2,
    ensures
        adaptive_roots_outcome(roots@, r),
{
    if roots.len() <= ROOTS_NAIVE_THRESHOLD {
        proof {
            lemma2_to64();
            crate::field::lemma_two_adicity_value();
        }
        return Ok(poly_from_roots_naive_generic(roots));
    }
    poly_from_roots_adaptive(roots)
}


/// The polynomial the root-product builders return vanishes in the field at
/// each of the roots it was built from.
pub proof fn lemma_reduced_roots_poly_vanishes(roots: Seq<int>, i: int)
    requires
        0 <= i < roots.len(),
    ensures
        fmod(eval(reduced(roots_poly(roots)), roots[i])) == 0,
{
    let c = roots_poly(roots);
    let p = modulus() as int;
    let x = roots[i];
    lemma_roots_poly_vanishes(roots, i);
    assert forall|j: int| 0 <= j < c.len() implies #[trigger] reduced(c)[j] % p == c[j] % p by {
        lemma_mod_twice(c[j], p);
    }
    lemma_eval_mod(reduced(c), c, x, x, p);
}


/// The bit-reversal permutation undoes itself: permuting twice restores
/// every entry.
pub proof fn lemma_bit_reverse_permute_involution(v: Seq<Fe>, w: Seq<Fe>, u: Seq<Fe>)
    requires
        bit_reverse_permuted(v, w),
        bit_reverse_permuted(w, u),
    ensures
        u == v,
{
    let t = trailing_zero_count(v.len() as nat);
    assert(trailing_zero_count(w.len() as nat) == t);
    if v.len() > 0 {
        lemma_trailing_zero_count(v.len() as nat);
    }
    assert forall|k: int| 0 <= k < v.len() implies u[k] == v[k] by {
        assert(u[k] == (if k < pow2(t) {
            w[bit_rev(k as nat, t) as int]
        } else {
            w[k]
        }));
        if k < pow2(t) {
            let j = bit_rev(k as nat, t);
            lemma_bit_rev_bound(k as nat, t);
            lemma_bit_rev_involution(k as nat, t);
            assert(w[j as int] == v[bit_rev(j, t) as int]);
        }
    }
    assert(u =~= v);
}

} // verus!
