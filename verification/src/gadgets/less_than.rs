//! Less-than gadgets specialized for constant bounds.
//!
//! The gadget is built as an `LtCircuit`: the values a prover assigns to the
//! new variables and the rank-1 constraints over them. Variable `0` is the
//! constant one, variable `1` the compared value `x`, and variable `2 + j`
//! the `j`-th allocated auxiliary variable.
use crate::field::{bytes_value, fe_double, fe_eq, fe_mul, fe_one, fe_sub, fe_zero, fmod, modulus, Fe};
use crate::gadgets::r1cs::{
    admissible, all_hold, constraints_in_range, holds, is_one_minus_lc, is_var_lc, lc_in_range,
    lc_one_minus, lc_var, lc_zero, lemma_all_hold_push, lemma_holds_iff,
    lemma_in_range_push, lemma_one_minus_lc, lemma_one_minus_lc_in_range, lemma_var_lc,
    lemma_var_lc_in_range, no_zero_divisors, Constraint, Term,
};
use crate::sum::{lemma_sum_mod, sum};
use num_bigint::BigUint;
use vstd::arithmetic::div_mod::*;
use vstd::arithmetic::mul::*;
use vstd::arithmetic::power2::*;
use vstd::prelude::*;

verus! {

/// The number of bits needed to write `v` in binary (zero for zero).
pub open spec fn bit_length(v: nat) -> nat
    decreases v,
{
    if v == 0 {
        0
    } else {
        1 + bit_length(v / 2)
    }
}

/// Bit `i` of `v`, as `0` or `1`.
pub open spec fn bit(v: nat, i: nat) -> nat {
    (v / pow2(i)) % 2
}

/// The value of auxiliary variable `j` in an assignment.
pub open spec fn zbit(z: Seq<int>, j: int) -> int {
    z[2 + j]
}

/// The number whose binary digits, from position `i` to `k - 1`, are the
/// auxiliary variables `i` to `k - 1` of `z`.
pub open spec fn high_part(z: Seq<int>, i: nat, k: nat) -> int
    decreases k - i,
{
    if i >= k {
        0
    } else {
        2 * high_part(z, i + 1, k) + zbit(z, i as int)
    }
}

/// The number of set bits of `v` at positions `i` to `k - 1`.
pub open spec fn ones_from(v: nat, i: nat, k: nat) -> nat
    decreases k - i,
{
    if i >= k {
        0
    } else {
        bit(v, i) + ones_from(v, i + 1, k)
    }
}

/// The auxiliary variables `0` to `k - 1` of `z` are each `0` or `1`.
pub open spec fn bits_boolean(z: Seq<int>, k: nat) -> bool {
    forall|j: int| 0 <= j < k ==> #[trigger] zbit(z, j) == 0 || zbit(z, j) == 1
}

/// On `z`, the flag variables `e` and `l` tell whether the digits of `z` from
/// position `i` up equal, or are below, those of `qv`.
pub open spec fn flags_correct(z: Seq<int>, k: nat, qv: nat, i: nat, e: int, l: int) -> bool {
    &&& z[e] == (if high_part(z, i, k) == qv / pow2(i) { 1int } else { 0int })
    &&& z[l] == (if high_part(z, i, k) < qv / pow2(i) { 1int } else { 0int })
}

/// The values an honest prover assigns while comparing bits `i - 1` down to `0`
/// of `xv` with those of `qv`, starting from the flags `eq` and `lt`.
pub open spec fn lt_steps(xv: nat, qv: nat, i: nat, eq: int, lt: int) -> Seq<int>
    decreases i,
{
    if i == 0 {
        Seq::empty()
    } else {
        let j = (i - 1) as nat;
        let b = bit(xv, j) as int;
        if bit(qv, j) == 0 {
            seq![eq * (1 - b)] + lt_steps(xv, qv, j, eq * (1 - b), lt)
        } else {
            let t = eq * (1 - b);
            let l = if lt == 1 || t == 1 {
                1int
            } else {
                0int
            };
            seq![eq * b, t, l] + lt_steps(xv, qv, j, eq * b, l)
        }
    }
}

/// The auxiliary values an honest prover assigns for `x = xv` against a bound
/// `qv` of `k` bits: the bits of `xv`, the initial flags, then the steps.
pub open spec fn lt_witness(xv: nat, qv: nat, k: nat) -> Seq<int> {
    Seq::new(k, |j: int| bit(xv, j as nat) as int) + seq![1int, 0int] + lt_steps(xv, qv, k, 1, 0)
}

/// The full honest assignment: the constant one, `xv`, then the auxiliary values.
pub open spec fn lt_assignment(xv: nat, qv: nat, k: nat) -> Seq<int> {
    seq![1int, xv as int] + lt_witness(xv, qv, k)
}

/// `BigUint::from_bytes_le` then `BigUint::bits`: the fewest bits that write
/// the little-endian number `le`.
#[verifier::external_body]
fn biguint_bits(le: &[u8]) -> (r: u64)
    requires
        le@.len() <= usize::MAX / 64,
    ensures
        r == bit_length(bytes_value(le@)),
{
    BigUint::from_bytes_le(le).bits()
}

/// `BigUint::from_bytes_le` then `BigUint::bit`: whether bit `i` of the
/// little-endian number `le` is set.
#[verifier::external_body]
fn biguint_bit(le: &[u8], i: u64) -> (r: bool)
    ensures
        r == (bit(bytes_value(le@), i as nat) == 1),
{
    BigUint::from_bytes_le(le).bit(i)
}

/// `lc` weighs auxiliary variable `j` by the field's `2^j`, for `j < k`.
pub open spec fn is_pack_lc(lc: Seq<Term>, k: nat) -> bool {
    &&& lc.len() == k
    &&& forall|j: int|
        0 <= j < k ==> (#[trigger] lc[j]).var == 2 + j && lc[j].coeff@ == fmod(pow2(j as nat) as int)
}

/// `c` is `z[v] * (1 - z[v]) = 0`.
pub open spec fn is_boolean_constraint(c: Constraint, v: int) -> bool {
    is_var_lc(c.a@, v) && is_one_minus_lc(c.b@, v) && c.c@.len() == 0
}

/// `c` is `(sum of 2^j z[2 + j]) * 1 = z[1]`.
pub open spec fn is_pack_constraint(c: Constraint, k: nat) -> bool {
    is_pack_lc(c.a@, k) && is_var_lc(c.b@, 0) && is_var_lc(c.c@, 1)
}

/// `c` is `1 * 1 = z[o]`.
pub open spec fn is_one_constraint(c: Constraint, o: int) -> bool {
    is_var_lc(c.a@, 0) && is_var_lc(c.b@, 0) && is_var_lc(c.c@, o)
}

/// `c` is `0 * 0 = z[o]`.
pub open spec fn is_zero_constraint(c: Constraint, o: int) -> bool {
    c.a@.len() == 0 && c.b@.len() == 0 && is_var_lc(c.c@, o)
}

/// `c` is `z[e] * (1 - z[b]) = z[o]`.
pub open spec fn is_and_not_constraint(c: Constraint, e: int, b: int, o: int) -> bool {
    is_var_lc(c.a@, e) && is_one_minus_lc(c.b@, b) && is_var_lc(c.c@, o)
}

/// `c` is `z[e] * z[b] = z[o]`.
pub open spec fn is_and_constraint(c: Constraint, e: int, b: int, o: int) -> bool {
    is_var_lc(c.a@, e) && is_var_lc(c.b@, b) && is_var_lc(c.c@, o)
}

/// `c` is `(1 - z[l]) * (1 - z[t]) = 1 - z[o]`.
pub open spec fn is_or_constraint(c: Constraint, l: int, t: int, o: int) -> bool {
    is_one_minus_lc(c.a@, l) && is_one_minus_lc(c.b@, t) && is_one_minus_lc(c.c@, o)
}

/// An assignment that starts with the constant one.
pub open spec fn starts_with_one(z: Seq<int>) -> bool {
    z.len() >= 1 && z[0] == 1
}

/// What a boolean constraint asks of `z`.
pub proof fn lemma_boolean_constraint(c: Constraint, v: int, z: Seq<int>)
    requires
        is_boolean_constraint(c, v),
        starts_with_one(z),
    ensures
        holds(c, z) <==> fmod(z[v] * (1 - z[v])) == 0,
{
    lemma_var_lc(c.a@, v, z);
    lemma_one_minus_lc(c.b@, v, z);
    lemma_holds_iff(c, z, z[v], 1 - z[v], 0);
}

/// What the packing constraint asks of `z`.
pub proof fn lemma_pack_constraint(c: Constraint, k: nat, z: Seq<int>)
    requires
        is_pack_constraint(c, k),
        starts_with_one(z),
    ensures
        holds(c, z) <==> fmod(high_part(z, 0, k)) == fmod(z[1]),
{
    let p = modulus() as int;
    let lc = c.a@;
    let f = |j: int| lc[j].coeff@ * z[lc[j].var as int];
    let g = |j: int| pow2(j as nat) * zbit(z, j);
    assert forall|j: int| 0 <= j < k implies #[trigger] f(j) % p == g(j) % p by {
        lemma_mul_mod_noop_left(pow2(j as nat) as int, z[2 + j], p);
    }
    lemma_sum_mod(k, f, g, p);
    lemma_weighted_sum(z, 0, k);
    lemma2_to64();
    lemma_var_lc(c.b@, 0, z);
    lemma_var_lc(c.c@, 1, z);
    lemma_holds_iff(c, z, high_part(z, 0, k), 1, z[1]);
}

/// What a constant-one constraint asks of `z`.
pub proof fn lemma_one_constraint(c: Constraint, o: int, z: Seq<int>)
    requires
        is_one_constraint(c, o),
        starts_with_one(z),
    ensures
        holds(c, z) <==> fmod(1) == fmod(z[o]),
{
    lemma_var_lc(c.a@, 0, z);
    lemma_var_lc(c.b@, 0, z);
    lemma_var_lc(c.c@, o, z);
    lemma_holds_iff(c, z, 1, 1, z[o]);
}

/// What a constant-zero constraint asks of `z`.
pub proof fn lemma_zero_constraint(c: Constraint, o: int, z: Seq<int>)
    requires
        is_zero_constraint(c, o),
    ensures
        holds(c, z) <==> 0 == fmod(z[o]),
{
    lemma_var_lc(c.c@, o, z);
    lemma_holds_iff(c, z, 0, 0, z[o]);
}

/// What an and-not constraint asks of `z`.
pub proof fn lemma_and_not_constraint(c: Constraint, e: int, b: int, o: int, z: Seq<int>)
    requires
        is_and_not_constraint(c, e, b, o),
        starts_with_one(z),
    ensures
        holds(c, z) <==> fmod(z[e] * (1 - z[b])) == fmod(z[o]),
{
    lemma_var_lc(c.a@, e, z);
    lemma_one_minus_lc(c.b@, b, z);
    lemma_var_lc(c.c@, o, z);
    lemma_holds_iff(c, z, z[e], 1 - z[b], z[o]);
}

/// What an and constraint asks of `z`.
pub proof fn lemma_and_constraint(c: Constraint, e: int, b: int, o: int, z: Seq<int>)
    requires
        is_and_constraint(c, e, b, o),
    ensures
        holds(c, z) <==> fmod(z[e] * z[b]) == fmod(z[o]),
{
    lemma_var_lc(c.a@, e, z);
    lemma_var_lc(c.b@, b, z);
    lemma_var_lc(c.c@, o, z);
    lemma_holds_iff(c, z, z[e], z[b], z[o]);
}

/// What an or constraint asks of `z`.
pub proof fn lemma_or_constraint(c: Constraint, l: int, t: int, o: int, z: Seq<int>)
    requires
        is_or_constraint(c, l, t, o),
        starts_with_one(z),
    ensures
        holds(c, z) <==> fmod((1 - z[l]) * (1 - z[t])) == fmod(1 - z[o]),
{
    lemma_one_minus_lc(c.a@, l, z);
    lemma_one_minus_lc(c.b@, t, z);
    lemma_one_minus_lc(c.c@, o, z);
    lemma_holds_iff(c, z, 1 - z[l], 1 - z[t], 1 - z[o]);
}

/// In a field without zero divisors, `v (1 - v) = 0` holds of a canonical
/// value exactly when it is a bit.
pub proof fn lemma_boolean_iff(v: int)
    requires
        0 <= v < modulus(),
    ensures
        (v == 0 || v == 1) ==> fmod(v * (1 - v)) == 0,
        no_zero_divisors() && fmod(v * (1 - v)) == 0 ==> v == 0 || v == 1,
{
    if v == 0 || v == 1 {
        assert(v * (1 - v) == 0) by (nonlinear_arith)
            requires
                v == 0 || v == 1,
        ;
    }
}

/// A canonical value congruent to a small value is that value.
pub proof fn lemma_canonical(v: int, s: int)
    requires
        0 <= v < modulus(),
        0 <= s < modulus(),
    ensures
        fmod(v) == v,
        fmod(s) == fmod(v) <==> s == v,
{
}

/// A canonical value is congruent to `1 - s` for a small `s` exactly when it
/// is `1 - s`.
pub proof fn lemma_canonical_one_minus(v: int, s: int)
    requires
        0 <= v < modulus(),
        s == 0 || s == 1,
    ensures
        fmod(1 - v) == fmod(1 - s) <==> v == s,
{
}

/// Products of bits are bits, and the "or" of two bits through their complements.
pub proof fn lemma_bit_products(a: int, b: int)
    requires
        a == 0 || a == 1,
        b == 0 || b == 1,
    ensures
        a * b == 0 || a * b == 1,
        a * (1 - b) == 0 || a * (1 - b) == 1,
        (1 - a) * (1 - b) == 1 - (if a == 1 || b == 1 { 1int } else { 0int }),
{
    assert(a * b == 0 || a * b == 1) by (nonlinear_arith)
        requires
            a == 0 || a == 1,
            b == 0 || b == 1,
    ;
    assert(a * (1 - b) == 0 || a * (1 - b) == 1) by (nonlinear_arith)
        requires
            a == 0 || a == 1,
            b == 0 || b == 1,
    ;
    assert((1 - a) * (1 - b) == 1 - (if a == 1 || b == 1 { 1int } else { 0int }))
        by (nonlinear_arith)
        requires
            a == 0 || a == 1,
            b == 0 || b == 1,
    ;
}

/// Every assignment admissible for `n` variables that satisfies `cs` has bits
/// as its first `k` auxiliary values and correct flags at `e` and `l` from
/// position `i`; when `k <= 254`, its bits also form `z[1]`.
pub open spec fn sound_from(
    cs: Seq<Constraint>,
    n: nat,
    k: nat,
    qv: nat,
    i: nat,
    e: int,
    l: int,
) -> bool {
    forall|z: Seq<int>|
        admissible(z, n) && #[trigger] all_hold(cs, z) ==> {
            &&& bits_boolean(z, k)
            &&& flags_correct(z, k, qv, i, e, l)
            &&& (k <= 254 ==> high_part(z, 0, k) == z[1])
        }
}

/// The honest assignment `w` satisfies every constraint of `cs` but the one
/// at index `k`, and that one exactly when `xv < 2^k`.
pub open spec fn honest_sat(cs: Seq<Constraint>, w: Seq<int>, k: nat, xv: nat) -> bool {
    &&& forall|m: int| 0 <= m < cs.len() && m != k ==> holds(#[trigger] cs[m], w)
    &&& k < cs.len() ==> (holds(cs[k as int], w) <==> xv < pow2(k))
}

/// The honest assignment `w`, with `n` variables allocated so far and the
/// flags at `e` and `l` correct from position `i`: what remains of it are the
/// steps from there.
pub open spec fn honest_state(
    w: Seq<int>,
    n: nat,
    k: nat,
    xv: nat,
    qv: nat,
    i: nat,
    e: int,
    l: int,
) -> bool {
    &&& starts_with_one(w)
    &&& forall|j: int| 0 <= j < k ==> #[trigger] zbit(w, j) == bit(xv, j as nat) as int
    &&& flags_correct(w, k, qv, i, e, l)
    &&& 0 <= e < n
    &&& 0 <= l < n
    &&& n <= w.len()
    &&& w.subrange(n as int, w.len() as int) == lt_steps(xv, qv, i, w[e], w[l])
}

/// An assignment that satisfies the constraints so far, one step on when the
/// bound's bit is clear.
pub proof fn lemma_sound_step_clear(
    cs: Seq<Constraint>,
    c: Constraint,
    n: nat,
    k: nat,
    qv: nat,
    i: nat,
    e: int,
    l: int,
)
    requires
        no_zero_divisors(),
        sound_from(cs, n, k, qv, i, e, l),
        0 < i <= k,
        bit(qv, (i - 1) as nat) == 0,
        is_and_not_constraint(c, e, 2 + i as int - 1, n as int),
    ensures
        sound_from(cs.push(c), n + 1, k, qv, (i - 1) as nat, n as int, l),
{
    let j = (i - 1) as nat;
    assert forall|z: Seq<int>| admissible(z, n + 1) && #[trigger] all_hold(cs.push(c), z) implies {
        &&& bits_boolean(z, k)
        &&& flags_correct(z, k, qv, j, n as int, l)
        &&& (k <= 254 ==> high_part(z, 0, k) == z[1])
    } by {
        lemma_all_hold_push(cs, c, z);
        assert(admissible(z, n));
        assert(all_hold(cs, z));
        let b = zbit(z, j as int);
        assert(b == 0 || b == 1);
        lemma_and_not_constraint(c, e, 2 + j as int, n as int, z);
        lemma_bit_products(z[e], b);
        lemma_canonical(z[n as int], z[e] * (1 - b));
        lemma_div_step(qv, j);
        lemma_pow2_pos(i);
        lemma_pow2_pos(j);
        lemma_flags_step(high_part(z, i, k), (qv / pow2(i)) as int, b, 0);
        assert(high_part(z, j, k) == 2 * high_part(z, i, k) + b);
    }
}

/// An assignment that satisfies the constraints so far, one step on when the
/// bound's bit is set.
pub proof fn lemma_sound_step_set(
    cs: Seq<Constraint>,
    c1: Constraint,
    c2: Constraint,
    c3: Constraint,
    n: nat,
    k: nat,
    qv: nat,
    i: nat,
    e: int,
    l: int,
)
    requires
        no_zero_divisors(),
        sound_from(cs, n, k, qv, i, e, l),
        0 < i <= k,
        0 <= l < n,
        bit(qv, (i - 1) as nat) == 1,
        is_and_constraint(c1, e, 2 + i as int - 1, n as int),
        is_and_not_constraint(c2, e, 2 + i as int - 1, n as int + 1),
        is_or_constraint(c3, l, n as int + 1, n as int + 2),
    ensures
        sound_from(cs.push(c1).push(c2).push(c3), n + 3, k, qv, (i - 1) as nat, n as int, n as int + 2),
{
    let j = (i - 1) as nat;
    let cs3 = cs.push(c1).push(c2).push(c3);
    assert forall|z: Seq<int>| admissible(z, n + 3) && #[trigger] all_hold(cs3, z) implies {
        &&& bits_boolean(z, k)
        &&& flags_correct(z, k, qv, j, n as int, n as int + 2)
        &&& (k <= 254 ==> high_part(z, 0, k) == z[1])
    } by {
        lemma_all_hold_push(cs.push(c1).push(c2), c3, z);
        lemma_all_hold_push(cs.push(c1), c2, z);
        lemma_all_hold_push(cs, c1, z);
        assert(admissible(z, n));
        assert(all_hold(cs, z));
        let b = zbit(z, j as int);
        assert(b == 0 || b == 1);
        let ze = z[e];
        let zl = z[l];
        lemma_and_constraint(c1, e, 2 + j as int, n as int, z);
        lemma_and_not_constraint(c2, e, 2 + j as int, n as int + 1, z);
        lemma_bit_products(ze, b);
        lemma_canonical(z[n as int], ze * b);
        lemma_canonical(z[n as int + 1], ze * (1 - b));
        let t = z[n as int + 1];
        lemma_or_constraint(c3, l, n as int + 1, n as int + 2, z);
        lemma_bit_products(zl, t);
        let s: int = if zl == 1 || t == 1 { 1 } else { 0 };
        lemma_canonical_one_minus(z[n as int + 2], s);
        lemma_div_step(qv, j);
        lemma_pow2_pos(i);
        lemma_pow2_pos(j);
        lemma_flags_step(high_part(z, i, k), (qv / pow2(i)) as int, b, 1);
        assert(high_part(z, j, k) == 2 * high_part(z, i, k) + b);
    }
}

/// The honest assignment, one step on when the bound's bit is clear.
pub proof fn lemma_honest_step_clear(
    cs: Seq<Constraint>,
    c: Constraint,
    w: Seq<int>,
    n: nat,
    k: nat,
    xv: nat,
    qv: nat,
    i: nat,
    e: int,
    l: int,
)
    requires
        honest_sat(cs, w, k, xv),
        cs.len() > k,
        honest_state(w, n, k, xv, qv, i, e, l),
        0 < i <= k,
        bit(qv, (i - 1) as nat) == 0,
        is_and_not_constraint(c, e, 2 + i as int - 1, n as int),
    ensures
        honest_sat(cs.push(c), w, k, xv),
        honest_state(w, n + 1, k, xv, qv, (i - 1) as nat, n as int, l),
        w[n as int] == w[e] * (1 - bit(xv, (i - 1) as nat)),
{
    let j = (i - 1) as nat;
    let b = bit(xv, j) as int;
    assert(zbit(w, j as int) == b);
    lemma_div_step(xv, j);
    let rest = w.subrange(n as int, w.len() as int);
    assert(rest == seq![w[e] * (1 - b)] + lt_steps(xv, qv, j, w[e] * (1 - b), w[l]));
    assert(rest[0] == w[n as int]);
    assert(w.subrange(n as int + 1, w.len() as int) =~= rest.drop_first());
    assert(rest.drop_first() =~= lt_steps(xv, qv, j, w[e] * (1 - b), w[l]));
    lemma_and_not_constraint(c, e, 2 + j as int, n as int, w);
    let cs2 = cs.push(c);
    assert forall|m: int| 0 <= m < cs2.len() && m != k implies holds(#[trigger] cs2[m], w) by {
        if m < cs.len() {
            assert(cs2[m] == cs[m]);
        }
    }
    assert(cs2[k as int] == cs[k as int]);
    lemma_bit_products(w[e], b);
    lemma_div_step(qv, j);
    lemma_pow2_pos(i);
    lemma_pow2_pos(j);
    lemma_flags_step(high_part(w, i, k), (qv / pow2(i)) as int, b, 0);
    assert(high_part(w, j, k) == 2 * high_part(w, i, k) + b);
}

/// The honest assignment, one step on when the bound's bit is set.
pub proof fn lemma_honest_step_set(
    cs: Seq<Constraint>,
    c1: Constraint,
    c2: Constraint,
    c3: Constraint,
    w: Seq<int>,
    n: nat,
    k: nat,
    xv: nat,
    qv: nat,
    i: nat,
    e: int,
    l: int,
)
    requires
        honest_sat(cs, w, k, xv),
        cs.len() > k,
        honest_state(w, n, k, xv, qv, i, e, l),
        0 < i <= k,
        bit(qv, (i - 1) as nat) == 1,
        is_and_constraint(c1, e, 2 + i as int - 1, n as int),
        is_and_not_constraint(c2, e, 2 + i as int - 1, n as int + 1),
        is_or_constraint(c3, l, n as int + 1, n as int + 2),
    ensures
        honest_sat(cs.push(c1).push(c2).push(c3), w, k, xv),
        honest_state(w, n + 3, k, xv, qv, (i - 1) as nat, n as int, n as int + 2),
        w[n as int] == w[e] * bit(xv, (i - 1) as nat),
        w[n as int + 1] == w[e] * (1 - bit(xv, (i - 1) as nat)),
        w[n as int + 2] == (if w[l] == 1 || w[n as int + 1] == 1 { 1int } else { 0int }),
{
    let j = (i - 1) as nat;
    let b = bit(xv, j) as int;
    assert(zbit(w, j as int) == b);
    lemma_div_step(xv, j);
    let we = w[e];
    let wl = w[l];
    let t = we * (1 - b);
    let s: int = if wl == 1 || t == 1 { 1 } else { 0 };
    let rest = w.subrange(n as int, w.len() as int);
    assert(rest == seq![we * b, t, s] + lt_steps(xv, qv, j, we * b, s));
    assert(rest[0] == w[n as int]);
    assert(rest[1] == w[n as int + 1]);
    assert(rest[2] == w[n as int + 2]);
    assert(w.subrange(n as int + 3, w.len() as int) =~= rest.subrange(3, rest.len() as int));
    assert(rest.subrange(3, rest.len() as int) =~= lt_steps(xv, qv, j, we * b, s));
    lemma_bit_products(we, b);
    lemma_bit_products(wl, t);
    lemma_and_constraint(c1, e, 2 + j as int, n as int, w);
    lemma_and_not_constraint(c2, e, 2 + j as int, n as int + 1, w);
    lemma_or_constraint(c3, l, n as int + 1, n as int + 2, w);
    assert(holds(c1, w));
    assert(holds(c2, w));
    assert(holds(c3, w));
    let cs3 = cs.push(c1).push(c2).push(c3);
    assert forall|m: int| 0 <= m < cs3.len() && m != k implies holds(#[trigger] cs3[m], w) by {
        if m < cs.len() {
            assert(cs3[m] == cs[m]);
        } else if m == cs.len() {
            assert(cs3[m] == c1);
        } else if m == cs.len() + 1 {
            assert(cs3[m] == c2);
        } else {
            assert(cs3[m] == c3);
        }
    }
    assert(cs3[k as int] == cs[k as int]);
    lemma_bit_products(we, b);
    lemma_bit_products(wl, t);
    lemma_div_step(qv, j);
    lemma_pow2_pos(i);
    lemma_pow2_pos(j);
    lemma_flags_step(high_part(w, i, k), (qv / pow2(i)) as int, b, 1);
    assert(high_part(w, j, k) == 2 * high_part(w, i, k) + b);
}

/// Two to the power of at most 254 is below the modulus.
pub proof fn lemma_pow2_below_modulus(k: nat)
    requires
        k <= 254,
    ensures
        pow2(k) < modulus(),
{
    if k < 254 {
        lemma_pow2_strictly_increases(k, 254);
    }
    lemma2_to64();
    lemma_pow2_adds(64, 64);
    lemma_pow2_adds(128, 64);
    lemma_pow2_adds(192, 32);
    lemma_pow2_adds(224, 30);
    assert(pow2(64) == 0x1_0000_0000_0000_0000nat);
    assert(pow2(128) == 0x1_0000_0000_0000_0000_0000_0000_0000_0000nat);
    assert(pow2(192) == 0x1_0000_0000_0000_0000_0000_0000_0000_0000_0000_0000_0000_0000nat);
    assert(pow2(224) == 0x1_0000_0000_0000_0000_0000_0000_0000_0000_0000_0000_0000_0000_0000_0000nat);
    assert(pow2(254) == 0x4000_0000_0000_0000_0000_0000_0000_0000_0000_0000_0000_0000_0000_0000_0000_0000nat);
}

/// The constraints allocated before the comparison steps: a bit check for
/// each digit, the packing, and the two initial flags.
pub open spec fn base_shapes(cs: Seq<Constraint>, k: nat) -> bool {
    &&& cs.len() == k + 3
    &&& forall|j: int| 0 <= j < k ==> is_boolean_constraint(#[trigger] cs[j], 2 + j)
    &&& is_pack_constraint(cs[k as int], k)
    &&& is_one_constraint(cs[k as int + 1], k as int + 2)
    &&& is_zero_constraint(cs[k as int + 2], k as int + 3)
}

/// Before the comparison steps, every satisfying assignment has bit digits,
/// the initial flags, and (with `k <= 254`) its digits form `z[1]`.
pub proof fn lemma_sound_base(cs: Seq<Constraint>, k: nat, qv: nat)
    requires
        no_zero_divisors(),
        qv < pow2(k),
        base_shapes(cs, k),
    ensures
        sound_from(cs, k + 4, k, qv, k, k as int + 2, k as int + 3),
{
    lemma_pow2_pos(k);
    lemma_basic_div(qv as int, pow2(k) as int);
    assert forall|z: Seq<int>| admissible(z, k + 4) && #[trigger] all_hold(cs, z) implies {
        &&& bits_boolean(z, k)
        &&& flags_correct(z, k, qv, k, k as int + 2, k as int + 3)
        &&& (k <= 254 ==> high_part(z, 0, k) == z[1])
    } by {
        assert forall|j: int| 0 <= j < k implies #[trigger] zbit(z, j) == 0 || zbit(z, j) == 1 by {
            assert(holds(cs[j], z));
            lemma_boolean_constraint(cs[j], 2 + j, z);
            lemma_boolean_iff(z[2 + j]);
        }
        assert(holds(cs[k as int + 1], z));
        lemma_one_constraint(cs[k as int + 1], k as int + 2, z);
        lemma_canonical(z[k as int + 2], 1);
        assert(holds(cs[k as int + 2], z));
        lemma_zero_constraint(cs[k as int + 2], k as int + 3, z);
        lemma_canonical(z[k as int + 3], 0);
        if k <= 254 {
            assert(holds(cs[k as int], z));
            lemma_pack_constraint(cs[k as int], k, z);
            lemma_high_part_bound(z, 0, k);
            lemma_pow2_below_modulus(k);
            lemma_canonical(z[1], high_part(z, 0, k));
        }
    }
}

/// Before the comparison steps, the honest assignment satisfies the bit
/// checks and flags, and the packing exactly when `xv < 2^k`.
#[verifier::spinoff_prover]
#[verifier::rlimit(40)]
pub proof fn lemma_honest_base(cs: Seq<Constraint>, k: nat, xv: nat, qv: nat)
    requires
        qv < pow2(k),
        xv < modulus(),
        base_shapes(cs, k),
    ensures
        honest_sat(cs, lt_assignment(xv, qv, k), k, xv),
        honest_state(lt_assignment(xv, qv, k), k + 4, k, xv, qv, k, k as int + 2, k as int + 3),
{
    let w = lt_assignment(xv, qv, k);
    let bits = Seq::new(k, |j: int| bit(xv, j as nat) as int);
    let steps = lt_steps(xv, qv, k, 1, 0);
    assert(w =~= seq![1int, xv as int] + bits + seq![1int, 0int] + steps);
    assert forall|j: int| 0 <= j < k implies #[trigger] zbit(w, j) == bit(xv, j as nat) as int by {
        assert(w[2 + j] == bits[j]);
    }
    assert(w[k as int + 2] == 1);
    assert(w[k as int + 3] == 0);
    assert(w.subrange(k as int + 4, w.len() as int) =~= steps);
    lemma_pow2_pos(k);
    lemma_basic_div(qv as int, pow2(k) as int);
    assert forall|m: int| 0 <= m < cs.len() && m != k implies holds(#[trigger] cs[m], w) by {
        if m < k {
            lemma_div_step(xv, m as nat);
            assert(zbit(w, m) == bit(xv, m as nat) as int);
            lemma_boolean_constraint(cs[m], 2 + m, w);
            lemma_boolean_iff(w[2 + m]);
        } else if m == k as int + 1 {
            lemma_one_constraint(cs[m], k as int + 2, w);
        } else {
            lemma_zero_constraint(cs[m], k as int + 3, w);
        }
    }
    lemma_pack_constraint(cs[k as int], k, w);
    lemma2_to64();
    if xv < pow2(k) {
        lemma_high_part_of_bits(w, xv, 0, k);
    } else {
        assert forall|j: int| 0 <= j < k implies #[trigger] zbit(w, j) == 0 || zbit(w, j) == 1 by {
            lemma_div_step(xv, j as nat);
        }
        lemma_high_part_bound(w, 0, k);
        lemma_canonical(xv as int, high_part(w, 0, k));
    }
}

/// A value is below two to the power of its bit length, and the bit length
/// is the least such power.
pub proof fn lemma_bit_length(v: nat, n: nat)
    ensures
        v < pow2(bit_length(v)),
        v < pow2(n) ==> bit_length(v) <= n,
    decreases v,
{
    lemma2_to64();
    if v > 0 {
        let n1: nat = if n > 0 { (n - 1) as nat } else { 0 };
        lemma_bit_length(v / 2, n1);
        assert(bit_length(v) == 1 + bit_length(v / 2));
        lemma_pow2_unfold(bit_length(v));
        assert(pow2(bit_length(v)) == 2 * pow2(bit_length(v / 2)));
        if v < pow2(n) {
            if n == 0 {
                lemma2_to64();
            } else {
                lemma_pow2_unfold(n);
                assert(v / 2 < pow2(n1));
            }
        }
    }
}

/// A little-endian byte string of length `n` is below `2^(8n)`.
pub proof fn lemma_bytes_value_bound(b: Seq<u8>)
    ensures
        bytes_value(b) < pow2(8 * b.len()),
    decreases b.len(),
{
    if b.len() == 0 {
        lemma2_to64();
    } else {
        let r = b.drop_first();
        lemma_bytes_value_bound(r);
        lemma_pow2_adds(8, 8 * r.len());
        lemma2_to64();
        assert(8 * b.len() == 8 + 8 * r.len());
    }
}

/// One binary digit of `v`, and the digits above it.
pub proof fn lemma_div_step(v: nat, i: nat)
    ensures
        v / pow2(i) == 2 * (v / pow2(i + 1)) + bit(v, i),
        bit(v, i) == 0 || bit(v, i) == 1,
{
    lemma_pow2_pos(i);
    lemma_pow2_unfold(i + 1);
    lemma_div_denominator(v as int, pow2(i) as int, 2);
    lemma_mul_is_commutative(2, pow2(i) as int);
    lemma_fundamental_div_mod((v / pow2(i)) as int, 2);
}

/// The digits of `z` from position `i` form a number below `2^(k - i)` when
/// every digit is a bit.
pub proof fn lemma_high_part_bound(z: Seq<int>, i: nat, k: nat)
    requires
        bits_boolean(z, k),
        i <= k,
    ensures
        0 <= high_part(z, i, k) < pow2((k - i) as nat),
    decreases k - i,
{
    if i == k {
        lemma2_to64();
    } else {
        lemma_high_part_bound(z, i + 1, k);
        lemma_pow2_unfold((k - i) as nat);
        assert((k - (i + 1)) as nat == (k - i - 1) as nat);
        assert(zbit(z, i as int) == 0 || zbit(z, i as int) == 1);
    }
}

/// When the digits of `z` are the bits of `v < 2^k`, the digits from position
/// `i` form `v / 2^i`.
pub proof fn lemma_high_part_of_bits(z: Seq<int>, v: nat, i: nat, k: nat)
    requires
        v < pow2(k),
        i <= k,
        forall|j: int| 0 <= j < k ==> #[trigger] zbit(z, j) == bit(v, j as nat) as int,
    ensures
        high_part(z, i, k) == v / pow2(i),
    decreases k - i,
{
    if i == k {
        lemma_pow2_pos(k);
        lemma_basic_div(v as int, pow2(k) as int);
        assert(v / pow2(k) == 0);
    } else {
        lemma_high_part_of_bits(z, v, i + 1, k);
        lemma_div_step(v, i);
        lemma_pow2_pos(i + 1);
        assert(zbit(z, i as int) == bit(v, i) as int);
    }
}

/// When the digits of `z` are bits, they are the binary digits of the number
/// they form.
pub proof fn lemma_digits_of_high_part(z: Seq<int>, i: nat, k: nat)
    requires
        bits_boolean(z, k),
        i <= k,
    ensures
        forall|j: int|
            i <= j < k ==> bit(high_part(z, i, k) as nat, (j - i) as nat) as int == #[trigger] zbit(z, j),
    decreases k - i,
{
    if i < k {
        lemma_digits_of_high_part(z, i + 1, k);
        lemma_high_part_bound(z, i, k);
        lemma_high_part_bound(z, i + 1, k);
        let h = high_part(z, i + 1, k);
        let hi = high_part(z, i, k);
        let b = zbit(z, i as int);
        assert(b == 0 || b == 1);
        assert(hi == 2 * h + b);
        assert forall|j: int| i <= j < k implies bit(hi as nat, (j - i) as nat) as int == #[trigger] zbit(z, j) by {
            lemma_div_step(hi as nat, 0);
            lemma2_to64();
            assert(hi as nat / pow2(0) == hi);
            assert(hi / 2 == h);
            if j > i {
                let m = (j - i - 1) as nat;
                lemma_pow2_pos(m);
                lemma_pow2_unfold(m + 1);
                lemma_div_denominator(hi, 2, pow2(m) as int);
                assert(hi as nat / pow2(m + 1) == h as nat / pow2(m));
                assert((j - i) as nat == m + 1);
                assert((j - (i + 1)) as nat == m);
            }
        }
    }
}

/// The weighted sum of the digits of `z` equals their binary value.
pub proof fn lemma_weighted_sum(z: Seq<int>, j: nat, k: nat)
    requires
        j <= k,
    ensures
        sum(k, |m: int| pow2(m as nat) * zbit(z, m)) == sum(j, |m: int| pow2(m as nat) * zbit(z, m))
            + pow2(j) * high_part(z, j, k),
    decreases k - j,
{
    let f = |m: int| pow2(m as nat) * zbit(z, m);
    if j < k {
        lemma_weighted_sum(z, j + 1, k);
        assert(sum(j + 1, f) == sum(j, f) + f(j as int));
        lemma_pow2_unfold(j + 1);
        let h1 = high_part(z, j + 1, k);
        let pj = pow2(j) as int;
        assert(pj * (2 * h1 + zbit(z, j as int)) == (2 * pj) * h1 + pj * zbit(z, j as int))
            by (nonlinear_arith);
        assert(pow2(j + 1) == 2 * pj);
    }
}

/// Comparing numbers digit by digit from the top: the flags after one more
/// digit, from the flags before it.
pub proof fn lemma_flags_step(h1: int, g1: int, b: int, c: int)
    requires
        b == 0 || b == 1,
        c == 0 || c == 1,
    ensures
        ({
            let e: int = if h1 == g1 { 1 } else { 0 };
            let l: int = if h1 < g1 { 1 } else { 0 };
            let h = 2 * h1 + b;
            let g = 2 * g1 + c;
            &&& c == 0 ==> e * (1 - b) == (if h == g { 1int } else { 0int })
            &&& c == 0 ==> l == (if h < g { 1int } else { 0int })
            &&& c == 1 ==> e * b == (if h == g { 1int } else { 0int })
            &&& c == 1 ==> (if l == 1 || e * (1 - b) == 1 { 1int } else { 0int }) == (if h < g {
                1int
            } else {
                0int
            })
        }),
{
}

} // verus!

verus! {

/// The value of an optional element, zero when it is absent.
pub open spec fn opt_value(x: Option<Fe>) -> nat {
    match x {
        Some(v) => v@,
        None => 0,
    }
}

/// Every assignment admissible for `n` variables that satisfies `cs` has
/// `z[out] == 1` when `z[1] < qv` and `z[out] == 0` otherwise.
pub open spec fn decides_less_than(cs: Seq<Constraint>, n: nat, out: int, qv: nat) -> bool {
    forall|z: Seq<int>|
        admissible(z, n) && #[trigger] all_hold(cs, z) ==> z[out] == (if z[1] < qv {
            1int
        } else {
            0int
        })
}

/// The bits `0` to `k - 1` of the little-endian number `x`, lowest first.
fn bits_le_from_biguint(x: &[u8], k: usize) -> (r: Vec<bool>)
    ensures
        r@.len() == k,
        forall|i: int| 0 <= i < k ==> r@[i] == (bit(bytes_value(x@), i as nat) == 1),
{
    let mut r: Vec<bool> = Vec::new();
    let mut i: usize = 0;
    while i < k
        invariant
            i <= k,
            r@.len() == i,
            forall|j: int| 0 <= j < i ==> r@[j] == (bit(bytes_value(x@), j as nat) == 1),
        decreases k - i,
    {
        r.push(biguint_bit(x, i as u64));
        i += 1;
    }
    r
}

/// Allocates a variable holding the bit `value` (`None` when it is unknown)
/// and constrains it to be a bit: `b * (1 - b) = 0`. Returns the variable.
fn alloc_boolean_num(aux: &mut Vec<Option<Fe>>, cs: &mut Vec<Constraint>, value: Option<bool>) -> (var:
    usize)
    requires
        old(aux)@.len() + 3 <= usize::MAX,
    ensures
        var == old(aux)@.len() + 2,
        final(aux)@.len() == old(aux)@.len() + 1,
        final(aux)@.drop_last() == old(aux)@,
        final(aux)@.last() is Some <==> value is Some,
        final(aux)@.last() matches Some(f) ==> f.wf() && f@ == (if value == Some(true) {
            1nat
        } else {
            0nat
        }),
        final(cs)@.len() == old(cs)@.len() + 1,
        final(cs)@.drop_last() == old(cs)@,
        is_boolean_constraint(final(cs)@.last(), var as int),
{
    let b = match value {
        Some(v) => {
            if v {
                Some(fe_one())
            } else {
                Some(fe_zero())
            }
        },
        None => None,
    };
    let var = aux.len() + 2;
    aux.push(b);
    cs.push(Constraint { a: lc_var(var), b: lc_one_minus(var), c: lc_zero() });
    proof {
        assert(aux@.drop_last() =~= old(aux)@);
        assert(cs@.drop_last() =~= old(cs)@);
    }
    var
}

/// The comparison gadget for one value: the auxiliary values a prover assigns
/// (`None` where a value it depends on is unknown), the rank-1 constraints,
/// and the variable that holds the result.
#[derive(Clone, Debug)]
pub struct LtCircuit {
    pub aux: Vec<Option<Fe>>,
    pub constraints: Vec<Constraint>,
    pub output: usize,
}


/// Enforce that the value `x` (read as an unsigned integer through its bit
/// decomposition) is below the public constant `q`, given in little-endian
/// bytes: the less-than recurrence specialized to a constant bound, from the
/// most significant bit down.
///
/// The result's output variable is `1` exactly when `x < q`. The gadget
/// decomposes `x` into as many bits as `q` has, so it also requires `x` to
/// be below that power of two.
pub fn lt_constant(x: Option<Fe>, q: &[u8]) -> (r: LtCircuit)
    requires
        x matches Some(v) ==> v.wf(),
        q@.len() <= usize::MAX / 64,
    ensures
        ({
            let qv = bytes_value(q@);
            let k = bit_length(qv);
            let w = lt_assignment(opt_value(x), qv, k);
            let n = (r.aux@.len() + 2) as nat;
            &&& n == w.len()
            &&& 2 <= r.output < n
            &&& constraints_in_range(r.constraints@, n)
            &&& forall|j: int|
                0 <= j < r.aux@.len() ==> {
                    &&& (#[trigger] r.aux@[j] is Some <==> (x is Some || j == k || j == k + 1))
                    &&& (r.aux@[j] matches Some(f) ==> f.wf() && f@ == w[j + 2])
                }
            &&& (x is Some ==> (all_hold(r.constraints@, w) <==> opt_value(x) < pow2(k)))
            &&& (x is Some && opt_value(x) < pow2(k) ==> w[r.output as int] == (if opt_value(x) < qv {
                1int
            } else {
                0int
            }))
            &&& (no_zero_divisors() && k <= 254 ==> decides_less_than(
                r.constraints@,
                n,
                r.output as int,
                qv,
            ))
            &&& (no_zero_divisors() && k <= 254 ==> forall|z: Seq<int>|
                admissible(z, n) && #[trigger] all_hold(r.constraints@, z) ==> 0 <= z[1] < pow2(k) && forall|j: int|
                    0 <= j < k ==> #[trigger] zbit(z, j) == bit(z[1] as nat, j as nat) as int)
            &&& r.constraints@.len() == 2 * k + 3 + 2 * ones_from(qv, 0, k)
        }),
{
    let ghost qv = bytes_value(q@);
    let ghost xv = opt_value(x);
    let k64 = biguint_bits(q);
    proof {
        lemma_bytes_value_bound(q@);
        lemma_bit_length(qv, 8 * q@.len());
    }
    let k = k64 as usize;
    let ghost kk = k as nat;
    let ghost w = lt_assignment(xv, qv, kk);
    let q_bits = bits_le_from_biguint(q, k);
    let x_bits_value: Option<Vec<bool>> = match x {
        Some(fe) => {
            let bytes = fe.to_bytes();
            Some(bits_le_from_biguint(bytes.as_slice(), k))
        },
        None => None,
    };

    // Witness bits for x, LSB to MSB, each constrained to be a bit.
    let mut aux: Vec<Option<Fe>> = Vec::new();
    let mut cs: Vec<Constraint> = Vec::new();
    let mut i: usize = 0;
    while i < k
        invariant
            k == kk,
            kk <= usize::MAX / 8,
            i <= k,
            aux@.len() == i,
            cs@.len() == i,
            x is Some <==> x_bits_value is Some,
            x_bits_value matches Some(vs) ==> vs@.len() == k && (forall|j: int|
                0 <= j < k ==> vs@[j] == (bit(xv, j as nat) == 1)),
            forall|j: int| 0 <= j < i ==> is_boolean_constraint(#[trigger] cs@[j], 2 + j),
            forall|j: int|
                0 <= j < i ==> {
                    &&& (#[trigger] aux@[j] is Some <==> x is Some)
                    &&& (aux@[j] matches Some(f) ==> f.wf() && f@ == bit(xv, j as nat))
                },
        decreases k - i,
    {
        let v = match &x_bits_value {
            Some(vs) => Some(vs[i]),
            None => None,
        };
        let ghost aux0 = aux@;
        let ghost cs0 = cs@;
        alloc_boolean_num(&mut aux, &mut cs, v);
        proof {
            assert forall|j: int| 0 <= j < i + 1 implies is_boolean_constraint(#[trigger] cs@[j], 2 + j) by {
                if j < i {
                    assert(cs@[j] == cs@.drop_last()[j]);
                }
            }
            assert forall|j: int| 0 <= j < i + 1 implies {
                &&& (#[trigger] aux@[j] is Some <==> x is Some)
                &&& (aux@[j] matches Some(f) ==> f.wf() && f@ == bit(xv, j as nat))
            } by {
                if j < i {
                    assert(aux@[j] == aux@.drop_last()[j]);
                } else {
                    lemma_div_step(xv, j as nat);
                }
            }
        }
        i += 1;
    }

    // Pack: sum_j 2^j * x_j == x.
    let mut acc: Vec<Term> = Vec::new();
    let mut coeff = fe_one();
    proof {
        lemma2_to64();
    }
    let mut j: usize = 0;
    while j < k
        invariant
            k == kk,
            kk <= usize::MAX / 8,
            j <= k,
            acc@.len() == j,
            coeff.wf(),
            coeff@ == fmod(pow2(j as nat) as int),
            forall|m: int|
                0 <= m < j ==> (#[trigger] acc@[m]).var == 2 + m && acc@[m].coeff@ == fmod(
                    pow2(m as nat) as int,
                ),
        decreases k - j,
    {
        acc.push(Term { var: j + 2, coeff });
        let next = fe_double(&coeff);
        proof {
            let p = modulus() as int;
            lemma_pow2_unfold((j + 1) as nat);
            lemma_mul_mod_noop_right(2, pow2(j as nat) as int, p);
        }
        coeff = next;
        j += 1;
    }
    cs.push(Constraint { a: acc, b: lc_var(0), c: lc_var(1) });

    // eq_k = 1, lt_k = 0.
    let mut eq_var: usize = k + 2;
    let mut eq_val: Option<Fe> = Some(fe_one());
    aux.push(eq_val);
    cs.push(Constraint { a: lc_var(0), b: lc_var(0), c: lc_var(eq_var) });
    let mut lt_var: usize = k + 3;
    let mut lt_val: Option<Fe> = Some(fe_zero());
    aux.push(lt_val);
    cs.push(Constraint { a: lc_zero(), b: lc_zero(), c: lc_var(lt_var) });

    proof {
        assert(base_shapes(cs@, kk));
        if no_zero_divisors() {
            lemma_sound_base(cs@, kk, qv);
        }
        lemma_honest_base(cs@, kk, xv, qv);
        assert forall|m: int| 0 <= m < cs@.len() implies lc_in_range((#[trigger] cs@[m]).a@, kk + 4)
            && lc_in_range(cs@[m].b@, kk + 4) && lc_in_range(cs@[m].c@, kk + 4) by {
            if m < kk {
                lemma_var_lc_in_range(cs@[m].a@, 2 + m, kk + 4);
                lemma_one_minus_lc_in_range(cs@[m].b@, 2 + m, kk + 4);
            } else if m == kk {
                lemma_var_lc_in_range(cs@[m].b@, 0, kk + 4);
                lemma_var_lc_in_range(cs@[m].c@, 1, kk + 4);
            } else if m == kk + 1 {
                lemma_var_lc_in_range(cs@[m].a@, 0, kk + 4);
                lemma_var_lc_in_range(cs@[m].b@, 0, kk + 4);
                lemma_var_lc_in_range(cs@[m].c@, kk as int + 2, kk + 4);
            } else {
                lemma_var_lc_in_range(cs@[m].c@, kk as int + 3, kk + 4);
            }
        }
        assert forall|m: int| 0 <= m < aux@.len() implies {
            &&& (#[trigger] aux@[m] is Some <==> (x is Some || m == kk || m == kk + 1))
            &&& (aux@[m] matches Some(f) ==> f.wf() && f@ == w[m + 2])
        } by {
            assert(w[m + 2] == zbit(w, m));
        }
    }

    // From the most significant bit down.
    let mut i: usize = k;
    while i > 0
        invariant
            k == kk,
            kk <= usize::MAX / 8,
            i <= k,
            q_bits@.len() == k,
            forall|j: int| 0 <= j < k ==> q_bits@[j] == (bit(qv, j as nat) == 1),
            k + 2 <= aux@.len() <= k + 2 + 3 * (k - i),
            cs@.len() > k,
            cs@.len() == kk + 3 + (kk - i) + 2 * ones_from(qv, i as nat, kk),
            2 <= eq_var < aux@.len() + 2,
            2 <= lt_var < aux@.len() + 2,
            eq_val == aux@[eq_var - 2],
            lt_val == aux@[lt_var - 2],
            constraints_in_range(cs@, (aux@.len() + 2) as nat),
            forall|m: int|
                0 <= m < aux@.len() ==> {
                    &&& (#[trigger] aux@[m] is Some <==> (x is Some || m == kk || m == kk + 1))
                    &&& (aux@[m] matches Some(f) ==> f.wf() && f@ == w[m + 2])
                },
            no_zero_divisors() ==> sound_from(
                cs@,
                (aux@.len() + 2) as nat,
                kk,
                qv,
                i as nat,
                eq_var as int,
                lt_var as int,
            ),
            honest_sat(cs@, w, kk, xv),
            honest_state(
                w,
                (aux@.len() + 2) as nat,
                kk,
                xv,
                qv,
                i as nat,
                eq_var as int,
                lt_var as int,
            ),
        decreases i,
    {
        i = i - 1;
        let x_i_var = i + 2;
        let x_i_val = aux[i];
        let q_i = q_bits[i];
        let ghost cs0 = cs@;
        let ghost n0 = (aux@.len() + 2) as nat;
        let ghost aux0 = aux@;
        proof {
            assert(w[i + 2] == zbit(w, i as int));
            lemma_div_step(xv, i as nat);
            lemma_div_step(qv, i as nat);
            assert(ones_from(qv, i as nat, kk) == bit(qv, i as nat) + ones_from(qv, (i + 1) as nat, kk));
        }
        if !q_i {
            // eq_i = eq_{i+1} * (1 - x_i); lt unchanged.
            let n = aux.len() + 2;
            let eq_next = match (eq_val, x_i_val) {
                (Some(e), Some(b)) => {
                    let one = fe_one();
                    let nb = fe_sub(&one, &b);
                    Some(fe_mul(&e, &nb))
                },
                _ => None,
            };
            let c = Constraint { a: lc_var(eq_var), b: lc_one_minus(x_i_var), c: lc_var(n) };
            let ghost gc = c;
            aux.push(eq_next);
            cs.push(c);
            proof {
                if no_zero_divisors() {
                    lemma_sound_step_clear(cs0, gc, n0, kk, qv, (i + 1) as nat, eq_var as int, lt_var as int);
                }
                lemma_honest_step_clear(cs0, gc, w, n0, kk, xv, qv, (i + 1) as nat, eq_var as int, lt_var as int);
                lemma_var_lc_in_range(gc.a@, eq_var as int, n0 + 1);
                lemma_one_minus_lc_in_range(gc.b@, x_i_var as int, n0 + 1);
                lemma_var_lc_in_range(gc.c@, n as int, n0 + 1);
                lemma_in_range_push(cs0, gc, n0, n0 + 1);
                lemma_bit_products(w[eq_var as int], bit(xv, i as nat) as int);
                assert forall|m: int| 0 <= m < aux@.len() implies {
                    &&& (#[trigger] aux@[m] is Some <==> (x is Some || m == kk || m == kk + 1))
                    &&& (aux@[m] matches Some(f) ==> f.wf() && f@ == w[m + 2])
                } by {
                    if m < aux0.len() {
                        assert(aux@[m] == aux0[m]);
                    }
                }
            }
            eq_var = n;
            eq_val = eq_next;
        } else {
            // eq_i = eq_{i+1} * x_i
            let n = aux.len() + 2;
            let eq_next = match (eq_val, x_i_val) {
                (Some(e), Some(b)) => Some(fe_mul(&e, &b)),
                _ => None,
            };
            let c1 = Constraint { a: lc_var(eq_var), b: lc_var(x_i_var), c: lc_var(n) };
            let ghost gc1 = c1;
            aux.push(eq_next);
            cs.push(c1);
            // t = eq_{i+1} * (1 - x_i)
            let t = match (eq_val, x_i_val) {
                (Some(e), Some(b)) => {
                    let one = fe_one();
                    let nb = fe_sub(&one, &b);
                    Some(fe_mul(&e, &nb))
                },
                _ => None,
            };
            let c2 = Constraint { a: lc_var(eq_var), b: lc_one_minus(x_i_var), c: lc_var(n + 1) };
            let ghost gc2 = c2;
            aux.push(t);
            cs.push(c2);
            // lt_i = lt_{i+1} OR t, through (1 - lt_{i+1}) * (1 - t) = 1 - lt_i.
            let lt_next = match (lt_val, t) {
                (Some(lv), Some(tv)) => {
                    let one = fe_one();
                    if fe_eq(&lv, &one) || fe_eq(&tv, &one) {
                        Some(one)
                    } else {
                        Some(fe_zero())
                    }
                },
                _ => None,
            };
            let c3 = Constraint { a: lc_one_minus(lt_var), b: lc_one_minus(n + 1), c: lc_one_minus(n + 2) };
            let ghost gc3 = c3;
            aux.push(lt_next);
            cs.push(c3);
            proof {
                if no_zero_divisors() {
                    lemma_sound_step_set(cs0, gc1, gc2, gc3, n0, kk, qv, (i + 1) as nat, eq_var as int, lt_var as int);
                }
                lemma_honest_step_set(cs0, gc1, gc2, gc3, w, n0, kk, xv, qv, (i + 1) as nat, eq_var as int, lt_var as int);
                lemma_var_lc_in_range(gc1.a@, eq_var as int, n0 + 3);
                lemma_var_lc_in_range(gc1.b@, x_i_var as int, n0 + 3);
                lemma_var_lc_in_range(gc1.c@, n as int, n0 + 3);
                lemma_in_range_push(cs0, gc1, n0, n0 + 3);
                lemma_var_lc_in_range(gc2.a@, eq_var as int, n0 + 3);
                lemma_one_minus_lc_in_range(gc2.b@, x_i_var as int, n0 + 3);
                lemma_var_lc_in_range(gc2.c@, n + 1, n0 + 3);
                lemma_in_range_push(cs0.push(gc1), gc2, n0 + 3, n0 + 3);
                lemma_one_minus_lc_in_range(gc3.a@, lt_var as int, n0 + 3);
                lemma_one_minus_lc_in_range(gc3.b@, n + 1, n0 + 3);
                lemma_one_minus_lc_in_range(gc3.c@, n + 2, n0 + 3);
                lemma_in_range_push(cs0.push(gc1).push(gc2), gc3, n0 + 3, n0 + 3);
                lemma_bit_products(w[eq_var as int], bit(xv, i as nat) as int);
                assert forall|m: int| 0 <= m < aux@.len() implies {
                    &&& (#[trigger] aux@[m] is Some <==> (x is Some || m == kk || m == kk + 1))
                    &&& (aux@[m] matches Some(f) ==> f.wf() && f@ == w[m + 2])
                } by {
                    if m < aux0.len() {
                        assert(aux@[m] == aux0[m]);
                    }
                }
            }
            eq_var = n;
            eq_val = eq_next;
            lt_var = n + 2;
            lt_val = lt_next;
        }
    }
    proof {
        let n = (aux@.len() + 2) as nat;
        assert(w.subrange(n as int, w.len() as int).len() == 0);
        lemma2_to64();
        if x is Some {
            assert(all_hold(cs@, w) ==> holds(cs@[kk as int], w));
            if xv < pow2(kk) {
                assert(all_hold(cs@, w));
                lemma_high_part_of_bits(w, xv, 0, kk);
            }
        }
        if no_zero_divisors() && kk <= 254 {
            assert forall|z: Seq<int>| admissible(z, n) && #[trigger] all_hold(cs@, z) implies z[lt_var as int]
                == (if z[1] < qv { 1int } else { 0int }) by {
                assert(flags_correct(z, kk, qv, 0, eq_var as int, lt_var as int));
                assert(high_part(z, 0, kk) == z[1]);
                assert(qv / pow2(0) == qv);
            }
            assert forall|z: Seq<int>| admissible(z, n) && #[trigger] all_hold(cs@, z) implies 0 <= z[1] < pow2(kk)
                && forall|j: int| 0 <= j < kk ==> #[trigger] zbit(z, j) == bit(z[1] as nat, j as nat) as int by {
                assert(bits_boolean(z, kk));
                assert(high_part(z, 0, kk) == z[1]);
                lemma_high_part_bound(z, 0, kk);
                lemma_digits_of_high_part(z, 0, kk);
                assert forall|j: int| 0 <= j < kk implies #[trigger] zbit(z, j) == bit(z[1] as nat, j as nat) as int by {
                    assert((j - 0) as nat == j as nat);
                }
            }
        }
    }
    LtCircuit { aux, constraints: cs, output: lt_var }
}

} // verus!
