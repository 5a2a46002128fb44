//! Rank-1 constraints over the Pallas scalar field: linear combinations of
//! variables, where variable `0` is the constant one, and their meaning on
//! an assignment of values to variables.
use crate::field::{fe_neg, fe_one, fmod, modulus, Fe};
use crate::sum::sum;
use vstd::arithmetic::div_mod::*;
use vstd::prelude::*;

verus! {

/// The term `coeff * z[var]` of a linear combination.
#[derive(Clone, Copy, Debug)]
pub struct Term {
    pub var: usize,
    pub coeff: Fe,
}

/// The constraint `<a, z> * <b, z> == <c, z>`.
#[derive(Clone, Debug)]
pub struct Constraint {
    pub a: Vec<Term>,
    pub b: Vec<Term>,
    pub c: Vec<Term>,
}

/// The value of a linear combination on the assignment `z`.
pub open spec fn lc_value(lc: Seq<Term>, z: Seq<int>) -> int {
    sum(lc.len(), |i: int| lc[i].coeff@ * z[lc[i].var as int])
}

/// The constraint holds on `z` modulo the field's modulus.
pub open spec fn holds(c: Constraint, z: Seq<int>) -> bool {
    fmod(lc_value(c.a@, z) * lc_value(c.b@, z)) == fmod(lc_value(c.c@, z))
}

/// Every constraint of `cs` holds on `z`.
pub open spec fn all_hold(cs: Seq<Constraint>, z: Seq<int>) -> bool {
    forall|i: int| 0 <= i < cs.len() ==> holds(#[trigger] cs[i], z)
}

/// The variables of a linear combination are below `n`.
pub open spec fn lc_in_range(lc: Seq<Term>, n: nat) -> bool {
    forall|i: int| 0 <= i < lc.len() ==> (#[trigger] lc[i]).var < n && lc[i].coeff.wf()
}

/// The variables of every constraint are below `n`.
pub open spec fn constraints_in_range(cs: Seq<Constraint>, n: nat) -> bool {
    forall|i: int|
        0 <= i < cs.len() ==> lc_in_range((#[trigger] cs[i]).a@, n) && lc_in_range(cs[i].b@, n)
            && lc_in_range(cs[i].c@, n)
}

/// An assignment with `z[0] == 1`, canonical values and at least `n` variables.
pub open spec fn admissible(z: Seq<int>, n: nat) -> bool {
    &&& z.len() >= n
    &&& z.len() >= 1
    &&& z[0] == 1
    &&& forall|i: int| 0 <= i < z.len() ==> 0 <= #[trigger] z[i] < modulus()
}

/// The field has no zero divisors (the modulus is prime).
pub open spec fn no_zero_divisors() -> bool {
    forall|a: int, b: int|
        #![trigger fmod(a * b)]
        fmod(a * b) == 0 ==> fmod(a) == 0 || fmod(b) == 0
}

/// A linear combination only reads the variables below its range bound.
pub proof fn lemma_lc_value_prefix(lc: Seq<Term>, z: Seq<int>, w: Seq<int>, n: nat)
    requires
        lc_in_range(lc, n),
        z.len() >= n,
        w.len() >= n,
        forall|i: int| 0 <= i < n ==> #[trigger] z[i] == w[i],
    ensures
        lc_value(lc, z) == lc_value(lc, w),
{
    crate::sum::lemma_sum_ext(
        lc.len(),
        |i: int| lc[i].coeff@ * z[lc[i].var as int],
        |i: int| lc[i].coeff@ * w[lc[i].var as int],
    );
}

/// The value of a one-term combination.
pub proof fn lemma_lc_single(t: Term, z: Seq<int>)
    ensures
        lc_value(seq![t], z) == t.coeff@ * z[t.var as int],
{
    let lc = seq![t];
    let f = |i: int| lc[i].coeff@ * z[lc[i].var as int];
    assert(sum(1, f) == sum(0, f) + f(0));
}

/// The value of a two-term combination.
pub proof fn lemma_lc_pair(t: Term, u: Term, z: Seq<int>)
    ensures
        lc_value(seq![t, u], z) == t.coeff@ * z[t.var as int] + u.coeff@ * z[u.var as int],
{
    let lc = seq![t, u];
    let f = |i: int| lc[i].coeff@ * z[lc[i].var as int];
    assert(sum(2, f) == sum(1, f) + f(1));
    assert(sum(1, f) == sum(0, f) + f(0));
}

/// `lc` is the single variable `v` with coefficient one.
pub open spec fn is_var_lc(lc: Seq<Term>, v: int) -> bool {
    &&& lc.len() == 1
    &&& lc[0].var == v
    &&& lc[0].coeff@ == 1
}

/// `lc` is `1 - z[v]`: the constant one, plus `v` with coefficient `q - 1`.
pub open spec fn is_one_minus_lc(lc: Seq<Term>, v: int) -> bool {
    &&& lc.len() == 2
    &&& lc[0].var == 0
    &&& lc[0].coeff@ == 1
    &&& lc[1].var == v
    &&& lc[1].coeff@ == modulus() - 1
}

/// The value of a one-variable combination.
pub proof fn lemma_var_lc(lc: Seq<Term>, v: int, z: Seq<int>)
    requires
        is_var_lc(lc, v),
    ensures
        lc_value(lc, z) == z[v],
{
    assert(lc =~= seq![lc[0]]);
    lemma_lc_single(lc[0], z);
}

/// The value of `1 - z[v]` is congruent to `1 - z[v]`.
pub proof fn lemma_one_minus_lc(lc: Seq<Term>, v: int, z: Seq<int>)
    requires
        is_one_minus_lc(lc, v),
        z.len() >= 1,
        z[0] == 1,
    ensures
        lc_value(lc, z) % (modulus() as int) == (1 - z[v]) % (modulus() as int),
{
    let p = modulus() as int;
    assert(lc =~= seq![lc[0], lc[1]]);
    lemma_lc_pair(lc[0], lc[1], z);
    assert(1 * z[0] + (p - 1) * z[v] == p * z[v] + (1 - z[v])) by (nonlinear_arith)
        requires
            z[0] == 1,
    ;
    lemma_mod_multiples_vanish(z[v], 1 - z[v], p);
}

/// A constraint holds exactly when the product of values congruent to its two
/// left sides is congruent to a value congruent to its right side.
pub proof fn lemma_holds_iff(c: Constraint, z: Seq<int>, a: int, b: int, o: int)
    requires
        lc_value(c.a@, z) % (modulus() as int) == a % (modulus() as int),
        lc_value(c.b@, z) % (modulus() as int) == b % (modulus() as int),
        lc_value(c.c@, z) % (modulus() as int) == o % (modulus() as int),
    ensures
        holds(c, z) <==> fmod(a * b) == fmod(o),
{
    let p = modulus() as int;
    lemma_mul_mod_noop(lc_value(c.a@, z), lc_value(c.b@, z), p);
    lemma_mul_mod_noop(a, b, p);
}

/// Appending a constraint: all hold exactly when the old ones and the new one do.
pub proof fn lemma_all_hold_push(cs: Seq<Constraint>, c: Constraint, z: Seq<int>)
    ensures
        all_hold(cs.push(c), z) <==> all_hold(cs, z) && holds(c, z),
{
    let cs2 = cs.push(c);
    if all_hold(cs2, z) {
        assert forall|m: int| 0 <= m < cs.len() implies holds(#[trigger] cs[m], z) by {
            assert(cs2[m] == cs[m]);
        }
        assert(cs2[cs.len() as int] == c);
    }
    if all_hold(cs, z) && holds(c, z) {
        assert forall|m: int| 0 <= m < cs2.len() implies holds(#[trigger] cs2[m], z) by {
            if m < cs.len() {
                assert(cs2[m] == cs[m]);
            }
        }
    }
}

/// Appending a constraint whose combinations read variables below `n`.
pub proof fn lemma_in_range_push(cs: Seq<Constraint>, c: Constraint, n0: nat, n: nat)
    requires
        constraints_in_range(cs, n0),
        n0 <= n,
        lc_in_range(c.a@, n),
        lc_in_range(c.b@, n),
        lc_in_range(c.c@, n),
    ensures
        constraints_in_range(cs.push(c), n),
{
    let cs2 = cs.push(c);
    assert forall|m: int| 0 <= m < cs2.len() implies lc_in_range((#[trigger] cs2[m]).a@, n)
        && lc_in_range(cs2[m].b@, n) && lc_in_range(cs2[m].c@, n) by {
        if m < cs.len() {
            assert(cs2[m] == cs[m]);
            assert(lc_in_range(cs[m].a@, n0));
        }
    }
}

/// A one-variable combination reads variables below `n` when its variable is.
pub proof fn lemma_var_lc_in_range(lc: Seq<Term>, v: int, n: nat)
    requires
        is_var_lc(lc, v),
        0 <= v < n,
    ensures
        lc_in_range(lc, n),
{
}

/// `1 - z[v]` reads variables below `n` when `v` is below `n`.
pub proof fn lemma_one_minus_lc_in_range(lc: Seq<Term>, v: int, n: nat)
    requires
        is_one_minus_lc(lc, v),
        0 <= v < n,
    ensures
        lc_in_range(lc, n),
{
}

/// The combination `z[var]`.
pub fn lc_var(var: usize) -> (r: Vec<Term>)
    ensures
        is_var_lc(r@, var as int),
        r@[0].coeff.wf(),
{
    let mut r: Vec<Term> = Vec::new();
    r.push(Term { var, coeff: fe_one() });
    r
}

/// The combination `1 - z[var]`.
pub fn lc_one_minus(var: usize) -> (r: Vec<Term>)
    ensures
        is_one_minus_lc(r@, var as int),
        r@[0].coeff.wf(),
        r@[1].coeff.wf(),
{
    let mut r: Vec<Term> = Vec::new();
    let one = fe_one();
    r.push(Term { var: 0, coeff: one });
    let m = fe_neg(&one);
    r.push(Term { var, coeff: m });
    r
}

/// The empty combination, of value zero.
pub fn lc_zero() -> (r: Vec<Term>)
    ensures
        r@.len() == 0,
{
    Vec::new()
}

} // verus!
