//! Small gadgets over a `Circuit`: constants, bits, products, equality and
//! selections.
use crate::field::{fe_eq, fe_invert, fe_mul, fe_neg, fe_one, fe_sub, fe_zero, fmod, modulus, Fe};
use crate::gadgets::circuit::{
    carries, lemma_extends_chain, lemma_has_extends, lemma_lc0, lemma_lc1,
    lemma_lc2, lemma_lc3,
    lemma_minus_one, val, Circuit, Num,
};
use crate::gadgets::r1cs::{
    admissible, all_hold, holds, lemma_holds_iff, no_zero_divisors, Term,
};
use vstd::arithmetic::div_mod::*;
use vstd::arithmetic::mul::*;
use vstd::prelude::*;

verus! {

/// `cs` is `old` with `n` more variables (and possibly more constraints).
pub open spec fn grown(cs: Circuit, old: Circuit, n: nat) -> bool {
    &&& cs.wf()
    &&& cs.extends(old)
    &&& cs.aux@.len() == old.aux@.len() + n
}

/// `v` is a bit.
pub open spec fn is_bit(v: int) -> bool {
    v == 0 || v == 1
}

/// A recorded value, when known, is a bit.
pub open spec fn bit_valued(n: Num) -> bool {
    n.value matches Some(v) ==> is_bit(v@ as int)
}

/// `if c == 1 { a } else { b }`.
pub open spec fn choose_by(c: int, a: int, b: int) -> int {
    if c == 1 {
        a
    } else {
        b
    }
}

/// The constant-one coefficient.
fn one_term(var: usize) -> (r: Term)
    ensures
        r.var == var,
        r.coeff@ == 1,
        r.coeff.wf(),
{
    Term { var, coeff: fe_one() }
}

/// The minus-one coefficient (`q - 1`).
fn minus_term(var: usize) -> (r: Term)
    ensures
        r.var == var,
        r.coeff@ == modulus() - 1,
        r.coeff.wf(),
{
    let one = fe_one();
    Term { var, coeff: fe_neg(&one) }
}

/// The combination `z[v]`.
pub(crate) fn lc_var1(v: usize) -> (r: Vec<Term>)
    ensures
        r@.len() == 1,
        r@[0].var == v,
        r@[0].coeff@ == 1,
{
    let mut r: Vec<Term> = Vec::new();
    r.push(one_term(v));
    r
}

/// The combination `z[v] - z[w]`.
pub(crate) fn lc_sub2(v: usize, w: usize) -> (r: Vec<Term>)
    ensures
        r@.len() == 2,
        r@[0].var == v,
        r@[0].coeff@ == 1,
        r@[1].var == w,
        r@[1].coeff@ == modulus() - 1,
{
    let mut r: Vec<Term> = Vec::new();
    r.push(one_term(v));
    r.push(minus_term(w));
    r
}

/// The combination `z[u] - z[v] + z[w]`.
fn lc_sub_add3(u: usize, v: usize, w: usize) -> (r: Vec<Term>)
    ensures
        r@.len() == 3,
        r@[0].var == u,
        r@[0].coeff@ == 1,
        r@[1].var == v,
        r@[1].coeff@ == modulus() - 1,
        r@[2].var == w,
        r@[2].coeff@ == 1,
{
    let mut r: Vec<Term> = Vec::new();
    r.push(one_term(u));
    r.push(minus_term(v));
    r.push(one_term(w));
    r
}

/// The combination `z[v] + z[w]`.
pub(crate) fn lc_add2(v: usize, w: usize) -> (r: Vec<Term>)
    ensures
        r@.len() == 2,
        r@[0].var == v,
        r@[0].coeff@ == 1,
        r@[1].var == w,
        r@[1].coeff@ == 1,
{
    let mut r: Vec<Term> = Vec::new();
    r.push(one_term(v));
    r.push(one_term(w));
    r
}

/// The combination `z[u] + z[v] + z[w]`.
pub(crate) fn lc_add3(u: usize, v: usize, w: usize) -> (r: Vec<Term>)
    ensures
        r@.len() == 3,
        r@[0].var == u,
        r@[0].coeff@ == 1,
        r@[1].var == v,
        r@[1].coeff@ == 1,
        r@[2].var == w,
        r@[2].coeff@ == 1,
{
    let mut r: Vec<Term> = Vec::new();
    r.push(one_term(u));
    r.push(one_term(v));
    r.push(one_term(w));
    r
}

/// The combination `c z[v]`.
pub(crate) fn lc_scaled1(v: usize, c: Fe) -> (r: Vec<Term>)
    ensures
        r@.len() == 1,
        r@[0].var == v,
        r@[0].coeff == c,
{
    let mut r: Vec<Term> = Vec::new();
    r.push(Term { var: v, coeff: c });
    r
}

/// The combination `c z[v] + d z[w]`.
pub(crate) fn lc_scaled2(v: usize, c: Fe, w: usize, d: Fe) -> (r: Vec<Term>)
    ensures
        r@.len() == 2,
        r@[0].var == v,
        r@[0].coeff == c,
        r@[1].var == w,
        r@[1].coeff == d,
{
    let mut r: Vec<Term> = Vec::new();
    r.push(Term { var: v, coeff: c });
    r.push(Term { var: w, coeff: d });
    r
}

/// Exactly three constraints were added: the added constraints hold when
/// all three do.
pub proof fn lemma_added_three(c0: Circuit, c1: Circuit, z: Seq<int>)
    requires
        c1.extends(c0),
        c1.constraints@.len() == c0.constraints@.len() + 3,
    ensures
        all_hold(c1.added(c0), z) <==> holds(c1.constraints@[c0.constraints@.len() as int], z) && holds(
            c1.constraints@[c0.constraints@.len() as int + 1],
            z,
        ) && holds(c1.constraints@[c0.constraints@.len() as int + 2], z),
{
    let n = c0.constraints@.len() as int;
    let a = c1.added(c0);
    assert(a =~= seq![c1.constraints@[n], c1.constraints@[n + 1], c1.constraints@[n + 2]]);
    if holds(a[0], z) && holds(a[1], z) && holds(a[2], z) {
        assert forall|m: int| 0 <= m < a.len() implies holds(#[trigger] a[m], z) by {}
    }
}

/// Allocates the constant zero, constrained by `0 * 0 = z`.
pub fn alloc_zero(cs: &mut Circuit) -> (r: Num)
    requires
        old(cs).wf(),
        old(cs).room(1),
    ensures
        grown(*final(cs), *old(cs), 1),
        final(cs).has(r),
        old(cs).num_vars() <= r.var,
        r.value is Some,
        val(r) == 0,
        forall|z: Seq<int>|
            admissible(z, final(cs).num_vars()) && #[trigger] final(cs).agrees_since(*old(cs), z)
                ==> all_hold(final(cs).added(*old(cs)), z),
        forall|z: Seq<int>|
            admissible(z, final(cs).num_vars()) && #[trigger] all_hold(final(cs).added(*old(cs)), z)
                ==> z[r.var as int] == 0,
{
    let ghost c0 = *cs;
    let r = cs.alloc_var(Some(fe_zero()));
    let c = lc_var1(r.var);
    cs.enforce(Vec::new(), Vec::new(), c);
    proof {
        let added = cs.added(c0);
        assert(added =~= seq![cs.constraints@.last()]);
        let con = cs.constraints@.last();
        assert forall|z: Seq<int>| admissible(z, cs.num_vars()) implies (holds(con, z) <==> z[r.var
            as int] == 0) by {
            lemma_lc0(con.a@, z);
            lemma_lc0(con.b@, z);
            lemma_lc1(con.c@, z, 1);
            lemma_holds_iff(con, z, 0, 0, z[r.var as int]);
        }
        assert forall|z: Seq<int>| admissible(z, cs.num_vars()) && #[trigger] cs.agrees_since(c0, z)
            implies all_hold(cs.added(c0), z) by {
            assert(cs.aux@[r.var - 1] == r.value);
        }
        assert forall|z: Seq<int>| admissible(z, cs.num_vars()) && #[trigger] all_hold(cs.added(c0), z)
            implies z[r.var as int] == 0 by {
            assert(added[0] == con);
            assert(holds(con, z));
        }
    }
    r
}


/// Exactly one constraint was added: the added constraints hold when it does.
pub proof fn lemma_added_one(c0: Circuit, c1: Circuit, z: Seq<int>)
    requires
        c1.extends(c0),
        c1.constraints@.len() == c0.constraints@.len() + 1,
    ensures
        c1.added(c0) == seq![c1.constraints@.last()],
        all_hold(c1.added(c0), z) <==> holds(c1.constraints@.last(), z),
{
    let a = c1.added(c0);
    assert(a =~= seq![c1.constraints@.last()]);
    if all_hold(a, z) {
        assert(holds(a[0], z));
    }
    if holds(c1.constraints@.last(), z) {
        assert forall|m: int| 0 <= m < a.len() implies holds(#[trigger] a[m], z) by {}
    }
}

/// Exactly two constraints were added: the added constraints hold when both do.
pub proof fn lemma_added_two(c0: Circuit, c1: Circuit, z: Seq<int>)
    requires
        c1.extends(c0),
        c1.constraints@.len() == c0.constraints@.len() + 2,
    ensures
        all_hold(c1.added(c0), z) <==> holds(
            c1.constraints@[c0.constraints@.len() as int],
            z,
        ) && holds(c1.constraints@.last(), z),
{
    let a = c1.added(c0);
    assert(a =~= seq![c1.constraints@[c0.constraints@.len() as int], c1.constraints@.last()]);
    if holds(a[0], z) && holds(a[1], z) {
        assert forall|m: int| 0 <= m < a.len() implies holds(#[trigger] a[m], z) by {}
    }
}

/// Allocates the constant one, constrained by `1 * 1 = z`.
pub fn alloc_one(cs: &mut Circuit) -> (r: Num)
    requires
        old(cs).wf(),
        old(cs).room(1),
    ensures
        grown(*final(cs), *old(cs), 1),
        final(cs).has(r),
        old(cs).num_vars() <= r.var,
        r.value is Some,
        val(r) == 1,
        forall|z: Seq<int>|
            admissible(z, final(cs).num_vars()) && #[trigger] final(cs).agrees_since(*old(cs), z)
                ==> all_hold(final(cs).added(*old(cs)), z),
        forall|z: Seq<int>|
            admissible(z, final(cs).num_vars()) && #[trigger] all_hold(final(cs).added(*old(cs)), z)
                ==> z[r.var as int] == 1,
{
    let ghost c0 = *cs;
    let r = cs.alloc_var(Some(fe_one()));
    let a = lc_var1(0);
    let b = lc_var1(0);
    let c = lc_var1(r.var);
    let ghost (ga, gb, gc) = (a@, b@, c@);
    cs.enforce(a, b, c);
    proof {
        assert(cs.constraints@.last().a@ == ga && cs.constraints@.last().b@ == gb && cs.constraints@.last().c@ == gc);
        let con = cs.constraints@.last();
        assert forall|z: Seq<int>| admissible(z, cs.num_vars()) implies (holds(con, z) <==> z[r.var
            as int] == 1) && (all_hold(cs.added(c0), z) <==> holds(con, z)) by {
            lemma_added_one(c0, *cs, z);
            lemma_lc1(con.a@, z, 1);
            lemma_lc1(con.b@, z, 1);
            lemma_lc1(con.c@, z, 1);
            lemma_holds_iff(con, z, 1, 1, z[r.var as int]);
        }
        assert forall|z: Seq<int>| admissible(z, cs.num_vars()) && #[trigger] cs.agrees_since(c0, z)
            implies all_hold(cs.added(c0), z) by {
            assert(cs.aux@[r.var - 1] == r.value);
        }
        assert forall|z: Seq<int>| admissible(z, cs.num_vars()) && #[trigger] all_hold(cs.added(c0), z)
            implies z[r.var as int] == 1 by {
            assert(holds(con, z));
        }
    }
    r
}

/// Allocates a bit (`AllocatedBit::alloc`), constrained by `(1 - b) * b = 0`.
pub fn alloc_bit(cs: &mut Circuit, value: Option<bool>) -> (r: Num)
    requires
        old(cs).wf(),
        old(cs).room(1),
    ensures
        grown(*final(cs), *old(cs), 1),
        final(cs).has(r),
        old(cs).num_vars() <= r.var,
        r.value is Some <==> value is Some,
        bit_valued(r),
        value == Some(true) ==> val(r) == 1,
        value == Some(false) ==> val(r) == 0,
        forall|z: Seq<int>|
            admissible(z, final(cs).num_vars()) && #[trigger] final(cs).agrees_since(*old(cs), z)
                ==> all_hold(final(cs).added(*old(cs)), z),
        no_zero_divisors() ==> forall|z: Seq<int>|
            admissible(z, final(cs).num_vars()) && #[trigger] all_hold(final(cs).added(*old(cs)), z)
                ==> is_bit(z[r.var as int]),
{
    let ghost c0 = *cs;
    let v = match value {
        Some(b) => if b {
            Some(fe_one())
        } else {
            Some(fe_zero())
        },
        None => None,
    };
    let r = cs.alloc_var(v);
    let a = lc_sub2(0, r.var);
    let b = lc_var1(r.var);
    let ghost (ga, gb) = (a@, b@);
    cs.enforce(a, b, Vec::new());
    proof {
        assert(cs.constraints@.last().a@ == ga && cs.constraints@.last().b@ == gb);
        lemma_minus_one();
        let con = cs.constraints@.last();
        let x = r.var as int;
        assert forall|z: Seq<int>| admissible(z, cs.num_vars()) implies (holds(con, z) <==> fmod(
            (1 - z[x]) * z[x],
        ) == 0) && (all_hold(cs.added(c0), z) <==> holds(con, z)) by {
            lemma_added_one(c0, *cs, z);
            lemma_lc2(con.a@, z, 1, -1);
            lemma_lc1(con.b@, z, 1);
            lemma_lc0(con.c@, z);
            lemma_holds_iff(con, z, 1 - z[x], z[x], 0);
        }
        assert forall|z: Seq<int>| admissible(z, cs.num_vars()) && #[trigger] cs.agrees_since(c0, z)
            implies all_hold(cs.added(c0), z) by {
            assert(cs.aux@[r.var - 1] == r.value);
            assert((1 - z[x]) * z[x] == 0) by (nonlinear_arith)
                requires
                    z[x] == 0 || z[x] == 1,
            ;
        }
        if no_zero_divisors() {
            assert forall|z: Seq<int>| admissible(z, cs.num_vars()) && #[trigger] all_hold(cs.added(c0), z)
                implies is_bit(z[x]) by {
                assert(holds(con, z));
                assert(fmod((1 - z[x]) * z[x]) == 0);
                assert((1 - z[x]) * z[x] == z[x] * (1 - z[x])) by (nonlinear_arith);
            }
        }
    }
    r
}

/// The product of two variables (`AllocatedNum::mul`), constrained by `a * b = r`.
pub fn mul_num(cs: &mut Circuit, a: Num, b: Num) -> (r: Num)
    requires
        old(cs).wf(),
        old(cs).room(1),
        old(cs).has(a),
        old(cs).has(b),
    ensures
        grown(*final(cs), *old(cs), 1),
        final(cs).has(r),
        old(cs).num_vars() <= r.var,
        r.value is Some <==> a.value is Some && b.value is Some,
        r.value is Some ==> val(r) == fmod(val(a) * val(b)),
        forall|z: Seq<int>|
            admissible(z, final(cs).num_vars()) && carries(z, a) && carries(z, b)
                && #[trigger] final(cs).agrees_since(*old(cs), z) ==> all_hold(
                final(cs).added(*old(cs)),
                z,
            ),
        forall|z: Seq<int>|
            admissible(z, final(cs).num_vars()) && #[trigger] all_hold(final(cs).added(*old(cs)), z)
                ==> z[r.var as int] == fmod(z[a.var as int] * z[b.var as int]),
{
    let ghost c0 = *cs;
    let v = match (a.value, b.value) {
        (Some(x), Some(y)) => Some(fe_mul(&x, &y)),
        _ => None,
    };
    proof {
        assert(a.value matches Some(x) ==> x.wf()) by {
            assert(old(cs).aux@[a.var - 1] == a.value);
        }
        assert(b.value matches Some(y) ==> y.wf()) by {
            assert(old(cs).aux@[b.var - 1] == b.value);
        }
    }
    let r = cs.alloc_var(v);
    let la = lc_var1(a.var);
    let lb = lc_var1(b.var);
    let lc = lc_var1(r.var);
    let ghost (ga, gb, gc) = (la@, lb@, lc@);
    cs.enforce(la, lb, lc);
    proof {
        assert(cs.constraints@.last().a@ == ga && cs.constraints@.last().b@ == gb && cs.constraints@.last().c@ == gc);
        let con = cs.constraints@.last();
        let (xa, xb, xr) = (a.var as int, b.var as int, r.var as int);
        assert forall|z: Seq<int>| admissible(z, cs.num_vars()) implies (holds(con, z) <==> fmod(
            z[xa] * z[xb],
        ) == fmod(z[xr])) && (all_hold(cs.added(c0), z) <==> holds(con, z)) by {
            lemma_added_one(c0, *cs, z);
            lemma_lc1(con.a@, z, 1);
            lemma_lc1(con.b@, z, 1);
            lemma_lc1(con.c@, z, 1);
            lemma_holds_iff(con, z, z[xa], z[xb], z[xr]);
        }
        assert forall|z: Seq<int>|
            admissible(z, cs.num_vars()) && carries(z, a) && carries(z, b)
                && #[trigger] cs.agrees_since(c0, z) implies all_hold(cs.added(c0), z) by {
            assert(cs.aux@[r.var - 1] == r.value);
        }
        assert forall|z: Seq<int>| admissible(z, cs.num_vars()) && #[trigger] all_hold(cs.added(c0), z)
            implies z[r.var as int] == fmod(z[a.var as int] * z[b.var as int]) by {
            assert(holds(con, z));
        }
    }
    r
}

/// The square of a variable (`AllocatedNum::square`), constrained by `a * a = r`.
pub fn square(cs: &mut Circuit, a: Num) -> (r: Num)
    requires
        old(cs).wf(),
        old(cs).room(1),
        old(cs).has(a),
    ensures
        grown(*final(cs), *old(cs), 1),
        final(cs).has(r),
        old(cs).num_vars() <= r.var,
        r.value is Some <==> a.value is Some,
        r.value is Some ==> val(r) == fmod(val(a) * val(a)),
        forall|z: Seq<int>|
            admissible(z, final(cs).num_vars()) && carries(z, a)
                && #[trigger] final(cs).agrees_since(*old(cs), z) ==> all_hold(
                final(cs).added(*old(cs)),
                z,
            ),
        forall|z: Seq<int>|
            admissible(z, final(cs).num_vars()) && #[trigger] all_hold(final(cs).added(*old(cs)), z)
                ==> z[r.var as int] == fmod(z[a.var as int] * z[a.var as int]),
{
    mul_num(cs, a, a)
}


/// The recorded value of a variable is canonical.
pub proof fn lemma_has_wf(cs: Circuit, n: Num)
    requires
        cs.wf(),
        cs.has(n),
    ensures
        n.value matches Some(v) ==> v.wf(),
        0 <= val(n) < modulus(),
{
    assert(cs.aux@[n.var - 1] == n.value);
}

/// Canonical values whose differences with a third are congruent are equal.
pub proof fn lemma_canonical_shift(u: int, v: int, w: int)
    requires
        0 <= u < modulus(),
        0 <= v < modulus(),
        fmod(u - w) == fmod(v - w),
    ensures
        u == v,
{
    let p = modulus() as int;
    lemma_fundamental_div_mod(u - w, p);
    lemma_fundamental_div_mod(v - w, p);
    lemma_mul_is_distributive_sub(p, (u - w) / p, (v - w) / p);
    if (u - w) / p != (v - w) / p {
        if (u - w) / p > (v - w) / p {
            lemma_mul_inequality((v - w) / p + 1, (u - w) / p, p);
        } else {
            lemma_mul_inequality((u - w) / p + 1, (v - w) / p, p);
        }
        lemma_mul_is_distributive_add(p, (v - w) / p, 1);
        lemma_mul_is_distributive_add(p, (u - w) / p, 1);
        lemma_mul_is_commutative(p, (v - w) / p + 1);
        lemma_mul_is_commutative(p, (u - w) / p + 1);
        lemma_mul_is_commutative(p, (u - w) / p);
        lemma_mul_is_commutative(p, (v - w) / p);
    }
}

/// Multiplying by a bit selects.
pub proof fn lemma_mul_bit(x: int, c: int)
    requires
        is_bit(c),
    ensures
        x * c == choose_by(c, x, 0),
        c * x == choose_by(c, x, 0),
        x * (1 - c) == choose_by(c, 0, x),
{
    assert(x * c == choose_by(c, x, 0) && c * x == choose_by(c, x, 0) && x * (1 - c) == choose_by(c, 0, x))
        by (nonlinear_arith)
        requires
            c == 0 || c == 1,
    ;
}

/// Distinct canonical values have a difference that is not congruent to zero.
pub proof fn lemma_distinct_nonzero(u: int, v: int)
    requires
        0 <= u < modulus(),
        0 <= v < modulus(),
        u != v,
    ensures
        fmod(u - v) != 0,
{
    if fmod(u - v) == 0 {
        assert(fmod(v - v) == 0);
        lemma_canonical_shift(u, v, v);
    }
}

/// The recorded value of a bit-valued condition, compared with one.
fn cond_is_one(c: Fe) -> (r: bool)
    requires
        c.wf(),
    ensures
        r == (c@ == 1),
{
    let one = fe_one();
    fe_eq(&c, &one)
}

/// `a` if the bit `cond` is set, else `b`, constrained by
/// `(a - b) * cond = r - b`.
pub fn conditionally_select(cs: &mut Circuit, a: Num, b: Num, cond: Num) -> (r: Num)
    requires
        old(cs).wf(),
        old(cs).room(1),
        old(cs).has(a),
        old(cs).has(b),
        old(cs).has(cond),
        bit_valued(cond),
    ensures
        grown(*final(cs), *old(cs), 1),
        final(cs).has(r),
        old(cs).num_vars() <= r.var,
        cond.value is Some && a.value is Some && b.value is Some ==> r.value is Some,
        r.value is Some ==> val(r) == choose_by(val(cond), val(a), val(b)),
        r.value == (match cond.value {
            Some(c) => if c@ == 1 {
                a.value
            } else {
                b.value
            },
            None => None,
        }),
        forall|z: Seq<int>|
            admissible(z, final(cs).num_vars()) && carries(z, a) && carries(z, b) && carries(z, cond)
                && #[trigger] final(cs).agrees_since(*old(cs), z) ==> all_hold(
                final(cs).added(*old(cs)),
                z,
            ),
        forall|z: Seq<int>|
            admissible(z, final(cs).num_vars()) && #[trigger] all_hold(final(cs).added(*old(cs)), z)
                && is_bit(z[cond.var as int]) ==> z[r.var as int] == choose_by(
                z[cond.var as int],
                z[a.var as int],
                z[b.var as int],
            ),
{
    let ghost c0 = *cs;
    proof {
        lemma_has_wf(c0, a);
        lemma_has_wf(c0, b);
        lemma_has_wf(c0, cond);
    }
    let v = match cond.value {
        Some(c) => if cond_is_one(c) {
            a.value
        } else {
            b.value
        },
        None => None,
    };
    let r = cs.alloc_var(v);
    let la = lc_sub2(a.var, b.var);
    let lb = lc_var1(cond.var);
    let lc = lc_sub2(r.var, b.var);
    let ghost (ga, gb, gc) = (la@, lb@, lc@);
    cs.enforce(la, lb, lc);
    proof {
        assert(cs.constraints@.last().a@ == ga && cs.constraints@.last().b@ == gb && cs.constraints@.last().c@ == gc);
        lemma_minus_one();
        let con = cs.constraints@.last();
        let (xa, xb, xc, xr) = (a.var as int, b.var as int, cond.var as int, r.var as int);
        assert forall|z: Seq<int>| admissible(z, cs.num_vars()) implies (holds(con, z) <==> fmod(
            (z[xa] - z[xb]) * z[xc],
        ) == fmod(z[xr] - z[xb])) && (all_hold(cs.added(c0), z) <==> holds(con, z)) by {
            lemma_added_one(c0, *cs, z);
            lemma_lc2(con.a@, z, 1, -1);
            lemma_lc1(con.b@, z, 1);
            lemma_lc2(con.c@, z, 1, -1);
            lemma_holds_iff(con, z, z[xa] - z[xb], z[xc], z[xr] - z[xb]);
        }
        assert forall|z: Seq<int>|
            admissible(z, cs.num_vars()) && carries(z, a) && carries(z, b) && carries(z, cond)
                && #[trigger] cs.agrees_since(c0, z) implies all_hold(cs.added(c0), z) by {
            assert(cs.aux@[r.var - 1] == r.value);
            lemma_mul_bit(z[xa] - z[xb], z[xc]);
        }
        assert forall|z: Seq<int>|
            admissible(z, cs.num_vars()) && #[trigger] all_hold(cs.added(c0), z) && is_bit(z[xc])
                implies z[xr] == choose_by(z[xc], z[xa], z[xb]) by {
            lemma_added_one(c0, *cs, z);
            assert(holds(cs.constraints@.last(), z));
            lemma_mul_bit(z[xa] - z[xb], z[xc]);
            if z[xc] == 1 {
                lemma_canonical_shift(z[xr], z[xa], z[xb]);
            } else {
                lemma_canonical_shift(z[xr], z[xb], z[xb]);
            }
        }
    }
    r
}

/// `a` if the bit `cond` is set, else zero, constrained by `a * cond = r`.
pub fn select_num_or_zero(cs: &mut Circuit, a: Num, cond: Num) -> (r: Num)
    requires
        old(cs).wf(),
        old(cs).room(1),
        old(cs).has(a),
        old(cs).has(cond),
        bit_valued(cond),
    ensures
        grown(*final(cs), *old(cs), 1),
        final(cs).has(r),
        old(cs).num_vars() <= r.var,
        cond.value is Some && a.value is Some ==> r.value is Some,
        r.value is Some ==> val(r) == choose_by(val(cond), val(a), 0),
        forall|z: Seq<int>|
            admissible(z, final(cs).num_vars()) && carries(z, a) && carries(z, cond)
                && #[trigger] final(cs).agrees_since(*old(cs), z) ==> all_hold(
                final(cs).added(*old(cs)),
                z,
            ),
        forall|z: Seq<int>|
            admissible(z, final(cs).num_vars()) && #[trigger] all_hold(final(cs).added(*old(cs)), z)
                && is_bit(z[cond.var as int]) ==> z[r.var as int] == choose_by(
                z[cond.var as int],
                z[a.var as int],
                0,
            ),
{
    let ghost c0 = *cs;
    proof {
        lemma_has_wf(c0, a);
        lemma_has_wf(c0, cond);
    }
    let v = match cond.value {
        Some(c) => if cond_is_one(c) {
            a.value
        } else {
            Some(fe_zero())
        },
        None => None,
    };
    let r = cs.alloc_var(v);
    let la = lc_var1(a.var);
    let lb = lc_var1(cond.var);
    let lc = lc_var1(r.var);
    let ghost (ga, gb, gc) = (la@, lb@, lc@);
    cs.enforce(la, lb, lc);
    proof {
        assert(cs.constraints@.last().a@ == ga && cs.constraints@.last().b@ == gb && cs.constraints@.last().c@ == gc);
        let con = cs.constraints@.last();
        let (xa, xc, xr) = (a.var as int, cond.var as int, r.var as int);
        assert forall|z: Seq<int>| admissible(z, cs.num_vars()) implies (holds(con, z) <==> fmod(
            z[xa] * z[xc],
        ) == fmod(z[xr])) && (all_hold(cs.added(c0), z) <==> holds(con, z)) by {
            lemma_added_one(c0, *cs, z);
            lemma_lc1(con.a@, z, 1);
            lemma_lc1(con.b@, z, 1);
            lemma_lc1(con.c@, z, 1);
            lemma_holds_iff(con, z, z[xa], z[xc], z[xr]);
        }
        assert forall|z: Seq<int>|
            admissible(z, cs.num_vars()) && carries(z, a) && carries(z, cond)
                && #[trigger] cs.agrees_since(c0, z) implies all_hold(cs.added(c0), z) by {
            assert(cs.aux@[r.var - 1] == r.value);
            lemma_mul_bit(z[xa], z[xc]);
        }
        assert forall|z: Seq<int>|
            admissible(z, cs.num_vars()) && #[trigger] all_hold(cs.added(c0), z) && is_bit(z[xc])
                implies z[xr] == choose_by(z[xc], z[xa], 0) by {
            lemma_added_one(c0, *cs, z);
            assert(holds(cs.constraints@.last(), z));
            lemma_mul_bit(z[xa], z[xc]);
            lemma_canonical_shift(z[xr], choose_by(z[xc], z[xa], 0), 0);
        }
    }
    r
}

/// `a` if the bit `cond` is set, else one, constrained by
/// `(a - 1) * cond = r - 1`.
pub fn select_num_or_one(cs: &mut Circuit, a: Num, cond: Num) -> (r: Num)
    requires
        old(cs).wf(),
        old(cs).room(1),
        old(cs).has(a),
        old(cs).has(cond),
        bit_valued(cond),
    ensures
        grown(*final(cs), *old(cs), 1),
        final(cs).has(r),
        old(cs).num_vars() <= r.var,
        cond.value is Some && a.value is Some ==> r.value is Some,
        r.value is Some ==> val(r) == choose_by(val(cond), val(a), 1),
        forall|z: Seq<int>|
            admissible(z, final(cs).num_vars()) && carries(z, a) && carries(z, cond)
                && #[trigger] final(cs).agrees_since(*old(cs), z) ==> all_hold(
                final(cs).added(*old(cs)),
                z,
            ),
        forall|z: Seq<int>|
            admissible(z, final(cs).num_vars()) && #[trigger] all_hold(final(cs).added(*old(cs)), z)
                && is_bit(z[cond.var as int]) ==> z[r.var as int] == choose_by(
                z[cond.var as int],
                z[a.var as int],
                1,
            ),
{
    let ghost c0 = *cs;
    proof {
        lemma_has_wf(c0, a);
        lemma_has_wf(c0, cond);
    }
    let v = match cond.value {
        Some(c) => if cond_is_one(c) {
            a.value
        } else {
            Some(fe_one())
        },
        None => None,
    };
    let r = cs.alloc_var(v);
    let la = lc_sub2(a.var, 0);
    let lb = lc_var1(cond.var);
    let lc = lc_sub2(r.var, 0);
    let ghost (ga, gb, gc) = (la@, lb@, lc@);
    cs.enforce(la, lb, lc);
    proof {
        assert(cs.constraints@.last().a@ == ga && cs.constraints@.last().b@ == gb && cs.constraints@.last().c@ == gc);
        lemma_minus_one();
        let con = cs.constraints@.last();
        let (xa, xc, xr) = (a.var as int, cond.var as int, r.var as int);
        assert forall|z: Seq<int>| admissible(z, cs.num_vars()) implies (holds(con, z) <==> fmod(
            (z[xa] - 1) * z[xc],
        ) == fmod(z[xr] - 1)) && (all_hold(cs.added(c0), z) <==> holds(con, z)) by {
            lemma_added_one(c0, *cs, z);
            lemma_lc2(con.a@, z, 1, -1);
            lemma_lc1(con.b@, z, 1);
            lemma_lc2(con.c@, z, 1, -1);
            lemma_holds_iff(con, z, z[xa] - 1, z[xc], z[xr] - 1);
        }
        assert forall|z: Seq<int>|
            admissible(z, cs.num_vars()) && carries(z, a) && carries(z, cond)
                && #[trigger] cs.agrees_since(c0, z) implies all_hold(cs.added(c0), z) by {
            assert(cs.aux@[r.var - 1] == r.value);
            lemma_mul_bit(z[xa] - 1, z[xc]);
        }
        assert forall|z: Seq<int>|
            admissible(z, cs.num_vars()) && #[trigger] all_hold(cs.added(c0), z) && is_bit(z[xc])
                implies z[xr] == choose_by(z[xc], z[xa], 1) by {
            lemma_added_one(c0, *cs, z);
            assert(holds(cs.constraints@.last(), z));
            lemma_mul_bit(z[xa] - 1, z[xc]);
            lemma_canonical_shift(z[xr], choose_by(z[xc], z[xa], 1), 1);
        }
    }
    r
}

/// Zero if the bit `cond` is set, else `a`, constrained by
/// `a * (1 - cond) = r`.
pub fn select_zero_or_num2(cs: &mut Circuit, a: Num, cond: Num) -> (r: Num)
    requires
        old(cs).wf(),
        old(cs).room(1),
        old(cs).has(a),
        old(cs).has(cond),
        bit_valued(cond),
    ensures
        grown(*final(cs), *old(cs), 1),
        final(cs).has(r),
        old(cs).num_vars() <= r.var,
        cond.value is Some && a.value is Some ==> r.value is Some,
        r.value is Some ==> val(r) == choose_by(val(cond), 0, val(a)),
        forall|z: Seq<int>|
            admissible(z, final(cs).num_vars()) && carries(z, a) && carries(z, cond)
                && #[trigger] final(cs).agrees_since(*old(cs), z) ==> all_hold(
                final(cs).added(*old(cs)),
                z,
            ),
        forall|z: Seq<int>|
            admissible(z, final(cs).num_vars()) && #[trigger] all_hold(final(cs).added(*old(cs)), z)
                && is_bit(z[cond.var as int]) ==> z[r.var as int] == choose_by(
                z[cond.var as int],
                0,
                z[a.var as int],
            ),
{
    let ghost c0 = *cs;
    proof {
        lemma_has_wf(c0, a);
        lemma_has_wf(c0, cond);
    }
    let v = match cond.value {
        Some(c) => if cond_is_one(c) {
            Some(fe_zero())
        } else {
            a.value
        },
        None => None,
    };
    let r = cs.alloc_var(v);
    let la = lc_var1(a.var);
    let lb = lc_sub2(0, cond.var);
    let lc = lc_var1(r.var);
    let ghost (ga, gb, gc) = (la@, lb@, lc@);
    cs.enforce(la, lb, lc);
    proof {
        assert(cs.constraints@.last().a@ == ga && cs.constraints@.last().b@ == gb && cs.constraints@.last().c@ == gc);
        lemma_minus_one();
        let con = cs.constraints@.last();
        let (xa, xc, xr) = (a.var as int, cond.var as int, r.var as int);
        assert forall|z: Seq<int>| admissible(z, cs.num_vars()) implies (holds(con, z) <==> fmod(
            z[xa] * (1 - z[xc]),
        ) == fmod(z[xr])) && (all_hold(cs.added(c0), z) <==> holds(con, z)) by {
            lemma_added_one(c0, *cs, z);
            lemma_lc1(con.a@, z, 1);
            lemma_lc2(con.b@, z, 1, -1);
            lemma_lc1(con.c@, z, 1);
            lemma_holds_iff(con, z, z[xa], 1 - z[xc], z[xr]);
        }
        assert forall|z: Seq<int>|
            admissible(z, cs.num_vars()) && carries(z, a) && carries(z, cond)
                && #[trigger] cs.agrees_since(c0, z) implies all_hold(cs.added(c0), z) by {
            assert(cs.aux@[r.var - 1] == r.value);
            lemma_mul_bit(z[xa], z[xc]);
        }
        assert forall|z: Seq<int>|
            admissible(z, cs.num_vars()) && #[trigger] all_hold(cs.added(c0), z) && is_bit(z[xc])
                implies z[xr] == choose_by(z[xc], 0, z[xa]) by {
            lemma_added_one(c0, *cs, z);
            assert(holds(cs.constraints@.last(), z));
            lemma_mul_bit(z[xa], z[xc]);
            lemma_canonical_shift(z[xr], choose_by(z[xc], 0, z[xa]), 0);
        }
    }
    r
}

/// One if the bit `cond` is set, else `a`, constrained by
/// `(1 - a) * cond = r - a`.
pub fn select_one_or_num2(cs: &mut Circuit, a: Num, cond: Num) -> (r: Num)
    requires
        old(cs).wf(),
        old(cs).room(1),
        old(cs).has(a),
        old(cs).has(cond),
        bit_valued(cond),
    ensures
        grown(*final(cs), *old(cs), 1),
        final(cs).has(r),
        old(cs).num_vars() <= r.var,
        cond.value is Some && a.value is Some ==> r.value is Some,
        r.value is Some ==> val(r) == choose_by(val(cond), 1, val(a)),
        forall|z: Seq<int>|
            admissible(z, final(cs).num_vars()) && carries(z, a) && carries(z, cond)
                && #[trigger] final(cs).agrees_since(*old(cs), z) ==> all_hold(
                final(cs).added(*old(cs)),
                z,
            ),
        forall|z: Seq<int>|
            admissible(z, final(cs).num_vars()) && #[trigger] all_hold(final(cs).added(*old(cs)), z)
                && is_bit(z[cond.var as int]) ==> z[r.var as int] == choose_by(
                z[cond.var as int],
                1,
                z[a.var as int],
            ),
{
    let ghost c0 = *cs;
    proof {
        lemma_has_wf(c0, a);
        lemma_has_wf(c0, cond);
    }
    let v = match cond.value {
        Some(c) => if cond_is_one(c) {
            Some(fe_one())
        } else {
            a.value
        },
        None => None,
    };
    let r = cs.alloc_var(v);
    let la = lc_sub2(0, a.var);
    let lb = lc_var1(cond.var);
    let lc = lc_sub2(r.var, a.var);
    let ghost (ga, gb, gc) = (la@, lb@, lc@);
    cs.enforce(la, lb, lc);
    proof {
        assert(cs.constraints@.last().a@ == ga && cs.constraints@.last().b@ == gb && cs.constraints@.last().c@ == gc);
        lemma_minus_one();
        let con = cs.constraints@.last();
        let (xa, xc, xr) = (a.var as int, cond.var as int, r.var as int);
        assert forall|z: Seq<int>| admissible(z, cs.num_vars()) implies (holds(con, z) <==> fmod(
            (1 - z[xa]) * z[xc],
        ) == fmod(z[xr] - z[xa])) && (all_hold(cs.added(c0), z) <==> holds(con, z)) by {
            lemma_added_one(c0, *cs, z);
            lemma_lc2(con.a@, z, 1, -1);
            lemma_lc1(con.b@, z, 1);
            lemma_lc2(con.c@, z, 1, -1);
            lemma_holds_iff(con, z, 1 - z[xa], z[xc], z[xr] - z[xa]);
        }
        assert forall|z: Seq<int>|
            admissible(z, cs.num_vars()) && carries(z, a) && carries(z, cond)
                && #[trigger] cs.agrees_since(c0, z) implies all_hold(cs.added(c0), z) by {
            assert(cs.aux@[r.var - 1] == r.value);
            lemma_mul_bit(1 - z[xa], z[xc]);
        }
        assert forall|z: Seq<int>|
            admissible(z, cs.num_vars()) && #[trigger] all_hold(cs.added(c0), z) && is_bit(z[xc])
                implies z[xr] == choose_by(z[xc], 1, z[xa]) by {
            lemma_added_one(c0, *cs, z);
            assert(holds(cs.constraints@.last(), z));
            lemma_mul_bit(1 - z[xa], z[xc]);
            lemma_canonical_shift(z[xr], choose_by(z[xc], 1, z[xa]), z[xa]);
        }
    }
    r
}

/// One if the bit `cond` is set, else `a - b`, constrained by
/// `(1 - a + b) * cond = r - a + b`.
pub fn select_one_or_diff2(cs: &mut Circuit, a: Num, b: Num, cond: Num) -> (r: Num)
    requires
        old(cs).wf(),
        old(cs).room(1),
        old(cs).has(a),
        old(cs).has(b),
        old(cs).has(cond),
        bit_valued(cond),
    ensures
        grown(*final(cs), *old(cs), 1),
        final(cs).has(r),
        old(cs).num_vars() <= r.var,
        cond.value is Some && a.value is Some && b.value is Some ==> r.value is Some,
        r.value is Some ==> val(r) == choose_by(val(cond), 1, fmod(val(a) - val(b)) as int),
        forall|z: Seq<int>|
            admissible(z, final(cs).num_vars()) && carries(z, a) && carries(z, b) && carries(z, cond)
                && #[trigger] final(cs).agrees_since(*old(cs), z) ==> all_hold(
                final(cs).added(*old(cs)),
                z,
            ),
        forall|z: Seq<int>|
            admissible(z, final(cs).num_vars()) && #[trigger] all_hold(final(cs).added(*old(cs)), z)
                && is_bit(z[cond.var as int]) ==> z[r.var as int] == choose_by(
                z[cond.var as int],
                1,
                fmod(z[a.var as int] - z[b.var as int]) as int,
            ),
{
    let ghost c0 = *cs;
    proof {
        lemma_has_wf(c0, a);
        lemma_has_wf(c0, b);
        lemma_has_wf(c0, cond);
    }
    let v = match cond.value {
        Some(c) => if cond_is_one(c) {
            Some(fe_one())
        } else {
            match (a.value, b.value) {
                (Some(x), Some(y)) => Some(fe_sub(&x, &y)),
                _ => None,
            }
        },
        None => None,
    };
    let r = cs.alloc_var(v);
    let la = lc_sub_add3(0, a.var, b.var);
    let lb = lc_var1(cond.var);
    let lc = lc_sub_add3(r.var, a.var, b.var);
    let ghost (ga, gb, gc) = (la@, lb@, lc@);
    cs.enforce(la, lb, lc);
    proof {
        assert(cs.constraints@.last().a@ == ga && cs.constraints@.last().b@ == gb && cs.constraints@.last().c@ == gc);
        lemma_minus_one();
        let p = modulus() as int;
        let con = cs.constraints@.last();
        let (xa, xb, xc, xr) = (a.var as int, b.var as int, cond.var as int, r.var as int);
        assert forall|z: Seq<int>| admissible(z, cs.num_vars()) implies (holds(con, z) <==> fmod(
            (1 - z[xa] + z[xb]) * z[xc],
        ) == fmod(z[xr] - z[xa] + z[xb])) && (all_hold(cs.added(c0), z) <==> holds(con, z)) by {
            lemma_added_one(c0, *cs, z);
            lemma_lc3(con.a@, z, 1, -1, 1);
            lemma_lc1(con.b@, z, 1);
            lemma_lc3(con.c@, z, 1, -1, 1);
            lemma_holds_iff(con, z, 1 - z[xa] + z[xb], z[xc], z[xr] - z[xa] + z[xb]);
        }
        assert forall|z: Seq<int>|
            admissible(z, cs.num_vars()) && carries(z, a) && carries(z, b) && carries(z, cond)
                && #[trigger] cs.agrees_since(c0, z) implies all_hold(cs.added(c0), z) by {
            assert(cs.aux@[r.var - 1] == r.value);
            lemma_mul_bit(1 - z[xa] + z[xb], z[xc]);
            if z[xc] == 0 {
                lemma_mod_sub_cancel(z[xa] - z[xb], p);
            }
        }
        assert forall|z: Seq<int>|
            admissible(z, cs.num_vars()) && #[trigger] all_hold(cs.added(c0), z) && is_bit(z[xc])
                implies z[xr] == choose_by(z[xc], 1, fmod(z[xa] - z[xb]) as int) by {
            lemma_added_one(c0, *cs, z);
            assert(holds(cs.constraints@.last(), z));
            lemma_mul_bit(1 - z[xa] + z[xb], z[xc]);
            if z[xc] == 1 {
                lemma_canonical_shift(z[xr], 1, z[xa] - z[xb]);
            } else {
                lemma_mod_sub_cancel(z[xa] - z[xb], p);
                lemma_canonical_shift(z[xr], fmod(z[xa] - z[xb]) as int, z[xa] - z[xb]);
            }
        }
    }
    r
}

/// The residue of `x` differs from `x` by a multiple of the modulus.
pub proof fn lemma_mod_sub_cancel(x: int, p: int)
    requires
        p == modulus(),
    ensures
        fmod(x - x % p) == 0,
        fmod((x % p) - x) == 0,
{
    lemma_fundamental_div_mod(x, p);
    lemma_mod_multiples_vanish(x / p, 0, p);
    lemma_mod_multiples_vanish(-(x / p), 0, p);
    lemma_mul_unary_negation(p, x / p);
}


/// A bit set exactly when `a == b` (`alloc_num_equals`): the bit `r` and a
/// helper `t`, constrained by `t * (a - b) = 1 - r` and `r * (a - b) = 0`.
pub fn alloc_num_equals(cs: &mut Circuit, a: Num, b: Num) -> (r: Num)
    requires
        old(cs).wf(),
        old(cs).room(2),
        old(cs).has(a),
        old(cs).has(b),
    ensures
        grown(*final(cs), *old(cs), 2),
        final(cs).has(r),
        old(cs).num_vars() <= r.var,
        bit_valued(r),
        r.value is Some <==> a.value is Some && b.value is Some,
        r.value is Some ==> val(r) == (if val(a) == val(b) { 1int } else { 0int }),
        a.value is Some && b.value is Some ==> final(cs).known_since(*old(cs)),
        forall|z: Seq<int>|
            admissible(z, final(cs).num_vars()) && carries(z, a) && carries(z, b)
                && #[trigger] final(cs).agrees_since(*old(cs), z) ==> all_hold(
                final(cs).added(*old(cs)),
                z,
            ),
        no_zero_divisors() ==> forall|z: Seq<int>|
            admissible(z, final(cs).num_vars()) && #[trigger] all_hold(final(cs).added(*old(cs)), z)
                ==> z[r.var as int] == (if z[a.var as int] == z[b.var as int] { 1int } else { 0int }),
{
    let ghost c0 = *cs;
    proof {
        lemma_has_wf(c0, a);
        lemma_has_wf(c0, b);
    }
    let eqv: Option<bool> = match (a.value, b.value) {
        (Some(x), Some(y)) => Some(fe_eq(&x, &y)),
        _ => None,
    };
    let r = alloc_bit(cs, eqv);
    let ghost c1 = *cs;
    proof {
        lemma_has_extends(c0, c1, a);
        lemma_has_extends(c0, c1, b);
    }
    let t_val = match (a.value, b.value) {
        (Some(x), Some(y)) => if fe_eq(&x, &y) {
            Some(fe_one())
        } else {
            let d = fe_sub(&x, &y);
            fe_invert(&d)
        },
        _ => None,
    };
    let t = cs.alloc_var(t_val);
    cs.enforce(lc_var1(t.var), lc_sub2(a.var, b.var), lc_sub2(0, r.var));
    cs.enforce(lc_var1(r.var), lc_sub2(a.var, b.var), Vec::new());
    proof {
        let c2 = *cs;
        lemma_minus_one();
        let p = modulus() as int;
        let n1 = c1.constraints@.len() as int;
        let con1 = c2.constraints@[n1];
        let con2 = c2.constraints@.last();
        let (xa, xb, xr, xt) = (a.var as int, b.var as int, r.var as int, t.var as int);
        assert(c2.extends(c1));
        assert forall|z: Seq<int>| admissible(z, c2.num_vars()) implies (holds(con1, z) <==> fmod(
            z[xt] * (z[xa] - z[xb]),
        ) == fmod(1 - z[xr])) && (holds(con2, z) <==> fmod(z[xr] * (z[xa] - z[xb])) == 0) && (
        all_hold(c2.added(c1), z) <==> holds(con1, z) && holds(con2, z)) by {
            lemma_added_two(c1, c2, z);
            lemma_lc1(con1.a@, z, 1);
            lemma_lc2(con1.b@, z, 1, -1);
            lemma_lc2(con1.c@, z, 1, -1);
            lemma_holds_iff(con1, z, z[xt], z[xa] - z[xb], 1 - z[xr]);
            lemma_lc1(con2.a@, z, 1);
            lemma_lc2(con2.b@, z, 1, -1);
            lemma_lc0(con2.c@, z);
            lemma_holds_iff(con2, z, z[xr], z[xa] - z[xb], 0);
        }
        if a.value is Some && b.value is Some {
            let (x, y) = (val(a), val(b));
            if x != y {
                lemma_distinct_nonzero(x, y);
            }
            assert(c2.known_since(c1));
            lemma_extends_chain(c0, c1, c2, Seq::empty());
        }
        assert forall|z: Seq<int>|
            admissible(z, c2.num_vars()) && carries(z, a) && carries(z, b)
                && #[trigger] c2.agrees_since(c0, z) implies all_hold(c2.added(c0), z) by {
            lemma_extends_chain(c0, c1, c2, z);
            assert(c2.aux@[r.var - 1] == r.value);
            assert(c2.aux@[t.var - 1] == t.value);
            if z[xa] == z[xb] {
                assert(z[xa] - z[xb] == 0);
                assert(z[xt] * (z[xa] - z[xb]) == 0) by (nonlinear_arith)
                    requires
                        z[xa] - z[xb] == 0,
                ;
                assert(z[xr] * (z[xa] - z[xb]) == 0) by (nonlinear_arith)
                    requires
                        z[xa] - z[xb] == 0,
                ;
            } else {
                lemma_distinct_nonzero(z[xa], z[xb]);
                let d = fmod(z[xa] - z[xb]) as int;
                lemma_mul_mod_noop_right(z[xt], z[xa] - z[xb], p);
                lemma_mul_is_commutative(z[xt], d);
                assert(z[xr] == 0);
            }
        }
        if no_zero_divisors() {
            assert forall|z: Seq<int>|
                admissible(z, c2.num_vars()) && #[trigger] all_hold(c2.added(c0), z) implies z[xr] == (
                if z[xa] == z[xb] { 1int } else { 0int }) by {
                lemma_extends_chain(c0, c1, c2, z);
                assert(admissible(z, c1.num_vars()));
                assert(is_bit(z[xr]));
                assert(holds(con1, z) && holds(con2, z));
                if z[xa] == z[xb] {
                    assert(z[xt] * (z[xa] - z[xb]) == 0) by (nonlinear_arith)
                        requires
                            z[xa] - z[xb] == 0,
                    ;
                } else {
                    lemma_distinct_nonzero(z[xa], z[xb]);
                    assert(fmod(z[xr] * (z[xa] - z[xb])) == 0);
                }
            }
        }
    }
    r
}

} // verus!






