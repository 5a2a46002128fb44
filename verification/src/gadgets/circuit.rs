//! A rank-1 constraint system under construction, and the small gadgets the
//! curve gadgets are built from.
//!
//! Variable `0` is the constant one and variable `j + 1` the `j`-th
//! allocation. Each allocation records the value a prover assigns to it, or
//! `None` where that value depends on one that is unknown.
//!
//! Every gadget states three things of the constraints it adds: which values
//! it records for its new variables, that these constraints hold on any
//! assignment that gives its inputs and new variables their recorded values
//! (completeness), and what any assignment satisfying them must give its
//! result (soundness).
use crate::field::{fmod, modulus, Fe};
use crate::gadgets::r1cs::{
    all_hold, constraints_in_range, holds, lc_in_range, lc_value, lemma_in_range_push, Constraint, Term,
};
use crate::sum::sum;
use vstd::arithmetic::div_mod::*;
use vstd::prelude::*;

verus! {

/// A variable of the system and the value recorded for it.
#[derive(Clone, Copy, Debug)]
pub struct Num {
    pub var: usize,
    pub value: Option<Fe>,
}

/// The integer value of a recorded value, zero when it is unknown.
pub open spec fn value_of(o: Option<Fe>) -> int {
    match o {
        Some(v) => v@ as int,
        None => 0,
    }
}

/// The integer value recorded for a variable, zero when it is unknown.
pub open spec fn val(n: Num) -> int {
    value_of(n.value)
}

/// The value of `n` is known and `z` gives it to `n`'s variable.
pub open spec fn carries(z: Seq<int>, n: Num) -> bool {
    n.value is Some && z[n.var as int] == val(n)
}

/// A constraint system under construction: the recorded values of the
/// allocated variables and the constraints enforced so far.
#[derive(Clone, Debug)]
pub struct Circuit {
    pub aux: Vec<Option<Fe>>,
    pub constraints: Vec<Constraint>,
}

impl Circuit {
    /// The number of variables, the constant one included.
    pub open spec fn num_vars(&self) -> nat {
        self.aux@.len() + 1
    }

    /// The constraints only read allocated variables, with canonical
    /// coefficients, and every recorded value is canonical.
    pub open spec fn wf(&self) -> bool {
        &&& constraints_in_range(self.constraints@, self.num_vars())
        &&& forall|j: int|
            0 <= j < self.aux@.len() ==> (#[trigger] self.aux@[j] matches Some(v) ==> v.wf())
    }

    /// There is room for `k` more variables.
    pub open spec fn room(&self, k: nat) -> bool {
        self.aux@.len() + k + 1 <= usize::MAX
    }

    /// `self` is `old` with more variables and constraints after it.
    pub open spec fn extends(&self, old: Circuit) -> bool {
        &&& old.aux@.len() <= self.aux@.len()
        &&& forall|j: int| 0 <= j < old.aux@.len() ==> #[trigger] self.aux@[j] == old.aux@[j]
        &&& old.constraints@.len() <= self.constraints@.len()
        &&& forall|m: int|
            0 <= m < old.constraints@.len() ==> #[trigger] self.constraints@[m] == old.constraints@[m]
    }

    /// The constraints added since `old`.
    pub open spec fn added(&self, old: Circuit) -> Seq<Constraint> {
        self.constraints@.subrange(old.constraints@.len() as int, self.constraints@.len() as int)
    }

    /// `n` is an allocated variable with the value recorded for it.
    pub open spec fn has(&self, n: Num) -> bool {
        &&& 1 <= n.var < self.num_vars()
        &&& self.aux@[n.var - 1] == n.value
    }

    /// Every variable allocated since `old` has a known value, which `z` gives it.
    pub open spec fn agrees_since(&self, old: Circuit, z: Seq<int>) -> bool {
        forall|j: int|
            old.aux@.len() <= j < self.aux@.len() ==> (#[trigger] self.aux@[j]) is Some && z[j + 1]
                == value_of(self.aux@[j])
    }

    /// Every variable allocated since `old` has a known value.
    pub open spec fn known_since(&self, old: Circuit) -> bool {
        forall|j: int| old.aux@.len() <= j < self.aux@.len() ==> (#[trigger] self.aux@[j]) is Some
    }

    /// An empty system.
    pub fn new() -> (cs: Circuit)
        ensures
            cs.wf(),
            cs.aux@.len() == 0,
            cs.constraints@.len() == 0,
    {
        Circuit { aux: Vec::new(), constraints: Vec::new() }
    }

    /// Allocates a variable with the recorded value `value`.
    pub fn alloc_var(&mut self, value: Option<Fe>) -> (n: Num)
        requires
            old(self).wf(),
            old(self).room(1),
            value matches Some(v) ==> v.wf(),
        ensures
            final(self).wf(),
            final(self).aux@ == old(self).aux@.push(value),
            final(self).constraints@ == old(self).constraints@,
            n.var == old(self).num_vars(),
            n.value == value,
            final(self).has(n),
    {
        let var = self.aux.len() + 1;
        self.aux.push(value);
        proof {
            let cs = self.constraints@;
            assert forall|m: int| 0 <= m < cs.len() implies lc_in_range((#[trigger] cs[m]).a@, self.num_vars())
                && lc_in_range(cs[m].b@, self.num_vars()) && lc_in_range(cs[m].c@, self.num_vars()) by {
                assert(lc_in_range(cs[m].a@, old(self).num_vars()));
                assert(lc_in_range(cs[m].b@, old(self).num_vars()));
                assert(lc_in_range(cs[m].c@, old(self).num_vars()));
            }
        }
        Num { var, value }
    }

    /// Enforces `<a, z> * <b, z> = <c, z>`.
    pub fn enforce(&mut self, a: Vec<Term>, b: Vec<Term>, c: Vec<Term>)
        requires
            old(self).wf(),
            lc_in_range(a@, old(self).num_vars()),
            lc_in_range(b@, old(self).num_vars()),
            lc_in_range(c@, old(self).num_vars()),
        ensures
            final(self).wf(),
            final(self).aux@ == old(self).aux@,
            final(self).constraints@ == old(self).constraints@.push((Constraint { a, b, c })),
    {
        let ghost con = Constraint { a, b, c };
        proof {
            lemma_in_range_push(self.constraints@, con, self.num_vars(), self.num_vars());
        }
        self.constraints.push(Constraint { a, b, c });
    }
}

/// Extension is transitive, and what was added, known or agreed on over two
/// extensions is what was over each.
pub proof fn lemma_extends_chain(c1: Circuit, c2: Circuit, c3: Circuit, z: Seq<int>)
    requires
        c2.extends(c1),
        c3.extends(c2),
    ensures
        c3.extends(c1),
        c3.added(c1) == c2.added(c1) + c3.added(c2),
        all_hold(c3.added(c1), z) <==> all_hold(c2.added(c1), z) && all_hold(c3.added(c2), z),
        c3.agrees_since(c1, z) <==> c2.agrees_since(c1, z) && c3.agrees_since(c2, z),
        c3.known_since(c1) <==> c2.known_since(c1) && c3.known_since(c2),
{
    assert(c3.added(c1) =~= c2.added(c1) + c3.added(c2));
    let s1 = c2.added(c1);
    let s2 = c3.added(c2);
    let s = c3.added(c1);
    if all_hold(s, z) {
        assert forall|m: int| 0 <= m < s1.len() implies holds(#[trigger] s1[m], z) by {
            assert(s[m] == s1[m]);
        }
        assert forall|m: int| 0 <= m < s2.len() implies holds(#[trigger] s2[m], z) by {
            assert(s[s1.len() + m] == s2[m]);
        }
    }
    if all_hold(s1, z) && all_hold(s2, z) {
        assert forall|m: int| 0 <= m < s.len() implies holds(#[trigger] s[m], z) by {
            if m < s1.len() {
                assert(s[m] == s1[m]);
            } else {
                assert(s[m] == s2[m - s1.len()]);
            }
        }
    }
    if c3.agrees_since(c1, z) {
        assert forall|j: int| c1.aux@.len() <= j < c2.aux@.len() implies (#[trigger] c2.aux@[j]) is Some
            && z[j + 1] == value_of(c2.aux@[j]) by {
            assert(c3.aux@[j] == c2.aux@[j]);
        }
    }
    if c2.agrees_since(c1, z) && c3.agrees_since(c2, z) {
        assert forall|j: int| c1.aux@.len() <= j < c3.aux@.len() implies (#[trigger] c3.aux@[j]) is Some
            && z[j + 1] == value_of(c3.aux@[j]) by {
            if j < c2.aux@.len() {
                assert(c3.aux@[j] == c2.aux@[j]);
            }
        }
    }
    if c3.known_since(c1) {
        assert forall|j: int| c1.aux@.len() <= j < c2.aux@.len() implies (#[trigger] c2.aux@[j]) is Some by {
            assert(c3.aux@[j] == c2.aux@[j]);
        }
    }
    if c2.known_since(c1) && c3.known_since(c2) {
        assert forall|j: int| c1.aux@.len() <= j < c3.aux@.len() implies (#[trigger] c3.aux@[j]) is Some by {
            if j < c2.aux@.len() {
                assert(c3.aux@[j] == c2.aux@[j]);
            }
        }
    }
}

/// A variable stays allocated, with its value, in an extension.
pub proof fn lemma_has_extends(c1: Circuit, c2: Circuit, n: Num)
    requires
        c1.has(n),
        c2.extends(c1),
    ensures
        c2.has(n),
{
    assert(c2.aux@[n.var - 1] == c1.aux@[n.var - 1]);
}

/// A system extends itself, adding nothing.
pub proof fn lemma_extends_refl(c: Circuit, z: Seq<int>)
    ensures
        c.extends(c),
        c.added(c).len() == 0,
        all_hold(c.added(c), z),
        c.agrees_since(c, z),
        c.known_since(c),
{
}

/// The value of a combination whose coefficients are congruent to `s`.
pub proof fn lemma_lc_congruent(lc: Seq<Term>, z: Seq<int>, s: Seq<int>)
    requires
        lc.len() == s.len(),
        lc.len() <= 3,
        forall|i: int| 0 <= i < lc.len() ==> fmod(#[trigger] lc[i].coeff@ as int) == fmod(s[i]),
    ensures
        lc.len() == 0 ==> fmod(lc_value(lc, z)) == 0,
        lc.len() == 1 ==> fmod(lc_value(lc, z)) == fmod(s[0] * z[lc[0].var as int]),
        lc.len() == 2 ==> fmod(lc_value(lc, z)) == fmod(
            s[0] * z[lc[0].var as int] + s[1] * z[lc[1].var as int],
        ),
        lc.len() == 3 ==> fmod(lc_value(lc, z)) == fmod(
            s[0] * z[lc[0].var as int] + s[1] * z[lc[1].var as int] + s[2] * z[lc[2].var as int],
        ),
{
    let p = modulus() as int;
    let f = |i: int| lc[i].coeff@ * z[lc[i].var as int];
    reveal_with_fuel(sum, 4);
    if lc.len() >= 1 {
        lemma_mul_mod_noop_left(lc[0].coeff@ as int, z[lc[0].var as int], p);
        lemma_mul_mod_noop_left(s[0], z[lc[0].var as int], p);
    }
    if lc.len() >= 2 {
        lemma_mul_mod_noop_left(lc[1].coeff@ as int, z[lc[1].var as int], p);
        lemma_mul_mod_noop_left(s[1], z[lc[1].var as int], p);
    }
    if lc.len() >= 3 {
        lemma_mul_mod_noop_left(lc[2].coeff@ as int, z[lc[2].var as int], p);
        lemma_mul_mod_noop_left(s[2], z[lc[2].var as int], p);
    }
    if lc.len() == 2 {
        lemma_add_mod_noop(f(0), f(1), p);
        lemma_add_mod_noop(s[0] * z[lc[0].var as int], s[1] * z[lc[1].var as int], p);
    }
    if lc.len() == 3 {
        lemma_add_mod_noop(f(0), f(1), p);
        lemma_add_mod_noop(s[0] * z[lc[0].var as int], s[1] * z[lc[1].var as int], p);
        lemma_add_mod_noop(f(0) + f(1), f(2), p);
        lemma_add_mod_noop(
            s[0] * z[lc[0].var as int] + s[1] * z[lc[1].var as int],
            s[2] * z[lc[2].var as int],
            p,
        );
    }
}

/// The value of a one-term combination whose coefficient is congruent to `s0`.
pub proof fn lemma_lc1(lc: Seq<Term>, z: Seq<int>, s0: int)
    requires
        lc.len() == 1,
        fmod(lc[0].coeff@ as int) == fmod(s0),
    ensures
        fmod(lc_value(lc, z)) == fmod(s0 * z[lc[0].var as int]),
{
    lemma_lc_congruent(lc, z, seq![s0]);
}

/// The value of a two-term combination whose coefficients are congruent to
/// `s0` and `s1`.
pub proof fn lemma_lc2(lc: Seq<Term>, z: Seq<int>, s0: int, s1: int)
    requires
        lc.len() == 2,
        fmod(lc[0].coeff@ as int) == fmod(s0),
        fmod(lc[1].coeff@ as int) == fmod(s1),
    ensures
        fmod(lc_value(lc, z)) == fmod(s0 * z[lc[0].var as int] + s1 * z[lc[1].var as int]),
{
    let s = seq![s0, s1];
    assert forall|i: int| 0 <= i < lc.len() implies fmod(#[trigger] lc[i].coeff@ as int) == fmod(s[i]) by {
    }
    lemma_lc_congruent(lc, z, s);
}

/// The value of a three-term combination whose coefficients are congruent
/// to `s0`, `s1` and `s2`.
pub proof fn lemma_lc3(lc: Seq<Term>, z: Seq<int>, s0: int, s1: int, s2: int)
    requires
        lc.len() == 3,
        fmod(lc[0].coeff@ as int) == fmod(s0),
        fmod(lc[1].coeff@ as int) == fmod(s1),
        fmod(lc[2].coeff@ as int) == fmod(s2),
    ensures
        fmod(lc_value(lc, z)) == fmod(
            s0 * z[lc[0].var as int] + s1 * z[lc[1].var as int] + s2 * z[lc[2].var as int],
        ),
{
    let s = seq![s0, s1, s2];
    assert forall|i: int| 0 <= i < lc.len() implies fmod(#[trigger] lc[i].coeff@ as int) == fmod(s[i]) by {
    }
    lemma_lc_congruent(lc, z, s);
}

/// The value of the empty combination.
pub proof fn lemma_lc0(lc: Seq<Term>, z: Seq<int>)
    requires
        lc.len() == 0,
    ensures
        fmod(lc_value(lc, z)) == 0,
{
    lemma_lc_congruent(lc, z, seq![]);
}

/// A canonical value congruent to a canonical value is that value.
pub proof fn lemma_canonical_eq(v: int, w: int)
    requires
        0 <= v < modulus(),
        0 <= w < modulus(),
        fmod(v) == fmod(w),
    ensures
        v == w,
{
}

/// The coefficient `q - 1` is congruent to `-1`.
pub proof fn lemma_minus_one()
    ensures
        fmod((modulus() - 1) as int) == fmod(-1),
{
    let p = modulus() as int;
    lemma_mod_multiples_vanish(1, -1, p);
}


/// The system after step `i` of `cs` extends the one before it.
pub open spec fn step_extends(cs: Seq<Circuit>, i: int) -> bool {
    cs[i + 1].extends(cs[i])
}

/// The constraints added by step `i` of `cs` hold on `z`.
pub open spec fn step_holds(cs: Seq<Circuit>, i: int, z: Seq<int>) -> bool {
    all_hold(cs[i + 1].added(cs[i]), z)
}

/// `z` agrees with the values recorded by step `i` of `cs`.
pub open spec fn step_agrees(cs: Seq<Circuit>, i: int, z: Seq<int>) -> bool {
    cs[i + 1].agrees_since(cs[i], z)
}

/// The values recorded by step `i` of `cs` are known.
pub open spec fn step_known(cs: Seq<Circuit>, i: int) -> bool {
    cs[i + 1].known_since(cs[i])
}

/// Each system of `cs` extends the one before it.
pub open spec fn is_chain(cs: Seq<Circuit>) -> bool {
    forall|i: int| 0 <= i < cs.len() - 1 ==> #[trigger] step_extends(cs, i)
}

/// Along a chain of extensions, the last system extends every earlier one,
/// and what it added, knows or agrees on since the first is what each step did.
pub proof fn lemma_chain(cs: Seq<Circuit>, z: Seq<int>)
    requires
        cs.len() >= 1,
        is_chain(cs),
    ensures
        forall|i: int| 0 <= i < cs.len() ==> cs.last().extends(#[trigger] cs[i]) && cs[i].extends(cs[0]),
        all_hold(cs.last().added(cs[0]), z) <==> forall|i: int|
            0 <= i < cs.len() - 1 ==> #[trigger] step_holds(cs, i, z),
        cs.last().agrees_since(cs[0], z) <==> forall|i: int|
            0 <= i < cs.len() - 1 ==> #[trigger] step_agrees(cs, i, z),
        cs.last().known_since(cs[0]) <==> forall|i: int|
            0 <= i < cs.len() - 1 ==> #[trigger] step_known(cs, i),
    decreases cs.len(),
{
    if cs.len() == 1 {
        lemma_extends_refl(cs[0], z);
    } else {
        let init = cs.drop_last();
        assert forall|i: int| 0 <= i < init.len() - 1 implies #[trigger] step_extends(init, i) by {
            assert(init[i + 1] == cs[i + 1]);
            assert(init[i] == cs[i]);
            assert(step_extends(cs, i));
        }
        lemma_chain(init, z);
        let m = init.last();
        let k = cs.len() - 2;
        assert(m == cs[k]);
        assert(cs[k + 1] == cs.last());
        assert(step_extends(cs, k));
        lemma_extends_chain(cs[0], m, cs.last(), z);
        assert forall|i: int| 0 <= i < cs.len() implies cs.last().extends(#[trigger] cs[i]) && cs[i].extends(cs[0]) by {
            if i < cs.len() - 1 {
                assert(init[i] == cs[i]);
                lemma_extends_chain(cs[i], m, cs.last(), z);
            } else {
                lemma_extends_chain(cs[0], cs.last(), cs.last(), z);
                lemma_extends_refl(cs.last(), z);
            }
        }
        assert forall|i: int| 0 <= i < init.len() - 1 implies (step_holds(init, i, z) == step_holds(cs, i, z)
            && step_agrees(init, i, z) == step_agrees(cs, i, z) && step_known(init, i) == step_known(cs, i)) by {
            assert(init[i + 1] == cs[i + 1]);
            assert(init[i] == cs[i]);
        }
        if forall|i: int| 0 <= i < cs.len() - 1 ==> #[trigger] step_holds(cs, i, z) {
            assert forall|i: int| 0 <= i < init.len() - 1 implies #[trigger] step_holds(init, i, z) by {
                assert(step_holds(cs, i, z));
            }
            assert(step_holds(cs, k, z));
        }
        if all_hold(cs.last().added(cs[0]), z) {
            assert forall|i: int| 0 <= i < cs.len() - 1 implies #[trigger] step_holds(cs, i, z) by {
                if i < k {
                    assert(step_holds(init, i, z));
                }
            }
        }
        if forall|i: int| 0 <= i < cs.len() - 1 ==> #[trigger] step_agrees(cs, i, z) {
            assert forall|i: int| 0 <= i < init.len() - 1 implies #[trigger] step_agrees(init, i, z) by {
                assert(step_agrees(cs, i, z));
            }
            assert(step_agrees(cs, k, z));
        }
        if cs.last().agrees_since(cs[0], z) {
            assert forall|i: int| 0 <= i < cs.len() - 1 implies #[trigger] step_agrees(cs, i, z) by {
                if i < k {
                    assert(step_agrees(init, i, z));
                }
            }
        }
        if forall|i: int| 0 <= i < cs.len() - 1 ==> #[trigger] step_known(cs, i) {
            assert forall|i: int| 0 <= i < init.len() - 1 implies #[trigger] step_known(init, i) by {
                assert(step_known(cs, i));
            }
            assert(step_known(cs, k));
        }
        if cs.last().known_since(cs[0]) {
            assert forall|i: int| 0 <= i < cs.len() - 1 implies #[trigger] step_known(cs, i) by {
                if i < k {
                    assert(step_known(init, i));
                }
            }
        }
    }
}

/// A variable allocated by a step whose values `z` agrees with is known and
/// carried by `z`.
pub proof fn lemma_carried(before: Circuit, after: Circuit, n: Num, z: Seq<int>)
    requires
        after.agrees_since(before, z),
        after.has(n),
        before.num_vars() <= n.var,
    ensures
        n.value is Some,
        carries(z, n),
{
    assert(after.aux@[n.var - 1] == n.value);
}

} // verus!
