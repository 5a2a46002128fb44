//! Elliptic curve gadgets over the Pallas scalar field, for a short
//! Weierstrass curve `y^2 = x^3 + a x + b` whose parameters are given as
//! field elements.
//!
//! A point inside a circuit is three variables: its coordinates and a flag
//! that is one for the point at infinity. The specification of each gadget
//! follows its rank-1 constraints: the values an honest prover records, that
//! they satisfy the constraints, and what any satisfying assignment gives the
//! result.
use crate::field::{fe_add, fe_eq, fe_from_u64, fe_invert, fe_mul, fe_neg, fe_one, fe_sub, fe_zero, fmod, modulus, Fe};
use crate::gadgets::circuit::{
    carries, is_chain, lemma_canonical_eq, lemma_carried, lemma_chain,
    lemma_has_extends, step_agrees, step_extends, step_holds,
    step_known,
    lemma_lc1, lemma_lc2, lemma_lc3, lemma_minus_one, val, value_of, Circuit, Num,
};
use crate::gadgets::r1cs::{
    admissible, all_hold, holds, lemma_holds_iff, no_zero_divisors, Term,
};
use crate::gadgets::utils::{
    alloc_bit, alloc_num_equals, alloc_one, alloc_zero, bit_valued, conditionally_select,
    grown, is_bit, lemma_added_one, lemma_added_two, lemma_canonical_shift, lemma_distinct_nonzero,
    lemma_added_three, lemma_has_wf, lemma_mul_bit, lc_add2, lc_add3, lc_scaled1, lc_scaled2, lc_sub2,
    lc_var1, mul_num, select_num_or_one, select_num_or_zero,
    select_one_or_diff2, select_one_or_num2, select_zero_or_num2, square,
};
use crate::gadgets::less_than::{lemma_bit_products, lemma_canonical_one_minus};
use vstd::arithmetic::div_mod::*;
use vstd::arithmetic::mul::*;
use vstd::prelude::*;

verus! {

/// A point inside a circuit: its coordinates and its infinity flag (one for
/// the point at infinity, zero otherwise).
#[derive(Clone, Copy, Debug)]
pub struct AllocatedPoint {
    pub x: Num,
    pub y: Num,
    pub is_infinity: Num,
}

/// The three variables of `p` are allocated in `cs`, with their values.
pub open spec fn point_in(cs: Circuit, p: AllocatedPoint) -> bool {
    &&& cs.has(p.x)
    &&& cs.has(p.y)
    &&& cs.has(p.is_infinity)
}

/// The three recorded values of `p` are known.
pub open spec fn point_known(p: AllocatedPoint) -> bool {
    &&& p.x.value is Some
    &&& p.y.value is Some
    &&& p.is_infinity.value is Some
}

/// The recorded values of `p`.
pub open spec fn point_val(p: AllocatedPoint) -> (int, int, int) {
    (val(p.x), val(p.y), val(p.is_infinity))
}

/// The values an assignment gives the variables of `p`.
pub open spec fn point_at(z: Seq<int>, p: AllocatedPoint) -> (int, int, int) {
    (z[p.x.var as int], z[p.y.var as int], z[p.is_infinity.var as int])
}

/// The assignment gives the variables of `p` their known recorded values.
pub open spec fn carries_point(z: Seq<int>, p: AllocatedPoint) -> bool {
    &&& carries(z, p.x)
    &&& carries(z, p.y)
    &&& carries(z, p.is_infinity)
}

/// The variables of `p` were allocated at or after variable `n`.
pub open spec fn point_new(p: AllocatedPoint, n: nat) -> bool {
    n <= p.x.var && n <= p.y.var && n <= p.is_infinity.var
}

/// The point at infinity as the circuits write it.
pub open spec fn infinity() -> (int, int, int) {
    (0, 0, 1)
}

/// `a` when the bit `c` is set, else `b`.
pub open spec fn select_point(c: int, a: (int, int, int), b: (int, int, int)) -> (int, int, int) {
    if c == 1 {
        a
    } else {
        b
    }
}

/// The negation of an affine point.
pub open spec fn negate_value(p: (int, int, int)) -> (int, int, int) {
    (p.0, fmod(-p.1) as int, p.2)
}

/// A point on the curve, or the point at infinity.
pub open spec fn on_curve(p: (int, int, int), a: int, b: int) -> bool {
    p.2 == 1 || fmod(p.1 * p.1) == fmod(p.0 * p.0 * p.0 + a * p.0 + b)
}

impl AllocatedPoint {
    /// Allocates a point with the coordinates and infinity flag of `coords`
    /// (the point at infinity when absent), constraining the flag to be a bit.
    pub fn alloc_point(cs: &mut Circuit, coords: Option<(Fe, Fe, bool)>) -> (r: AllocatedPoint)
        requires
            old(cs).wf(),
            old(cs).room(3),
            coords matches Some(c) ==> c.0.wf() && c.1.wf(),
        ensures
            grown(*final(cs), *old(cs), 3),
            point_in(*final(cs), r),
            point_new(r, old(cs).num_vars()),
            final(cs).known_since(*old(cs)),
            point_known(r),
            bit_valued(r.is_infinity),
            point_val(r) == (match coords {
                Some(c) => (c.0@ as int, c.1@ as int, if c.2 { 1int } else { 0int }),
                None => infinity(),
            }),
            forall|z: Seq<int>|
                admissible(z, final(cs).num_vars()) && #[trigger] final(cs).agrees_since(*old(cs), z)
                    ==> all_hold(final(cs).added(*old(cs)), z),
            no_zero_divisors() ==> forall|z: Seq<int>|
                admissible(z, final(cs).num_vars()) && #[trigger] all_hold(
                    final(cs).added(*old(cs)),
                    z,
                ) ==> is_bit(z[r.is_infinity.var as int]),
    {
        let ghost c0 = *cs;
        let xv = match coords {
            Some(c) => c.0,
            None => fe_zero(),
        };
        let yv = match coords {
            Some(c) => c.1,
            None => fe_zero(),
        };
        let inf = match coords {
            Some(c) => c.2,
            None => true,
        };
        let x = cs.alloc_var(Some(xv));
        let y = cs.alloc_var(Some(yv));
        let ghost c2 = *cs;
        let is_infinity = alloc_bit(cs, Some(inf));
        let ghost c3 = *cs;
        proof {
            assert(c3.aux@[x.var - 1] == c2.aux@[x.var - 1]);
            assert(c3.aux@[y.var - 1] == c2.aux@[y.var - 1]);
            assert(c2.added(c0).len() == 0);
            let ch = seq![c0, c2, c3];
            assert(step_extends(ch, 0) && step_extends(ch, 1));
            assert(is_chain(ch));
            assert forall|z: Seq<int>|
                admissible(z, c3.num_vars()) && #[trigger] c3.agrees_since(c0, z) implies all_hold(
                c3.added(c0),
                z,
            ) by {
                lemma_chain(ch, z);
                assert(step_agrees(ch, 1, z));
                assert forall|i: int| 0 <= i < ch.len() - 1 implies #[trigger] step_holds(ch, i, z) by {}
            }
            if no_zero_divisors() {
                assert forall|z: Seq<int>|
                    admissible(z, c3.num_vars()) && #[trigger] all_hold(c3.added(c0), z) implies is_bit(
                    z[is_infinity.var as int],
                ) by {
                    lemma_chain(ch, z);
                    assert(step_holds(ch, 1, z));
                }
            }
        }
        AllocatedPoint { x, y, is_infinity }
    }

    /// The point at infinity, `(0, 0)` with the flag set: one allocated zero
    /// for both coordinates and an allocated one for the flag.
    pub fn default(cs: &mut Circuit) -> (r: AllocatedPoint)
        requires
            old(cs).wf(),
            old(cs).room(2),
        ensures
            grown(*final(cs), *old(cs), 2),
            point_in(*final(cs), r),
            point_new(r, old(cs).num_vars()),
            point_known(r),
            bit_valued(r.is_infinity),
            r.x == r.y,
            point_val(r) == infinity(),
            forall|z: Seq<int>|
                admissible(z, final(cs).num_vars()) && #[trigger] final(cs).agrees_since(*old(cs), z)
                    ==> all_hold(final(cs).added(*old(cs)), z),
            forall|z: Seq<int>|
                admissible(z, final(cs).num_vars()) && #[trigger] all_hold(
                    final(cs).added(*old(cs)),
                    z,
                ) ==> point_at(z, r) == infinity(),
    {
        let ghost c0 = *cs;
        let zero = alloc_zero(cs);
        let ghost c1 = *cs;
        let one = alloc_one(cs);
        let ghost c2 = *cs;
        proof {
            let ch = seq![c0, c1, c2];
            assert(step_extends(ch, 0) && step_extends(ch, 1));
            assert(is_chain(ch));
            lemma_has_extends(c1, c2, zero);
            assert forall|z: Seq<int>|
                admissible(z, c2.num_vars()) && #[trigger] c2.agrees_since(c0, z) implies all_hold(
                c2.added(c0),
                z,
            ) by {
                lemma_chain(ch, z);
                assert(step_agrees(ch, 0, z) && step_agrees(ch, 1, z));
                assert forall|i: int| 0 <= i < ch.len() - 1 implies #[trigger] step_holds(ch, i, z) by {}
            }
            assert forall|z: Seq<int>|
                admissible(z, c2.num_vars()) && #[trigger] all_hold(c2.added(c0), z) implies point_at(
                z,
                AllocatedPoint { x: zero, y: zero, is_infinity: one },
            ) == infinity() by {
                lemma_chain(ch, z);
                assert(step_holds(ch, 0, z) && step_holds(ch, 1, z));
            }
        }
        AllocatedPoint { x: zero, y: zero, is_infinity: one }
    }

    /// Adds two points, which may be equal: the other point when either is
    /// at infinity; else the double when they are equal, the point at
    /// infinity when their `x` coordinates agree and their `y` coordinates do
    /// not, and the chord-rule sum otherwise.
    #[verifier::spinoff_prover]
    #[verifier::rlimit(40)]
    pub fn add(&self, cs: &mut Circuit, other: &AllocatedPoint, curve_a: Fe) -> (r: AllocatedPoint)
        requires
            old(cs).wf(),
            old(cs).room(38),
            point_in(*old(cs), *self),
            point_in(*old(cs), *other),
            bit_valued(self.is_infinity),
            bit_valued(other.is_infinity),
            curve_a.wf(),
            point_known(*self) ==> val(self.is_infinity) == 1 || val(self.y) != 0,
        ensures
            grown(*final(cs), *old(cs), 38),
            point_in(*final(cs), r),
            point_new(r, old(cs).num_vars()),
            bit_valued(r.is_infinity),
            self.is_infinity.value is None || other.is_infinity.value is None ==> r.is_infinity.value is None,
            point_known(*self) && point_known(*other) ==> point_known(r) && final(cs).known_since(*old(cs))
                && point_val(r) == add_value(point_val(*self), point_val(*other), curve_a@ as int),
            point_known(*self) && point_known(*other) && val(self.is_infinity) == 1 ==> point_val(r)
                == point_val(*other),
            point_known(*self) && point_known(*other) && val(self.is_infinity) == 0 && val(other.is_infinity)
                == 1 ==> point_val(r) == point_val(*self),
            forall|z: Seq<int>|
                admissible(z, final(cs).num_vars()) && #[trigger] all_hold(final(cs).added(*old(cs)), z)
                    && is_bit(z[self.is_infinity.var as int]) && is_bit(z[other.is_infinity.var as int]) ==> (
                z[self.is_infinity.var as int] == 1 ==> point_at(z, r) == point_at(z, *other)) && (
                z[self.is_infinity.var as int] == 0 && z[other.is_infinity.var as int] == 1 ==> point_at(z, r)
                    == point_at(z, *self)),
            forall|z: Seq<int>|
                admissible(z, final(cs).num_vars()) && carries_point(z, *self) && carries_point(z, *other)
                    && #[trigger] final(cs).agrees_since(*old(cs), z) ==> all_hold(
                    final(cs).added(*old(cs)),
                    z,
                ),
            no_zero_divisors() ==> forall|z: Seq<int>|
                admissible(z, final(cs).num_vars()) && #[trigger] all_hold(
                    final(cs).added(*old(cs)),
                    z,
                ) && is_bit(z[self.is_infinity.var as int]) && is_bit(z[other.is_infinity.var as int]) && (
                point_at(z, *self).0 == point_at(z, *other).0 && point_at(z, *self).1 == point_at(
                    z,
                    *other,
                ).1 ==> z[self.is_infinity.var as int] == 1 || z[self.y.var as int] != 0) ==> point_at(z, r)
                    == add_value(point_at(z, *self), point_at(z, *other), curve_a@ as int),
    {
        let ghost c0 = *cs;
        let equal_x = alloc_num_equals(cs, self.x, other.x);
        let ghost c1 = *cs;
        proof {
            lemma_point_extends(c0, c1, *self);
            lemma_point_extends(c0, c1, *other);
        }
        let equal_y = alloc_num_equals(cs, self.y, other.y);
        let ghost c2 = *cs;
        proof {
            lemma_point_extends(c1, c2, *self);
            lemma_point_extends(c1, c2, *other);
            lemma_has_extends(c1, c2, equal_x);
        }
        let result_from_add = self.add_internal(cs, other, equal_x);
        let ghost c3 = *cs;
        proof {
            lemma_point_extends(c2, c3, *self);
            lemma_point_extends(c2, c3, *other);
            lemma_has_extends(c2, c3, equal_x);
            lemma_has_extends(c2, c3, equal_y);
        }
        let result_from_double = self.double(cs, curve_a);
        let ghost c4 = *cs;
        proof {
            lemma_point_extends(c3, c4, result_from_add);
            lemma_has_extends(c3, c4, equal_x);
            lemma_has_extends(c3, c4, equal_y);
        }
        let result_for_equal_x = AllocatedPoint::select_point_or_infinity(cs, &result_from_double, equal_y);
        let ghost c5 = *cs;
        proof {
            lemma_point_extends(c4, c5, result_from_add);
            lemma_has_extends(c4, c5, equal_x);
        }
        let by_x = AllocatedPoint::conditionally_select(cs, &result_for_equal_x, &result_from_add, equal_x);
        let ghost c6 = *cs;
        proof {
            lemma_point_extends(c5, c6, *self);
            lemma_point_extends(c5, c6, *other);
        }
        // the infinity flags decide first
        let r1 = AllocatedPoint::conditionally_select(cs, self, &by_x, other.is_infinity);
        let ghost c7 = *cs;
        proof {
            lemma_point_extends(c6, c7, *self);
            lemma_point_extends(c6, c7, *other);
        }
        let r = AllocatedPoint::conditionally_select(cs, other, &r1, self.is_infinity);
        let ghost c8 = *cs;
        proof {
            let ch = seq![c0, c1, c2, c3, c4, c5, c6, c7, c8];
            assert(step_extends(ch, 0) && step_extends(ch, 1) && step_extends(ch, 2) && step_extends(ch, 3)
                && step_extends(ch, 4) && step_extends(ch, 5) && step_extends(ch, 6) && step_extends(ch, 7));
            assert(is_chain(ch));
            lemma_chain(ch, Seq::empty());
            if point_known(*self) && point_known(*other) {
                assert(step_known(ch, 0) && step_known(ch, 1) && step_known(ch, 2) && step_known(ch, 3)
                    && step_known(ch, 4) && step_known(ch, 5) && step_known(ch, 6) && step_known(ch, 7));
                assert forall|i: int| 0 <= i < ch.len() - 1 implies #[trigger] step_known(ch, i) by {}
            }
            assert forall|z: Seq<int>|
                admissible(z, c8.num_vars()) && carries_point(z, *self) && carries_point(z, *other)
                    && #[trigger] c8.agrees_since(c0, z) implies all_hold(c8.added(c0), z) by {
                lemma_chain(ch, z);
                assert(step_agrees(ch, 0, z) && step_agrees(ch, 1, z) && step_agrees(ch, 2, z)
                    && step_agrees(ch, 3, z) && step_agrees(ch, 4, z) && step_agrees(ch, 5, z)
                    && step_agrees(ch, 6, z) && step_agrees(ch, 7, z));
                lemma_carried(c0, c1, equal_x, z);
                lemma_carried(c1, c2, equal_y, z);
                lemma_carried(c2, c3, result_from_add.x, z);
                lemma_carried(c2, c3, result_from_add.y, z);
                lemma_carried(c2, c3, result_from_add.is_infinity, z);
                lemma_carried(c3, c4, result_from_double.x, z);
                lemma_carried(c3, c4, result_from_double.y, z);
                lemma_carried(c4, c5, result_for_equal_x.x, z);
                lemma_carried(c4, c5, result_for_equal_x.y, z);
                lemma_carried(c4, c5, result_for_equal_x.is_infinity, z);
                lemma_carried(c5, c6, by_x.x, z);
                lemma_carried(c5, c6, by_x.y, z);
                lemma_carried(c5, c6, by_x.is_infinity, z);
                lemma_carried(c6, c7, r1.x, z);
                lemma_carried(c6, c7, r1.y, z);
                lemma_carried(c6, c7, r1.is_infinity, z);
                assert forall|i: int| 0 <= i < ch.len() - 1 implies #[trigger] step_holds(ch, i, z) by {}
            }
            assert forall|z: Seq<int>|
                admissible(z, c8.num_vars()) && #[trigger] all_hold(c8.added(c0), z) && is_bit(
                    z[self.is_infinity.var as int],
                ) && is_bit(z[other.is_infinity.var as int]) implies (z[self.is_infinity.var as int] == 1
                ==> point_at(z, r) == point_at(z, *other)) && (z[self.is_infinity.var as int] == 0
                && z[other.is_infinity.var as int] == 1 ==> point_at(z, r) == point_at(z, *self)) by {
                lemma_chain(ch, z);
                assert(step_holds(ch, 6, z) && step_holds(ch, 7, z));
            }
            if no_zero_divisors() {
                assert forall|z: Seq<int>|
                    admissible(z, c8.num_vars()) && #[trigger] all_hold(c8.added(c0), z) && is_bit(
                        z[self.is_infinity.var as int],
                    ) && is_bit(z[other.is_infinity.var as int]) && (point_at(z, *self).0 == point_at(
                        z,
                        *other,
                    ).0 && point_at(z, *self).1 == point_at(z, *other).1 ==> z[self.is_infinity.var as int]
                        == 1 || z[self.y.var as int] != 0) implies point_at(z, r) == add_value(
                    point_at(z, *self),
                    point_at(z, *other),
                    curve_a@ as int,
                ) by {
                    lemma_chain(ch, z);
                    assert(step_holds(ch, 0, z) && step_holds(ch, 1, z) && step_holds(ch, 2, z)
                        && step_holds(ch, 3, z) && step_holds(ch, 4, z) && step_holds(ch, 5, z)
                        && step_holds(ch, 6, z) && step_holds(ch, 7, z));
                }
            }
        }
        r
    }

    /// Adds `other` to `self` when told by the bit `equal_x` whether their
    /// `x` coordinates agree. Either point is returned when the other is at
    /// infinity; otherwise the point at infinity when `equal_x` is set
    /// (the points are opposite or equal), else the chord rule.
    #[verifier::spinoff_prover]
    #[verifier::rlimit(40)]
    pub fn add_internal(&self, cs: &mut Circuit, other: &AllocatedPoint, equal_x: Num) -> (r: AllocatedPoint)
        requires
            old(cs).wf(),
            old(cs).room(14),
            point_in(*old(cs), *self),
            point_in(*old(cs), *other),
            old(cs).has(equal_x),
            bit_valued(self.is_infinity),
            bit_valued(other.is_infinity),
            bit_valued(equal_x),
            point_known(*self) && point_known(*other) && equal_x.value is Some && or_bit(
                val(equal_x),
                or_bit(val(self.is_infinity), val(other.is_infinity)),
            ) == 0 ==> val(self.x) != val(other.x),
        ensures
            grown(*final(cs), *old(cs), 14),
            point_in(*final(cs), r),
            point_new(r, old(cs).num_vars()),
            bit_valued(r.is_infinity),
            point_known(*self) && point_known(*other) && equal_x.value is Some ==> point_known(r)
                && final(cs).known_since(*old(cs)) && point_val(r) == add_internal_value(
                point_val(*self),
                point_val(*other),
                val(equal_x),
            ),
            point_known(*self) && point_known(*other) && equal_x.value is Some && val(self.is_infinity) == 1
                ==> point_val(r) == point_val(*other),
            point_known(*self) && point_known(*other) && equal_x.value is Some && val(self.is_infinity) == 0
                && val(other.is_infinity) == 1 ==> point_val(r) == point_val(*self),
            forall|z: Seq<int>|
                admissible(z, final(cs).num_vars()) && #[trigger] all_hold(final(cs).added(*old(cs)), z)
                    && is_bit(z[self.is_infinity.var as int]) && is_bit(z[other.is_infinity.var as int]) ==> (
                z[self.is_infinity.var as int] == 1 ==> point_at(z, r) == point_at(z, *other)) && (
                z[self.is_infinity.var as int] == 0 && z[other.is_infinity.var as int] == 1 ==> point_at(z, r)
                    == point_at(z, *self)),
            forall|z: Seq<int>|
                admissible(z, final(cs).num_vars()) && carries_point(z, *self) && carries_point(z, *other)
                    && carries(z, equal_x) && #[trigger] final(cs).agrees_since(*old(cs), z) ==> all_hold(
                    final(cs).added(*old(cs)),
                    z,
                ),
            no_zero_divisors() ==> forall|z: Seq<int>|
                admissible(z, final(cs).num_vars()) && #[trigger] all_hold(
                    final(cs).added(*old(cs)),
                    z,
                ) && is_bit(z[self.is_infinity.var as int]) && is_bit(z[other.is_infinity.var as int])
                    && z[equal_x.var as int] == (if z[self.x.var as int] == z[other.x.var as int] {
                    1int
                } else {
                    0int
                }) ==> point_at(z, r) == add_internal_value(
                    point_at(z, *self),
                    point_at(z, *other),
                    z[equal_x.var as int],
                ),
    {
        let ghost c0 = *cs;
        proof {
            lemma_has_wf(c0, self.x);
            lemma_has_wf(c0, self.y);
            lemma_has_wf(c0, other.x);
            lemma_has_wf(c0, other.y);
        }
        // at_least_one_inf = self.is_infinity OR other.is_infinity
        let alo = or_gate(cs, self.is_infinity, other.is_infinity);
        let ghost c1 = *cs;
        proof {
            lemma_point_extends(c0, c1, *self);
            lemma_point_extends(c0, c1, *other);
            lemma_has_extends(c0, c1, equal_x);
        }
        // x_diff_is_actual = at_least_one_inf OR equal_x
        let act = or_gate(cs, alo, equal_x);
        let ghost c2 = *cs;
        proof {
            lemma_point_extends(c1, c2, *self);
            lemma_point_extends(c1, c2, *other);
            lemma_has_extends(c1, c2, equal_x);
        }
        // x_diff = x_diff_is_actual ? 1 : other.x - self.x
        let x_diff = select_one_or_diff2(cs, other.x, self.x, act);
        let ghost c3 = *cs;
        proof {
            lemma_point_extends(c2, c3, *self);
            lemma_point_extends(c2, c3, *other);
            lemma_has_extends(c2, c3, act);
            lemma_has_extends(c2, c3, equal_x);
            lemma_has_wf(c3, act);
        }
        // lambda = (other.y - self.y) / x_diff, or other.y - self.y when x_diff_is_actual
        let ghost mut ginv: int = 0;
        let lv = match (act.value, self.x.value, self.y.value, other.x.value, other.y.value) {
            (Some(t), Some(x1), Some(y1), Some(x2), Some(y2)) => {
                let dy = fe_sub(&y2, &y1);
                if fe_eq(&t, &fe_one()) {
                    let one = fe_one();
                    Some(fe_mul(&dy, &one))
                } else {
                    let dx = fe_sub(&x2, &x1);
                    match fe_invert(&dx) {
                        Some(inv) => {
                            proof {
                                ginv = inv@ as int;
                            }
                            Some(fe_mul(&dy, &inv))
                        },
                        None => None,
                    }
                }
            },
            _ => None,
        };
        let (lambda, x, y) = chord_block(cs, self.x, self.y, other.x, other.y, x_diff, lv);
        let ghost c4 = *cs;
        proof {
            lemma_point_extends(c3, c4, *self);
            lemma_point_extends(c3, c4, *other);
            lemma_has_extends(c3, c4, equal_x);
        }
        // the point at infinity's coordinates when the `x` coordinates agree
        let xz = select_zero_or_num2(cs, x, equal_x);
        let ghost c5 = *cs;
        proof {
            lemma_point_extends(c4, c5, *self);
            lemma_point_extends(c4, c5, *other);
            lemma_has_extends(c4, c5, equal_x);
            lemma_has_extends(c4, c5, y);
        }
        let yz = select_zero_or_num2(cs, y, equal_x);
        let ghost c6 = *cs;
        proof {
            lemma_point_extends(c5, c6, *self);
            lemma_point_extends(c5, c6, *other);
            lemma_has_extends(c5, c6, equal_x);
            lemma_has_extends(c5, c6, xz);
        }
        let r = select_unless_infinity(cs, self, other, xz, yz, equal_x);
        let ghost c7 = *cs;
        proof {
            let pm = modulus() as int;
            let ch = seq![c0, c1, c2, c3, c4, c5, c6, c7];
            assert(step_extends(ch, 0) && step_extends(ch, 1) && step_extends(ch, 2) && step_extends(ch, 3)
                && step_extends(ch, 4) && step_extends(ch, 5) && step_extends(ch, 6));
            assert(is_chain(ch));
            lemma_chain(ch, Seq::empty());
            let (X1, Y1, I1) = point_val(*self);
            let (X2, Y2, I2) = point_val(*other);
            let E = val(equal_x);
            // The honest slope.
            if lv is Some {
                let L = value_of(lv);
                if val(act) == 1 {
                    lemma_mod_twice(Y2 - Y1, pm);
                    assert(L == fmod(Y2 - Y1));
                } else {
                    lemma_mul_mod_noop_left(X2 - X1, ginv, pm);
                    lemma_mul_mod_noop_left(Y2 - Y1, ginv, pm);
                    lemma_quotient_from_inverse(Y2 - Y1, X2 - X1, ginv, L);
                    lemma_mul_mod_noop_right(L, X2 - X1, pm);
                }
            }
            if point_known(*self) && point_known(*other) && equal_x.value is Some {
                assert(val(act) == or_bit(or_bit(I1, I2), E));
                if val(act) != 1 {
                    lemma_distinct_nonzero(X2, X1);
                }
                assert(lv is Some);
                assert(step_known(ch, 0) && step_known(ch, 1) && step_known(ch, 2) && step_known(ch, 3)
                    && step_known(ch, 4) && step_known(ch, 5) && step_known(ch, 6));
                assert forall|i: int| 0 <= i < ch.len() - 1 implies #[trigger] step_known(ch, i) by {}
            }
            // Completeness.
            assert forall|z: Seq<int>|
                admissible(z, c7.num_vars()) && carries_point(z, *self) && carries_point(z, *other)
                    && carries(z, equal_x) && #[trigger] c7.agrees_since(c0, z) implies all_hold(
                c7.added(c0),
                z,
            ) by {
                lemma_chain(ch, z);
                assert(step_agrees(ch, 0, z) && step_agrees(ch, 1, z) && step_agrees(ch, 2, z)
                    && step_agrees(ch, 3, z) && step_agrees(ch, 4, z) && step_agrees(ch, 5, z)
                    && step_agrees(ch, 6, z));
                lemma_carried(c0, c1, alo, z);
                lemma_has_extends(c1, c2, alo);
                lemma_carried(c1, c2, act, z);
                lemma_carried(c2, c3, x_diff, z);
                lemma_carried(c3, c4, x, z);
                lemma_carried(c3, c4, y, z);
                lemma_carried(c4, c5, xz, z);
                lemma_carried(c5, c6, yz, z);
                assert(step_holds(ch, 0, z) && step_holds(ch, 1, z) && step_holds(ch, 2, z));
                assert(step_holds(ch, 3, z));
                assert(step_holds(ch, 4, z) && step_holds(ch, 5, z));
                assert(step_holds(ch, 6, z));
                assert forall|i: int| 0 <= i < ch.len() - 1 implies #[trigger] step_holds(ch, i, z) by {}
            }
            // Either point at infinity gives the other.
            assert forall|z: Seq<int>|
                admissible(z, c7.num_vars()) && #[trigger] all_hold(c7.added(c0), z) && is_bit(
                    z[self.is_infinity.var as int],
                ) && is_bit(z[other.is_infinity.var as int]) implies (z[self.is_infinity.var as int] == 1
                ==> point_at(z, r) == point_at(z, *other)) && (z[self.is_infinity.var as int] == 0
                && z[other.is_infinity.var as int] == 1 ==> point_at(z, r) == point_at(z, *self)) by {
                lemma_chain(ch, z);
                assert(step_holds(ch, 6, z));
            }
            // Soundness.
            if no_zero_divisors() {
                assert forall|z: Seq<int>|
                    admissible(z, c7.num_vars()) && #[trigger] all_hold(c7.added(c0), z) && is_bit(
                        z[self.is_infinity.var as int],
                    ) && is_bit(z[other.is_infinity.var as int]) && z[equal_x.var as int] == (if z[self.x.var
                        as int] == z[other.x.var as int] {
                        1int
                    } else {
                        0int
                    }) implies point_at(z, r) == add_internal_value(
                    point_at(z, *self),
                    point_at(z, *other),
                    z[equal_x.var as int],
                ) by {
                    lemma_chain(ch, z);
                    assert(step_holds(ch, 0, z) && step_holds(ch, 1, z) && step_holds(ch, 2, z)
                        && step_holds(ch, 3, z) && step_holds(ch, 4, z) && step_holds(ch, 5, z)
                        && step_holds(ch, 6, z));
                    let (zx1, zy1, zi1) = point_at(z, *self);
                    let (zx2, zy2, zi2) = point_at(z, *other);
                    let ze = z[equal_x.var as int];
                    let zt = z[act.var as int];
                    let L = z[lambda.var as int];
                    assert(zt == or_bit(or_bit(zi1, zi2), ze));
                    if zt == 1 {
                        assert(L * 1 == L);
                        lemma_canonical_eq(L, fmod(zy2 - zy1) as int);
                    } else {
                        lemma_distinct_nonzero(zx2, zx1);
                        lemma_mul_mod_noop_right(L, zx2 - zx1, pm);
                        lemma_quotient_unique(zy2 - zy1, zx2 - zx1, L);
                    }
                }
            }
        }
        r
    }

    /// Doubles `self`: the tangent rule with slope `(3 x^2 + a) / 2 y`, where
    /// `2 y` is replaced by one for the point at infinity, whose double is
    /// the point at infinity.
    #[verifier::spinoff_prover]
    #[verifier::rlimit(40)]
    pub fn double(&self, cs: &mut Circuit, curve_a: Fe) -> (r: AllocatedPoint)
        requires
            old(cs).wf(),
            old(cs).room(8),
            point_in(*old(cs), *self),
            bit_valued(self.is_infinity),
            curve_a.wf(),
            point_known(*self) ==> val(self.is_infinity) == 1 || val(self.y) != 0,
        ensures
            grown(*final(cs), *old(cs), 8),
            point_in(*final(cs), r),
            r.is_infinity == self.is_infinity,
            old(cs).num_vars() <= r.x.var && old(cs).num_vars() <= r.y.var,
            point_known(*self) ==> point_known(r) && final(cs).known_since(*old(cs)) && point_val(r)
                == double_value(point_val(*self), curve_a@ as int),
            forall|z: Seq<int>|
                admissible(z, final(cs).num_vars()) && carries_point(z, *self)
                    && #[trigger] final(cs).agrees_since(*old(cs), z) ==> all_hold(
                    final(cs).added(*old(cs)),
                    z,
                ),
            no_zero_divisors() ==> forall|z: Seq<int>|
                admissible(z, final(cs).num_vars()) && #[trigger] all_hold(
                    final(cs).added(*old(cs)),
                    z,
                ) && is_bit(z[self.is_infinity.var as int]) && (z[self.is_infinity.var as int] == 1
                    || z[self.y.var as int] != 0) ==> point_at(z, r) == double_value(
                    point_at(z, *self),
                    curve_a@ as int,
                ),
    {
        let ghost c0 = *cs;
        proof {
            lemma_has_wf(c0, self.x);
            lemma_has_wf(c0, self.y);
            lemma_has_wf(c0, self.is_infinity);
        }
        // tmp_actual = 2 y
        let ta_val = match self.y.value {
            Some(yv) => Some(fe_add(&yv, &yv)),
            None => None,
        };
        let tmp_actual = cs.alloc_var(ta_val);
        let (la0, lb0, lc0) = (lc_add2(0, 0), lc_var1(self.y.var), lc_var1(tmp_actual.var));
        let ghost (ga0, gb0, gc0) = (la0@, lb0@, lc0@);
        cs.enforce(la0, lb0, lc0);
        let ghost c1 = *cs;
        proof {
            lemma_point_extends(c0, c1, *self);
            assert(c1.aux@[tmp_actual.var - 1] == tmp_actual.value);
        }
        // tmp = is_infinity ? 1 : 2 y
        let tmp = select_one_or_num2(cs, tmp_actual, self.is_infinity);
        let ghost c2 = *cs;
        proof {
            lemma_point_extends(c1, c2, *self);
            lemma_has_wf(c2, tmp);
        }
        // prod_1 = 3 x^2
        let three = fe_from_u64(3);
        let p1_val = match self.x.value {
            Some(xv) => {
                let t = fe_mul(&three, &xv);
                Some(fe_mul(&t, &xv))
            },
            None => None,
        };
        let prod_1 = scaled_product(cs, self.x.var, three, self.x.var, p1_val);
        let ghost c3 = *cs;
        proof {
            lemma_point_extends(c2, c3, *self);
            lemma_has_extends(c2, c3, tmp);
        }
        // lambda = (prod_1 + a) / tmp, or prod_1 + a at infinity
        let ghost mut ginv: int = 0;
        let lv = match (self.is_infinity.value, tmp.value, p1_val) {
            (Some(inf), Some(t), Some(p1)) => {
                let num = fe_add(&p1, &curve_a);
                if fe_eq(&inf, &fe_one()) {
                    let one = fe_one();
                    Some(fe_mul(&one, &num))
                } else {
                    match fe_invert(&t) {
                        Some(inv) => {
                            proof {
                                ginv = inv@ as int;
                            }
                            Some(fe_mul(&inv, &num))
                        },
                        None => None,
                    }
                }
            },
            _ => None,
        };
        let (lambda, x3, y3) = tangent_block(cs, self.x, self.y, prod_1, tmp, curve_a, lv);
        let ghost c4 = *cs;
        proof {
            lemma_point_extends(c3, c4, *self);
        }
        let xo = select_zero_or_num2(cs, x3, self.is_infinity);
        let ghost c5 = *cs;
        proof {
            lemma_point_extends(c4, c5, *self);
            lemma_has_extends(c4, c5, y3);
        }
        let yo = select_zero_or_num2(cs, y3, self.is_infinity);
        let ghost c6 = *cs;
        let r = AllocatedPoint { x: xo, y: yo, is_infinity: self.is_infinity };
        proof {
            lemma_point_extends(c5, c6, *self);
            lemma_has_extends(c5, c6, xo);
            let pm = modulus() as int;
            let ca = curve_a@ as int;
            let ch = seq![c0, c1, c2, c3, c4, c5, c6];
            assert(step_extends(ch, 0) && step_extends(ch, 1) && step_extends(ch, 2) && step_extends(ch, 3)
                && step_extends(ch, 4) && step_extends(ch, 5));
            assert(is_chain(ch));
            lemma_chain(ch, Seq::empty());
            let k0 = c1.constraints@.last();
            assert(k0.a@ == ga0 && k0.b@ == gb0 && k0.c@ == gc0);
            let (vx, vy, vi, vta) = (self.x.var as int, self.y.var as int, self.is_infinity.var as int, tmp_actual.var as int);
            assert forall|z: Seq<int>| admissible(z, c6.num_vars()) implies (all_hold(c1.added(c0), z)
                <==> fmod(2 * z[vy]) == fmod(z[vta])) by {
                lemma_added_one(c0, c1, z);
                lemma_lc2(k0.a@, z, 1, 1);
                lemma_lc1(k0.b@, z, 1);
                lemma_lc1(k0.c@, z, 1);
                lemma_holds_iff(k0, z, 2, z[vy], z[vta]);
            }
            let (X, Y, I) = point_val(*self);
            let n = fmod(3 * X * X + ca) as int;
            if p1_val is Some {
                lemma_mul_mod_noop_left(3 * X, X, pm);
                lemma_add_mod_noop(fmod(3 * X * X) as int, ca, pm);
                lemma_add_mod_noop(3 * X * X, ca, pm);
                lemma_mod_twice(3 * X * X, pm);
                assert(fmod(val(prod_1) + ca) == n);
            }
            if lv is Some {
                let L = value_of(lv);
                if I == 1 {
                    lemma_mod_twice(val(prod_1) + ca, pm);
                } else {
                    lemma_mul_mod_noop_left(2 * Y, ginv, pm);
                    lemma_mul_is_commutative(ginv, n);
                    lemma_mod_twice(2 * Y, pm);
                    lemma_quotient_from_inverse(n, fmod(2 * Y) as int, ginv, L);
                    lemma_mul_mod_noop_left(2 * Y, L, pm);
                    lemma_mul_is_commutative(2 * Y, L);
                }
            }
            if point_known(*self) {
                if I != 1 {
                    lemma_double_nonzero(Y);
                }
                assert(lv is Some);
                assert(step_known(ch, 0) && step_known(ch, 1) && step_known(ch, 2) && step_known(ch, 3)
                    && step_known(ch, 4) && step_known(ch, 5));
                assert forall|i: int| 0 <= i < ch.len() - 1 implies #[trigger] step_known(ch, i) by {}
            }
            // Completeness.
            assert forall|z: Seq<int>|
                admissible(z, c6.num_vars()) && carries_point(z, *self) && #[trigger] c6.agrees_since(c0, z)
                    implies all_hold(c6.added(c0), z) by {
                lemma_chain(ch, z);
                assert(step_agrees(ch, 0, z) && step_agrees(ch, 1, z) && step_agrees(ch, 2, z)
                    && step_agrees(ch, 3, z) && step_agrees(ch, 4, z) && step_agrees(ch, 5, z));
                lemma_carried(c0, c1, tmp_actual, z);
                lemma_has_extends(c1, c2, tmp_actual);
                lemma_carried(c1, c2, tmp, z);
                lemma_carried(c2, c3, prod_1, z);
                lemma_carried(c3, c4, x3, z);
                lemma_carried(c3, c4, y3, z);
                lemma_mul_mod_noop_left(3 * X, X, pm);
                lemma_mod_twice(2 * Y, pm);
                assert(fmod(2 * z[vy]) == fmod(z[vta]));
                assert(step_holds(ch, 0, z) && step_holds(ch, 1, z) && step_holds(ch, 2, z));
                if I == 1 {
                    assert(val(tmp) * value_of(lv) == value_of(lv));
                }
                assert(step_holds(ch, 3, z) && step_holds(ch, 4, z) && step_holds(ch, 5, z));
                assert forall|i: int| 0 <= i < ch.len() - 1 implies #[trigger] step_holds(ch, i, z) by {}
            }
            // Soundness.
            if no_zero_divisors() {
                assert forall|z: Seq<int>|
                    admissible(z, c6.num_vars()) && #[trigger] all_hold(c6.added(c0), z) && is_bit(z[vi]) && (
                    z[vi] == 1 || z[vy] != 0) implies point_at(z, r) == double_value(point_at(z, *self), ca) by {
                    lemma_chain(ch, z);
                    assert(step_holds(ch, 0, z) && step_holds(ch, 1, z) && step_holds(ch, 2, z)
                        && step_holds(ch, 3, z) && step_holds(ch, 4, z) && step_holds(ch, 5, z));
                    let (zx, zy, zi) = point_at(z, *self);
                    let L = z[lambda.var as int];
                    let zn = fmod(3 * zx * zx + ca) as int;
                    let zp = z[prod_1.var as int];
                    let zt = z[tmp.var as int];
                    assert(fmod((3 * zx) * zx) == fmod(zp));
                    lemma_add_mod_noop(zp, ca, pm);
                    lemma_add_mod_noop(3 * zx * zx, ca, pm);
                    assert(fmod(zp + ca) == zn);
                    if zi == 1 {
                        assert(zt == 1);
                        assert(1 * L == L);
                        lemma_mod_twice(3 * zx * zx + ca, pm);
                        lemma_canonical_eq(L, zn);
                    } else {
                        lemma_double_nonzero(zy);
                        lemma_canonical_eq(zt, fmod(2 * zy) as int);
                        lemma_mul_mod_noop_left(2 * zy, L, pm);
                        lemma_mul_is_commutative(2 * zy, L);
                        lemma_mod_twice(2 * zy, pm);
                        lemma_mod_twice(3 * zx * zx + ca, pm);
                        lemma_mul_mod_noop_right(L, 2 * zy, pm);
                        lemma_quotient_unique(zn, fmod(2 * zy) as int, L);
                    }
                }
            }
        }
        r
    }

    /// The negation of `self`: the same `x` and flag, and a new `y`
    /// constrained by `self.y * 1 = -y`.
    pub fn negate(&self, cs: &mut Circuit) -> (r: AllocatedPoint)
        requires
            old(cs).wf(),
            old(cs).room(1),
            point_in(*old(cs), *self),
        ensures
            grown(*final(cs), *old(cs), 1),
            point_in(*final(cs), r),
            r.x == self.x,
            r.is_infinity == self.is_infinity,
            old(cs).num_vars() <= r.y.var,
            self.y.value is Some ==> r.y.value is Some,
            r.y.value is Some ==> point_val(r) == negate_value(point_val(*self)),
            forall|z: Seq<int>|
                admissible(z, final(cs).num_vars()) && carries(z, self.y)
                    && #[trigger] final(cs).agrees_since(*old(cs), z) ==> all_hold(
                    final(cs).added(*old(cs)),
                    z,
                ),
            forall|z: Seq<int>|
                admissible(z, final(cs).num_vars()) && #[trigger] all_hold(
                    final(cs).added(*old(cs)),
                    z,
                ) ==> point_at(z, r) == negate_value(point_at(z, *self)),
    {
        let ghost c0 = *cs;
        proof {
            lemma_has_wf(c0, self.y);
        }
        let v = match self.y.value {
            Some(y) => Some(fe_neg(&y)),
            None => None,
        };
        let y = cs.alloc_var(v);
        let mut la: Vec<Term> = Vec::new();
        la.push(Term { var: self.y.var, coeff: fe_one() });
        let mut lb: Vec<Term> = Vec::new();
        lb.push(Term { var: 0, coeff: fe_one() });
        let mut lc: Vec<Term> = Vec::new();
        let one = fe_one();
        lc.push(Term { var: y.var, coeff: fe_neg(&one) });
        let ghost (ga, gb, gc) = (la@, lb@, lc@);
        cs.enforce(la, lb, lc);
        proof {
            let c1 = *cs;
            assert(c1.constraints@.last().a@ == ga && c1.constraints@.last().b@ == gb
                && c1.constraints@.last().c@ == gc);
            lemma_minus_one();
            lemma_has_extends(c0, c1, self.x);
            lemma_has_extends(c0, c1, self.y);
            lemma_has_extends(c0, c1, self.is_infinity);
            let con = c1.constraints@.last();
            let (xs, xr) = (self.y.var as int, y.var as int);
            assert forall|z: Seq<int>| admissible(z, c1.num_vars()) implies (holds(con, z) <==> fmod(
                z[xs] * 1,
            ) == fmod(-z[xr])) && (all_hold(c1.added(c0), z) <==> holds(con, z)) by {
                lemma_added_one(c0, c1, z);
                lemma_lc1(con.a@, z, 1);
                lemma_lc1(con.b@, z, 1);
                lemma_lc1(con.c@, z, -1);
                lemma_holds_iff(con, z, z[xs], 1, -z[xr]);
            }
            assert forall|z: Seq<int>|
                admissible(z, c1.num_vars()) && carries(z, self.y) && #[trigger] c1.agrees_since(c0, z)
                    implies all_hold(c1.added(c0), z) by {
                assert(c1.aux@[y.var - 1] == y.value);
                let p = modulus() as int;
                lemma_mod_multiples_vanish(1, -z[xs], p);
                lemma_fundamental_div_mod(-z[xs], p);
                assert(fmod(-z[xr]) == fmod(z[xs])) by {
                    lemma_neg_neg_mod(z[xs]);
                }
            }
            assert forall|z: Seq<int>|
                admissible(z, c1.num_vars()) && #[trigger] all_hold(c1.added(c0), z) implies z[xr]
                == fmod(-z[xs]) as int by {
                lemma_added_one(c0, c1, z);
                assert(holds(c1.constraints@.last(), z));
                lemma_neg_neg_mod(z[xr]);
                lemma_canonical_eq(z[xr], fmod(-z[xs]) as int);
            }
        }
        AllocatedPoint { x: self.x, y, is_infinity: self.is_infinity }
    }

    /// `a` if the bit `condition` is set, otherwise `b`, coordinate by
    /// coordinate.
    pub fn conditionally_select(cs: &mut Circuit, a: &AllocatedPoint, b: &AllocatedPoint, condition: Num) -> (r: AllocatedPoint)
        requires
            old(cs).wf(),
            old(cs).room(3),
            point_in(*old(cs), *a),
            point_in(*old(cs), *b),
            old(cs).has(condition),
            bit_valued(condition),
        ensures
            grown(*final(cs), *old(cs), 3),
            point_in(*final(cs), r),
            point_new(r, old(cs).num_vars()),
            point_known(*a) && point_known(*b) && condition.value is Some ==> point_known(r)
                && final(cs).known_since(*old(cs)),
            condition.value is None ==> r.x.value is None && r.y.value is None && r.is_infinity.value is None,
            r.is_infinity.value == (match condition.value {
                Some(c) => if c@ == 1 {
                    a.is_infinity.value
                } else {
                    b.is_infinity.value
                },
                None => None,
            }),
            point_known(r) ==> point_val(r) == select_point(val(condition), point_val(*a), point_val(*b)),
            bit_valued(a.is_infinity) && bit_valued(b.is_infinity) ==> bit_valued(r.is_infinity),
            forall|z: Seq<int>|
                admissible(z, final(cs).num_vars()) && carries_point(z, *a) && carries_point(z, *b)
                    && carries(z, condition) && #[trigger] final(cs).agrees_since(*old(cs), z)
                    ==> all_hold(final(cs).added(*old(cs)), z),
            forall|z: Seq<int>|
                admissible(z, final(cs).num_vars()) && #[trigger] all_hold(
                    final(cs).added(*old(cs)),
                    z,
                ) && is_bit(z[condition.var as int]) ==> point_at(z, r) == select_point(
                    z[condition.var as int],
                    point_at(z, *a),
                    point_at(z, *b),
                ),
    {
        let ghost c0 = *cs;
        let x = crate::gadgets::utils::conditionally_select(cs, a.x, b.x, condition);
        let ghost c1 = *cs;
        proof {
            lemma_has_extends(c0, c1, a.y);
            lemma_has_extends(c0, c1, b.y);
            lemma_has_extends(c0, c1, a.is_infinity);
            lemma_has_extends(c0, c1, b.is_infinity);
            lemma_has_extends(c0, c1, condition);
        }
        let y = crate::gadgets::utils::conditionally_select(cs, a.y, b.y, condition);
        let ghost c2 = *cs;
        proof {
            lemma_has_extends(c1, c2, a.is_infinity);
            lemma_has_extends(c1, c2, b.is_infinity);
            lemma_has_extends(c1, c2, condition);
            lemma_has_extends(c1, c2, x);
        }
        let is_infinity = crate::gadgets::utils::conditionally_select(
            cs,
            a.is_infinity,
            b.is_infinity,
            condition,
        );
        let ghost c3 = *cs;
        proof {
            lemma_has_extends(c2, c3, x);
            lemma_has_extends(c2, c3, y);
            let ch = seq![c0, c1, c2, c3];
            assert(step_extends(ch, 0) && step_extends(ch, 1) && step_extends(ch, 2));
            assert(is_chain(ch));
            lemma_chain(ch, Seq::empty());
            if point_known(*a) && point_known(*b) && condition.value is Some {
                assert(x.value is Some && y.value is Some && is_infinity.value is Some);
                assert(c1.aux@[x.var - 1] == x.value);
                assert(c2.aux@[y.var - 1] == y.value);
                assert(c3.aux@[is_infinity.var - 1] == is_infinity.value);
                assert(step_known(ch, 0) && step_known(ch, 1) && step_known(ch, 2));
                assert forall|i: int| 0 <= i < ch.len() - 1 implies #[trigger] step_known(ch, i) by {}
            }
            assert forall|z: Seq<int>|
                admissible(z, c3.num_vars()) && carries_point(z, *a) && carries_point(z, *b) && carries(
                    z,
                    condition,
                ) && #[trigger] c3.agrees_since(c0, z) implies all_hold(c3.added(c0), z) by {
                lemma_chain(ch, z);
                assert(step_agrees(ch, 0, z) && step_agrees(ch, 1, z) && step_agrees(ch, 2, z));
                assert forall|i: int| 0 <= i < ch.len() - 1 implies #[trigger] step_holds(ch, i, z) by {}
            }
            assert forall|z: Seq<int>|
                admissible(z, c3.num_vars()) && #[trigger] all_hold(c3.added(c0), z) && is_bit(
                    z[condition.var as int],
                ) implies point_at(z, AllocatedPoint { x, y, is_infinity }) == select_point(
                z[condition.var as int],
                point_at(z, *a),
                point_at(z, *b),
            ) by {
                lemma_chain(ch, z);
                assert(step_holds(ch, 0, z) && step_holds(ch, 1, z) && step_holds(ch, 2, z));
            }
        }
        AllocatedPoint { x, y, is_infinity }
    }

    /// `a` if the bit `condition` is set, otherwise the point at infinity.
    pub fn select_point_or_infinity(cs: &mut Circuit, a: &AllocatedPoint, condition: Num) -> (r: AllocatedPoint)
        requires
            old(cs).wf(),
            old(cs).room(3),
            point_in(*old(cs), *a),
            old(cs).has(condition),
            bit_valued(condition),
        ensures
            grown(*final(cs), *old(cs), 3),
            point_in(*final(cs), r),
            point_new(r, old(cs).num_vars()),
            point_known(*a) && condition.value is Some ==> point_known(r) && final(cs).known_since(*old(cs)),
            point_known(r) ==> point_val(r) == select_point(val(condition), point_val(*a), infinity()),
            bit_valued(a.is_infinity) ==> bit_valued(r.is_infinity),
            forall|z: Seq<int>|
                admissible(z, final(cs).num_vars()) && carries_point(z, *a) && carries(z, condition)
                    && #[trigger] final(cs).agrees_since(*old(cs), z) ==> all_hold(
                    final(cs).added(*old(cs)),
                    z,
                ),
            forall|z: Seq<int>|
                admissible(z, final(cs).num_vars()) && #[trigger] all_hold(
                    final(cs).added(*old(cs)),
                    z,
                ) && is_bit(z[condition.var as int]) ==> point_at(z, r) == select_point(
                    z[condition.var as int],
                    point_at(z, *a),
                    infinity(),
                ),
    {
        let ghost c0 = *cs;
        let x = select_num_or_zero(cs, a.x, condition);
        let ghost c1 = *cs;
        proof {
            lemma_has_extends(c0, c1, a.y);
            lemma_has_extends(c0, c1, a.is_infinity);
            lemma_has_extends(c0, c1, condition);
        }
        let y = select_num_or_zero(cs, a.y, condition);
        let ghost c2 = *cs;
        proof {
            lemma_has_extends(c1, c2, a.is_infinity);
            lemma_has_extends(c1, c2, condition);
            lemma_has_extends(c1, c2, x);
        }
        let is_infinity = select_num_or_one(cs, a.is_infinity, condition);
        let ghost c3 = *cs;
        proof {
            lemma_has_extends(c2, c3, x);
            lemma_has_extends(c2, c3, y);
            let ch = seq![c0, c1, c2, c3];
            assert(step_extends(ch, 0) && step_extends(ch, 1) && step_extends(ch, 2));
            assert(is_chain(ch));
            lemma_chain(ch, Seq::empty());
            if point_known(*a) && condition.value is Some {
                assert(c1.aux@[x.var - 1] == x.value);
                assert(c2.aux@[y.var - 1] == y.value);
                assert(c3.aux@[is_infinity.var - 1] == is_infinity.value);
                assert(step_known(ch, 0) && step_known(ch, 1) && step_known(ch, 2));
                assert forall|i: int| 0 <= i < ch.len() - 1 implies #[trigger] step_known(ch, i) by {}
            }
            assert forall|z: Seq<int>|
                admissible(z, c3.num_vars()) && carries_point(z, *a) && carries(z, condition)
                    && #[trigger] c3.agrees_since(c0, z) implies all_hold(c3.added(c0), z) by {
                lemma_chain(ch, z);
                assert(step_agrees(ch, 0, z) && step_agrees(ch, 1, z) && step_agrees(ch, 2, z));
                assert forall|i: int| 0 <= i < ch.len() - 1 implies #[trigger] step_holds(ch, i, z) by {}
            }
            assert forall|z: Seq<int>|
                admissible(z, c3.num_vars()) && #[trigger] all_hold(c3.added(c0), z) && is_bit(
                    z[condition.var as int],
                ) implies point_at(z, AllocatedPoint { x, y, is_infinity }) == select_point(
                z[condition.var as int],
                point_at(z, *a),
                infinity(),
            ) by {
                lemma_chain(ch, z);
                assert(step_holds(ch, 0, z) && step_holds(ch, 1, z) && step_holds(ch, 2, z));
            }
        }
        AllocatedPoint { x, y, is_infinity }
    }

    /// Constrains `self` to be on the curve `y^2 = x^3 + a x + b` unless it
    /// is the point at infinity:
    /// `(1 - is_infinity) * y^2 = (1 - is_infinity) * (x^3 + a x + b)`.
    #[verifier::spinoff_prover]
    pub fn check_on_curve(&self, cs: &mut Circuit, curve_a: Fe, curve_b: Fe)
        requires
            old(cs).wf(),
            old(cs).room(4),
            point_in(*old(cs), *self),
            bit_valued(self.is_infinity),
            curve_a.wf(),
            curve_b.wf(),
        ensures
            grown(*final(cs), *old(cs), 4),
            point_known(*self) ==> final(cs).known_since(*old(cs)),
            forall|z: Seq<int>|
                admissible(z, final(cs).num_vars()) && carries_point(z, *self) && on_curve(
                    point_val(*self),
                    curve_a@ as int,
                    curve_b@ as int,
                ) && #[trigger] final(cs).agrees_since(*old(cs), z) ==> all_hold(
                    final(cs).added(*old(cs)),
                    z,
                ),
            forall|z: Seq<int>|
                admissible(z, final(cs).num_vars()) && #[trigger] all_hold(
                    final(cs).added(*old(cs)),
                    z,
                ) && is_bit(z[self.is_infinity.var as int]) ==> on_curve(
                    point_at(z, *self),
                    curve_a@ as int,
                    curve_b@ as int,
                ),
    {
        let ghost c0 = *cs;
        let y_square = square(cs, self.y);
        let ghost c1 = *cs;
        proof {
            lemma_has_extends(c0, c1, self.x);
            lemma_has_extends(c0, c1, self.y);
            lemma_has_extends(c0, c1, self.is_infinity);
        }
        let x_square = square(cs, self.x);
        let ghost c2 = *cs;
        proof {
            lemma_has_extends(c1, c2, self.x);
            lemma_has_extends(c1, c2, self.y);
            lemma_has_extends(c1, c2, self.is_infinity);
            lemma_has_extends(c1, c2, y_square);
        }
        let x_cube = mul_num(cs, self.x, x_square);
        let ghost c3 = *cs;
        proof {
            lemma_has_extends(c2, c3, self.x);
            lemma_has_extends(c2, c3, self.is_infinity);
            lemma_has_extends(c2, c3, y_square);
            lemma_has_extends(c2, c3, x_square);
            lemma_has_wf(c3, self.x);
            lemma_has_wf(c3, self.is_infinity);
            lemma_has_wf(c3, x_cube);
        }
        let rhs_val = match self.is_infinity.value {
            Some(inf) => if fe_eq(&inf, &fe_one()) {
                Some(fe_zero())
            } else {
                match (x_cube.value, self.x.value) {
                    (Some(xc), Some(xv)) => {
                        let ax = fe_mul(&xv, &curve_a);
                        let t = fe_add(&xc, &ax);
                        Some(fe_add(&t, &curve_b))
                    },
                    _ => None,
                }
            },
            None => None,
        };
        let rhs = cs.alloc_var(rhs_val);
        let mut la: Vec<Term> = Vec::new();
        la.push(Term { var: x_cube.var, coeff: fe_one() });
        la.push(Term { var: self.x.var, coeff: curve_a });
        la.push(Term { var: 0, coeff: curve_b });
        let mut lb: Vec<Term> = Vec::new();
        lb.push(Term { var: 0, coeff: fe_one() });
        lb.push(Term { var: self.is_infinity.var, coeff: fe_neg(&fe_one()) });
        let mut lc: Vec<Term> = Vec::new();
        lc.push(Term { var: rhs.var, coeff: fe_one() });
        let ghost (ga, gb, gc) = (la@, lb@, lc@);
        cs.enforce(la, lb, lc);
        let mut la2: Vec<Term> = Vec::new();
        la2.push(Term { var: y_square.var, coeff: fe_one() });
        let mut lb2: Vec<Term> = Vec::new();
        lb2.push(Term { var: 0, coeff: fe_one() });
        lb2.push(Term { var: self.is_infinity.var, coeff: fe_neg(&fe_one()) });
        let mut lc2: Vec<Term> = Vec::new();
        lc2.push(Term { var: rhs.var, coeff: fe_one() });
        let ghost (ga2, gb2, gc2) = (la2@, lb2@, lc2@);
        cs.enforce(la2, lb2, lc2);
        proof {
            let c4 = *cs;
            lemma_minus_one();
            let p = modulus() as int;
            let n3 = c3.constraints@.len() as int;
            let con1 = c4.constraints@[n3];
            let con2 = c4.constraints@.last();
            assert(con1.a@ == ga && con1.b@ == gb && con1.c@ == gc);
            assert(con2.a@ == ga2 && con2.b@ == gb2 && con2.c@ == gc2);
            assert(ga.len() == 3 && ga[0].var == x_cube.var && ga[1].var == self.x.var && ga[2].var == 0);
            assert(ga[0].coeff@ == 1 && ga[1].coeff@ == curve_a@ && ga[2].coeff@ == curve_b@);
            assert(gb.len() == 2 && gb[0].var == 0 && gb[1].var == self.is_infinity.var);
            assert(gb[0].coeff@ == 1 && gb[1].coeff@ == modulus() - 1);
            assert(gc.len() == 1 && gc[0].var == rhs.var && gc[0].coeff@ == 1);
            assert(ga2.len() == 1 && ga2[0].var == y_square.var && ga2[0].coeff@ == 1);
            assert(gb2.len() == 2 && gb2[0].var == 0 && gb2[1].var == self.is_infinity.var);
            assert(gb2[0].coeff@ == 1 && gb2[1].coeff@ == modulus() - 1);
            assert(gc2.len() == 1 && gc2[0].var == rhs.var && gc2[0].coeff@ == 1);
            assert(c4.extends(c3));
            let (xx, xy, xi, xsq, xxs, xxc, xr) = (
                self.x.var as int,
                self.y.var as int,
                self.is_infinity.var as int,
                y_square.var as int,
                x_square.var as int,
                x_cube.var as int,
                rhs.var as int,
            );
            let (ca, cb) = (curve_a@ as int, curve_b@ as int);
            assert forall|z: Seq<int>| admissible(z, c4.num_vars()) implies (holds(con1, z) <==> fmod(
                (z[xxc] + ca * z[xx] + cb) * (1 - z[xi]),
            ) == fmod(z[xr])) && (holds(con2, z) <==> fmod(z[xsq] * (1 - z[xi])) == fmod(z[xr])) && (
            all_hold(c4.added(c3), z) <==> holds(con1, z) && holds(con2, z)) by {
                lemma_added_two(c3, c4, z);
                lemma_lc3(con1.a@, z, 1, ca, cb);
                assert(cb * z[0] == cb) by (nonlinear_arith)
                    requires
                        z[0] == 1,
                ;
                lemma_lc2(con1.b@, z, 1, -1);
                lemma_lc1(con1.c@, z, 1);
                lemma_holds_iff(con1, z, z[xxc] + ca * z[xx] + cb, 1 - z[xi], z[xr]);
                lemma_lc1(con2.a@, z, 1);
                lemma_lc2(con2.b@, z, 1, -1);
                lemma_lc1(con2.c@, z, 1);
                lemma_holds_iff(con2, z, z[xsq], 1 - z[xi], z[xr]);
            }
            let ch = seq![c0, c1, c2, c3, c4];
            assert(step_extends(ch, 0) && step_extends(ch, 1) && step_extends(ch, 2) && step_extends(
                ch,
                3,
            ));
            assert(is_chain(ch));
            lemma_chain(ch, Seq::empty());
            if point_known(*self) {
                assert(step_known(ch, 0) && step_known(ch, 1) && step_known(ch, 2));
                assert(c4.aux@[rhs.var - 1] == rhs.value);
                assert(step_known(ch, 3));
                assert forall|i: int| 0 <= i < ch.len() - 1 implies #[trigger] step_known(ch, i) by {}
            }
            assert forall|z: Seq<int>|
                admissible(z, c4.num_vars()) && carries_point(z, *self) && on_curve(
                    point_val(*self),
                    ca,
                    cb,
                ) && #[trigger] c4.agrees_since(c0, z) implies all_hold(c4.added(c0), z) by {
                lemma_chain(ch, z);
                assert(step_agrees(ch, 0, z) && step_agrees(ch, 1, z) && step_agrees(ch, 2, z)
                    && step_agrees(ch, 3, z));
                lemma_carried(c0, c1, y_square, z);
                lemma_carried(c1, c2, x_square, z);
                lemma_carried(c2, c3, x_cube, z);
                lemma_has_extends(c3, c4, x_cube);
                lemma_carried(c3, c4, rhs, z);
                assert(step_holds(ch, 0, z) && step_holds(ch, 1, z) && step_holds(ch, 2, z));
                if z[xi] != 1 {
                    lemma_fadd3(z[xxc], z[xx], ca, cb);
                }
                lemma_curve_check_complete(z[xx], z[xy], z[xi], z[xsq], z[xxs], z[xxc], z[xr], ca, cb);
                assert(step_holds(ch, 3, z));
                assert forall|k: int| 0 <= k < ch.len() - 1 implies #[trigger] step_holds(ch, k, z) by {}
            }
            assert forall|z: Seq<int>|
                admissible(z, c4.num_vars()) && #[trigger] all_hold(c4.added(c0), z) && is_bit(z[xi])
                    implies on_curve(point_at(z, *self), ca, cb) by {
                lemma_chain(ch, z);
                assert(step_holds(ch, 0, z) && step_holds(ch, 1, z) && step_holds(ch, 2, z)
                    && step_holds(ch, 3, z));
                assert(all_hold(c4.added(c3), z));
                assert(holds(con1, z) && holds(con2, z));
                lemma_curve_check_sound(z[xx], z[xy], z[xi], z[xsq], z[xxs], z[xxc], z[xr], ca, cb);
            }
        }
    }
}

/// The "or" of two bits, constrained by `(1 - a) * (1 - b) = 1 - r`.
fn or_gate(cs: &mut Circuit, a: Num, b: Num) -> (r: Num)
    requires
        old(cs).wf(),
        old(cs).room(1),
        old(cs).has(a),
        old(cs).has(b),
        bit_valued(a),
        bit_valued(b),
    ensures
        grown(*final(cs), *old(cs), 1),
        final(cs).has(r),
        old(cs).num_vars() <= r.var,
        bit_valued(r),
        a.value is Some && b.value is Some ==> r.value is Some,
        r.value is Some ==> val(r) == or_bit(val(a), val(b)),
        forall|z: Seq<int>|
            admissible(z, final(cs).num_vars()) && carries(z, a) && carries(z, b)
                && #[trigger] final(cs).agrees_since(*old(cs), z) ==> all_hold(
                final(cs).added(*old(cs)),
                z,
            ),
        forall|z: Seq<int>|
            admissible(z, final(cs).num_vars()) && #[trigger] all_hold(final(cs).added(*old(cs)), z)
                && is_bit(z[a.var as int]) && is_bit(z[b.var as int]) ==> z[r.var as int] == or_bit(
                z[a.var as int],
                z[b.var as int],
            ),
{
    let ghost c0 = *cs;
    proof {
        lemma_has_wf(c0, a);
        lemma_has_wf(c0, b);
    }
    let v = match (a.value, b.value) {
        (Some(x), Some(y)) => {
            let one = fe_one();
            let nx = fe_sub(&one, &x);
            let ny = fe_sub(&one, &y);
            let m = fe_mul(&nx, &ny);
            Some(fe_sub(&one, &m))
        },
        _ => None,
    };
    let r = cs.alloc_var(v);
    let (la, lb, lc) = (lc_sub2(0, a.var), lc_sub2(0, b.var), lc_sub2(0, r.var));
    let ghost (ga, gb, gc) = (la@, lb@, lc@);
    cs.enforce(la, lb, lc);
    proof {
        let c1 = *cs;
        lemma_minus_one();
        let k = c1.constraints@.last();
        assert(k.a@ == ga && k.b@ == gb && k.c@ == gc);
        let (xa, xb, xr) = (a.var as int, b.var as int, r.var as int);
        if v is Some {
            lemma_or_value(val(a), val(b));
        }
        assert(c1.aux@[r.var - 1] == r.value);
        assert forall|z: Seq<int>| admissible(z, c1.num_vars()) implies (all_hold(c1.added(c0), z) <==> fmod(
            (1 - z[xa]) * (1 - z[xb]),
        ) == fmod(1 - z[xr])) by {
            lemma_added_one(c0, c1, z);
            lemma_lc2(k.a@, z, 1, -1);
            lemma_lc2(k.b@, z, 1, -1);
            lemma_lc2(k.c@, z, 1, -1);
            lemma_holds_iff(k, z, 1 - z[xa], 1 - z[xb], 1 - z[xr]);
        }
        assert forall|z: Seq<int>|
            admissible(z, c1.num_vars()) && carries(z, a) && carries(z, b)
                && #[trigger] c1.agrees_since(c0, z) implies all_hold(c1.added(c0), z) by {
            lemma_or_gate(z[xa], z[xb], z[xr]);
        }
        assert forall|z: Seq<int>|
            admissible(z, c1.num_vars()) && #[trigger] all_hold(c1.added(c0), z) && is_bit(z[xa]) && is_bit(
                z[xb],
            ) implies z[xr] == or_bit(z[xa], z[xb]) by {
            lemma_or_gate(z[xa], z[xb], z[xr]);
        }
    }
    r
}

/// Allocates a slope `l` with the recorded value `lv`, constrained by
/// `l * d = y2 - y1`, and the chord point `x3 = l^2 - x1 - x2`,
/// `y3 = l (x1 - x3) - y1`.
#[verifier::spinoff_prover]
fn chord_block(cs: &mut Circuit, x1: Num, y1: Num, x2: Num, y2: Num, d: Num, lv: Option<Fe>) -> (r: (Num, Num, Num))
    requires
        old(cs).wf(),
        old(cs).room(3),
        old(cs).has(x1),
        old(cs).has(y1),
        old(cs).has(x2),
        old(cs).has(y2),
        old(cs).has(d),
        lv matches Some(l) ==> l.wf(),
    ensures
        grown(*final(cs), *old(cs), 3),
        final(cs).has(r.0) && final(cs).has(r.1) && final(cs).has(r.2),
        old(cs).num_vars() <= r.0.var && old(cs).num_vars() <= r.1.var && old(cs).num_vars() <= r.2.var,
        r.0.value == lv,
        lv is Some && x1.value is Some && y1.value is Some && x2.value is Some ==> final(cs).known_since(
            *old(cs),
        ),
        r.1.value is Some ==> val(r.1) == chord_x(value_of(lv), val(x1), val(x2)),
        r.2.value is Some ==> val(r.2) == chord_y(value_of(lv), val(x1), val(y1), val(r.1)),
        forall|z: Seq<int>|
            admissible(z, final(cs).num_vars()) && carries(z, x1) && carries(z, y1) && carries(z, x2)
                && carries(z, y2) && carries(z, d) && fmod(value_of(lv) * val(d)) == fmod(val(y2) - val(y1))
                && #[trigger] final(cs).agrees_since(*old(cs), z) ==> all_hold(
                final(cs).added(*old(cs)),
                z,
            ),
        forall|z: Seq<int>|
            admissible(z, final(cs).num_vars()) && #[trigger] all_hold(final(cs).added(*old(cs)), z) ==> {
                &&& fmod(z[r.0.var as int] * z[d.var as int]) == fmod(z[y2.var as int] - z[y1.var as int])
                &&& z[r.1.var as int] == chord_x(z[r.0.var as int], z[x1.var as int], z[x2.var as int])
                &&& z[r.2.var as int] == chord_y(
                    z[r.0.var as int],
                    z[x1.var as int],
                    z[y1.var as int],
                    z[r.1.var as int],
                )
            },
{
    let ghost c0 = *cs;
    proof {
        lemma_has_wf(c0, x1);
        lemma_has_wf(c0, y1);
        lemma_has_wf(c0, x2);
    }
    let lambda = cs.alloc_var(lv);
    let (la3, lb3, lc3) = (lc_var1(lambda.var), lc_var1(d.var), lc_sub2(y2.var, y1.var));
    let ghost (ga3, gb3, gc3) = (la3@, lb3@, lc3@);
    cs.enforce(la3, lb3, lc3);
    let xv = match (lv, x1.value, x2.value) {
        (Some(l), Some(a1), Some(a2)) => {
            let ll = fe_mul(&l, &l);
            let t = fe_sub(&ll, &a1);
            Some(fe_sub(&t, &a2))
        },
        _ => None,
    };
    let x = cs.alloc_var(xv);
    let (la4, lb4, lc4) = (lc_var1(lambda.var), lc_var1(lambda.var), lc_add3(x.var, x1.var, x2.var));
    let ghost (ga4, gb4, gc4) = (la4@, lb4@, lc4@);
    cs.enforce(la4, lb4, lc4);
    let yv = match (lv, x1.value, xv, y1.value) {
        (Some(l), Some(a1), Some(a3), Some(b1)) => {
            let dd = fe_sub(&a1, &a3);
            let t = fe_mul(&l, &dd);
            Some(fe_sub(&t, &b1))
        },
        _ => None,
    };
    let y = cs.alloc_var(yv);
    let (la5, lb5, lc5) = (lc_var1(lambda.var), lc_sub2(x1.var, x.var), lc_add2(y.var, y1.var));
    let ghost (ga5, gb5, gc5) = (la5@, lb5@, lc5@);
    cs.enforce(la5, lb5, lc5);
    proof {
        let c1 = *cs;
        let pm = modulus() as int;
        lemma_minus_one();
        let n0 = c0.constraints@.len() as int;
        let (k3, k4, k5) = (c1.constraints@[n0], c1.constraints@[n0 + 1], c1.constraints@[n0 + 2]);
        assert(k3.a@ == ga3 && k3.b@ == gb3 && k3.c@ == gc3);
        assert(k4.a@ == ga4 && k4.b@ == gb4 && k4.c@ == gc4);
        assert(k5.a@ == ga5 && k5.b@ == gb5 && k5.c@ == gc5);
        assert(ga4.len() == 1 && ga4[0].var == lambda.var && ga4[0].coeff@ == 1);
        assert(gb4.len() == 1 && gb4[0].var == lambda.var && gb4[0].coeff@ == 1);
        assert(gc4.len() == 3 && gc4[0].var == x.var && gc4[1].var == x1.var && gc4[2].var == x2.var);
        assert(ga3.len() == 1 && ga3[0].var == lambda.var && ga3[0].coeff@ == 1);
        assert(ga5.len() == 1 && ga5[0].var == lambda.var && ga5[0].coeff@ == 1);
        assert(c1.extends(c0));
        assert(c1.aux@[lambda.var - 1] == lambda.value);
        assert(c1.aux@[x.var - 1] == x.value);
        assert(c1.aux@[y.var - 1] == y.value);
        let (vx1, vy1, vx2, vy2, vd, vl, v3x, v3y) = (
            x1.var as int,
            y1.var as int,
            x2.var as int,
            y2.var as int,
            d.var as int,
            lambda.var as int,
            x.var as int,
            y.var as int,
        );
        assert forall|z: Seq<int>| admissible(z, c1.num_vars()) implies (all_hold(c1.added(c0), z) <==> fmod(
            z[vl] * z[vd],
        ) == fmod(z[vy2] - z[vy1]) && fmod(z[vl] * z[vl]) == fmod(z[v3x] + z[vx1] + z[vx2]) && fmod(
            z[vl] * (z[vx1] - z[v3x]),
        ) == fmod(z[v3y] + z[vy1])) by {
            lemma_added_three(c0, c1, z);
            lemma_lc1(k3.a@, z, 1);
            lemma_lc1(k3.b@, z, 1);
            lemma_lc2(k3.c@, z, 1, -1);
            lemma_holds_iff(k3, z, z[vl], z[vd], z[vy2] - z[vy1]);
            lemma_lc1(k4.a@, z, 1);
            lemma_lc1(k4.b@, z, 1);
            lemma_lc3(k4.c@, z, 1, 1, 1);
            lemma_holds_iff(k4, z, z[vl], z[vl], z[v3x] + z[vx1] + z[vx2]);
            lemma_lc1(k5.a@, z, 1);
            lemma_lc2(k5.b@, z, 1, -1);
            lemma_lc2(k5.c@, z, 1, 1);
            lemma_holds_iff(k5, z, z[vl], z[vx1] - z[v3x], z[v3y] + z[vy1]);
        }
        if xv is Some {
            let l = value_of(lv);
            lemma_sub2_mod(l * l, val(x1), val(x2));
            if yv is Some {
                lemma_mul_sub_mod(l, val(x1), value_of(xv), val(y1));
            }
        }
        assert forall|z: Seq<int>|
            admissible(z, c1.num_vars()) && carries(z, x1) && carries(z, y1) && carries(z, x2) && carries(z, y2)
                && carries(z, d) && fmod(value_of(lv) * val(d)) == fmod(val(y2) - val(y1))
                && #[trigger] c1.agrees_since(c0, z) implies all_hold(c1.added(c0), z) by {
            lemma_chord_block(z[vl], z[vx1], z[vy1], z[vx2], z[v3x], z[v3y]);
        }
        assert forall|z: Seq<int>| admissible(z, c1.num_vars()) && #[trigger] all_hold(c1.added(c0), z) implies {
            &&& fmod(z[vl] * z[vd]) == fmod(z[vy2] - z[vy1])
            &&& z[v3x] == chord_x(z[vl], z[vx1], z[vx2])
            &&& z[v3y] == chord_y(z[vl], z[vx1], z[vy1], z[v3x])
        } by {
            lemma_chord_block(z[vl], z[vx1], z[vy1], z[vx2], z[v3x], z[v3y]);
        }
    }
    (lambda, x, y)
}

/// Allocates a tangent slope `l` with the recorded value `lv`, constrained
/// by `t * l = n + a`, and the point `x3 = l^2 - 2 x`, `y3 = l (x - x3) - y`.
#[verifier::spinoff_prover]
fn tangent_block(cs: &mut Circuit, x: Num, y: Num, n: Num, t: Num, curve_a: Fe, lv: Option<Fe>) -> (r: (Num, Num, Num))
    requires
        old(cs).wf(),
        old(cs).room(3),
        old(cs).has(x),
        old(cs).has(y),
        old(cs).has(n),
        old(cs).has(t),
        curve_a.wf(),
        lv matches Some(l) ==> l.wf(),
    ensures
        grown(*final(cs), *old(cs), 3),
        final(cs).has(r.0) && final(cs).has(r.1) && final(cs).has(r.2),
        old(cs).num_vars() <= r.0.var && old(cs).num_vars() <= r.1.var && old(cs).num_vars() <= r.2.var,
        r.0.value == lv,
        lv is Some && x.value is Some && y.value is Some ==> final(cs).known_since(*old(cs)),
        r.1.value is Some ==> val(r.1) == chord_x(value_of(lv), val(x), val(x)),
        r.2.value is Some ==> val(r.2) == chord_y(value_of(lv), val(x), val(y), val(r.1)),
        forall|z: Seq<int>|
            admissible(z, final(cs).num_vars()) && carries(z, x) && carries(z, y) && carries(z, n) && carries(
                z,
                t,
            ) && fmod(val(t) * value_of(lv)) == fmod(val(n) + curve_a@) && #[trigger] final(cs).agrees_since(
                *old(cs),
                z,
            ) ==> all_hold(final(cs).added(*old(cs)), z),
        forall|z: Seq<int>|
            admissible(z, final(cs).num_vars()) && #[trigger] all_hold(final(cs).added(*old(cs)), z) ==> {
                &&& fmod(z[t.var as int] * z[r.0.var as int]) == fmod(z[n.var as int] + curve_a@)
                &&& z[r.1.var as int] == chord_x(z[r.0.var as int], z[x.var as int], z[x.var as int])
                &&& z[r.2.var as int] == chord_y(
                    z[r.0.var as int],
                    z[x.var as int],
                    z[y.var as int],
                    z[r.1.var as int],
                )
            },
{
    let ghost c0 = *cs;
    proof {
        lemma_has_wf(c0, x);
        lemma_has_wf(c0, y);
    }
    let lambda = cs.alloc_var(lv);
    let (la3, lb3, lc3) = (lc_var1(t.var), lc_var1(lambda.var), lc_scaled2(n.var, fe_one(), 0, curve_a));
    let ghost (ga3, gb3, gc3) = (la3@, lb3@, lc3@);
    cs.enforce(la3, lb3, lc3);
    let xv = match (lv, x.value) {
        (Some(l), Some(a1)) => {
            let ll = fe_mul(&l, &l);
            let t1 = fe_sub(&ll, &a1);
            Some(fe_sub(&t1, &a1))
        },
        _ => None,
    };
    let x3 = cs.alloc_var(xv);
    let (la4, lb4, lc4) = (lc_var1(lambda.var), lc_var1(lambda.var), lc_add3(x3.var, x.var, x.var));
    let ghost (ga4, gb4, gc4) = (la4@, lb4@, lc4@);
    cs.enforce(la4, lb4, lc4);
    let yv = match (lv, x.value, xv, y.value) {
        (Some(l), Some(a1), Some(a3), Some(b1)) => {
            let dd = fe_sub(&a1, &a3);
            let t1 = fe_mul(&l, &dd);
            Some(fe_sub(&t1, &b1))
        },
        _ => None,
    };
    let y3 = cs.alloc_var(yv);
    let (la5, lb5, lc5) = (lc_var1(lambda.var), lc_sub2(x.var, x3.var), lc_add2(y3.var, y.var));
    let ghost (ga5, gb5, gc5) = (la5@, lb5@, lc5@);
    cs.enforce(la5, lb5, lc5);
    proof {
        let c1 = *cs;
        let pm = modulus() as int;
        let ca = curve_a@ as int;
        lemma_minus_one();
        let n0 = c0.constraints@.len() as int;
        let (k3, k4, k5) = (c1.constraints@[n0], c1.constraints@[n0 + 1], c1.constraints@[n0 + 2]);
        assert(k3.a@ == ga3 && k3.b@ == gb3 && k3.c@ == gc3);
        assert(k4.a@ == ga4 && k4.b@ == gb4 && k4.c@ == gc4);
        assert(k5.a@ == ga5 && k5.b@ == gb5 && k5.c@ == gc5);
        assert(c1.extends(c0));
        assert(c1.aux@[lambda.var - 1] == lambda.value);
        assert(c1.aux@[x3.var - 1] == x3.value);
        assert(c1.aux@[y3.var - 1] == y3.value);
        let (vx, vy, vn, vt, vl, v3x, v3y) = (
            x.var as int,
            y.var as int,
            n.var as int,
            t.var as int,
            lambda.var as int,
            x3.var as int,
            y3.var as int,
        );
        assert forall|z: Seq<int>| admissible(z, c1.num_vars()) implies (all_hold(c1.added(c0), z) <==> fmod(
            z[vt] * z[vl],
        ) == fmod(z[vn] + ca) && fmod(z[vl] * z[vl]) == fmod(z[v3x] + z[vx] + z[vx]) && fmod(
            z[vl] * (z[vx] - z[v3x]),
        ) == fmod(z[v3y] + z[vy])) by {
            lemma_added_three(c0, c1, z);
            lemma_lc1(k3.a@, z, 1);
            lemma_lc1(k3.b@, z, 1);
            lemma_lc2(k3.c@, z, 1, ca);
            assert(ca * z[0] == ca) by (nonlinear_arith)
                requires
                    z[0] == 1,
            ;
            lemma_holds_iff(k3, z, z[vt], z[vl], z[vn] + ca);
            lemma_lc1(k4.a@, z, 1);
            lemma_lc1(k4.b@, z, 1);
            lemma_lc3(k4.c@, z, 1, 1, 1);
            lemma_holds_iff(k4, z, z[vl], z[vl], z[v3x] + z[vx] + z[vx]);
            lemma_lc1(k5.a@, z, 1);
            lemma_lc2(k5.b@, z, 1, -1);
            lemma_lc2(k5.c@, z, 1, 1);
            lemma_holds_iff(k5, z, z[vl], z[vx] - z[v3x], z[v3y] + z[vy]);
        }
        if xv is Some {
            let l = value_of(lv);
            lemma_sub2_mod(l * l, val(x), val(x));
            if yv is Some {
                lemma_mul_sub_mod(l, val(x), value_of(xv), val(y));
            }
        }
        assert forall|z: Seq<int>|
            admissible(z, c1.num_vars()) && carries(z, x) && carries(z, y) && carries(z, n) && carries(z, t)
                && fmod(val(t) * value_of(lv)) == fmod(val(n) + ca) && #[trigger] c1.agrees_since(c0, z)
                implies all_hold(c1.added(c0), z) by {
            lemma_chord_block(z[vl], z[vx], z[vy], z[vx], z[v3x], z[v3y]);
        }
        assert forall|z: Seq<int>| admissible(z, c1.num_vars()) && #[trigger] all_hold(c1.added(c0), z) implies {
            &&& fmod(z[vt] * z[vl]) == fmod(z[vn] + ca)
            &&& z[v3x] == chord_x(z[vl], z[vx], z[vx])
            &&& z[v3y] == chord_y(z[vl], z[vx], z[vy], z[v3x])
        } by {
            lemma_chord_block(z[vl], z[vx], z[vy], z[vx], z[v3x], z[v3y]);
        }
    }
    (lambda, x3, y3)
}

/// Allocates `v` constrained by `<a> * <b> = v` for a product `a * b` of
/// the given combination forms: here `(c1 z[u]) * z[w] = v` with a
/// recorded value `value`.
fn scaled_product(cs: &mut Circuit, u: usize, c1: Fe, w: usize, value: Option<Fe>) -> (r: Num)
    requires
        old(cs).wf(),
        old(cs).room(1),
        1 <= u < old(cs).num_vars(),
        1 <= w < old(cs).num_vars(),
        c1.wf(),
        value matches Some(v) ==> v.wf(),
    ensures
        grown(*final(cs), *old(cs), 1),
        final(cs).has(r),
        old(cs).num_vars() <= r.var,
        r.value == value,
        forall|z: Seq<int>|
            admissible(z, final(cs).num_vars()) ==> (#[trigger] all_hold(final(cs).added(*old(cs)), z) <==> fmod(
                (c1@ * z[u as int]) * z[w as int],
            ) == fmod(z[r.var as int])),
        forall|z: Seq<int>|
            admissible(z, final(cs).num_vars()) && #[trigger] final(cs).agrees_since(*old(cs), z)
                ==> z[r.var as int] == value_of(value),
{
    let ghost c0 = *cs;
    let r = cs.alloc_var(value);
    let (la, lb, lc) = (lc_scaled1(u, c1), lc_var1(w), lc_var1(r.var));
    let ghost (ga, gb, gc) = (la@, lb@, lc@);
    cs.enforce(la, lb, lc);
    proof {
        let cc = *cs;
        let k = cc.constraints@.last();
        assert(k.a@ == ga && k.b@ == gb && k.c@ == gc);
        assert(cc.aux@[r.var - 1] == r.value);
        assert forall|z: Seq<int>| admissible(z, cc.num_vars()) implies (#[trigger] all_hold(cc.added(c0), z)
            <==> fmod((c1@ * z[u as int]) * z[w as int]) == fmod(z[r.var as int])) by {
            lemma_added_one(c0, cc, z);
            lemma_lc1(k.a@, z, c1@ as int);
            lemma_lc1(k.b@, z, 1);
            lemma_lc1(k.c@, z, 1);
            lemma_holds_iff(k, z, c1@ * z[u as int], z[w as int], z[r.var as int]);
        }
    }
    r
}

/// One step of the incomplete phase: the accumulator plus the doubled point
/// when `bit` is set, and the doubled point doubled again.
#[verifier::spinoff_prover]
#[verifier::rlimit(40)]
fn incomplete_step(
    cs: &mut Circuit,
    acc: &AllocatedPointNonInfinity,
    p: &AllocatedPointNonInfinity,
    bit: Num,
    curve_a: Fe,
) -> (r: (AllocatedPointNonInfinity, AllocatedPointNonInfinity))
    requires
        old(cs).wf(),
        old(cs).room(9),
        affine_in(*old(cs), *acc),
        affine_in(*old(cs), *p),
        old(cs).has(bit),
        bit_valued(bit),
        curve_a.wf(),
    ensures
        grown(*final(cs), *old(cs), 9),
        affine_in(*final(cs), r.0),
        affine_in(*final(cs), r.1),
        affine_known(*acc) && affine_known(*p) && bit.value is Some ==> final(cs).known_since(*old(cs))
            && affine_known(r.0) && affine_known(r.1) && affine_val(r.0) == (if val(bit) == 1 {
            add_incomplete_value(affine_val(*acc), affine_val(*p))
        } else {
            affine_val(*acc)
        }) && affine_val(r.1) == double_incomplete_value(affine_val(*p), curve_a@ as int),
        forall|z: Seq<int>|
            admissible(z, final(cs).num_vars()) && carries_affine(z, *acc) && carries_affine(z, *p) && carries(
                z,
                bit,
            ) && incomplete_add_ok(affine_val(*acc), affine_val(*p)) && incomplete_double_ok(
                affine_val(*p),
                curve_a@ as int,
            ) && #[trigger] final(cs).agrees_since(*old(cs), z) ==> all_hold(final(cs).added(*old(cs)), z)
                && carries_affine(z, r.0) && carries_affine(z, r.1),
        no_zero_divisors() ==> forall|z: Seq<int>|
            admissible(z, final(cs).num_vars()) && #[trigger] all_hold(final(cs).added(*old(cs)), z) && is_bit(
                z[bit.var as int],
            ) && z[acc.x.var as int] != z[p.x.var as int] && z[p.y.var as int] != 0 ==> affine_at(z, r.0) == (
            if z[bit.var as int] == 1 {
                add_incomplete_value(affine_at(z, *acc), affine_at(z, *p))
            } else {
                affine_at(z, *acc)
            }) && affine_at(z, r.1) == double_incomplete_value(affine_at(z, *p), curve_a@ as int),
{
    let ghost c0 = *cs;
    let temp = acc.add_incomplete(cs, p);
    let ghost t1 = *cs;
    proof {
        lemma_has_extends(c0, t1, acc.x);
        lemma_has_extends(c0, t1, acc.y);
        lemma_has_extends(c0, t1, p.x);
        lemma_has_extends(c0, t1, p.y);
        lemma_has_extends(c0, t1, bit);
    }
    let acc2 = AllocatedPointNonInfinity::conditionally_select(cs, &temp, acc, bit);
    let ghost t2 = *cs;
    proof {
        lemma_has_extends(t1, t2, p.x);
        lemma_has_extends(t1, t2, p.y);
    }
    let p2 = p.double_incomplete(cs, curve_a);
    let ghost t3 = *cs;
    proof {
        lemma_has_extends(t2, t3, acc2.x);
        lemma_has_extends(t2, t3, acc2.y);
        let ch = seq![c0, t1, t2, t3];
        assert(step_extends(ch, 0) && step_extends(ch, 1) && step_extends(ch, 2));
        assert(is_chain(ch));
        lemma_chain(ch, Seq::empty());
        if affine_known(*acc) && affine_known(*p) && bit.value is Some {
            assert(step_known(ch, 0) && step_known(ch, 1) && step_known(ch, 2));
            assert forall|j: int| 0 <= j < ch.len() - 1 implies #[trigger] step_known(ch, j) by {}
        }
        assert forall|z: Seq<int>|
            admissible(z, t3.num_vars()) && carries_affine(z, *acc) && carries_affine(z, *p) && carries(z, bit)
                && incomplete_add_ok(affine_val(*acc), affine_val(*p)) && incomplete_double_ok(
                affine_val(*p),
                curve_a@ as int,
            ) && #[trigger] t3.agrees_since(c0, z) implies all_hold(
            t3.added(c0),
            z,
        ) && carries_affine(z, acc2) && carries_affine(z, p2) by {
            lemma_chain(ch, z);
            assert(step_agrees(ch, 0, z) && step_agrees(ch, 1, z) && step_agrees(ch, 2, z));
            lemma_carried(c0, t1, temp.x, z);
            lemma_carried(c0, t1, temp.y, z);
            lemma_carried(t1, t2, acc2.x, z);
            lemma_carried(t1, t2, acc2.y, z);
            lemma_carried(t2, t3, p2.x, z);
            lemma_carried(t2, t3, p2.y, z);
            assert forall|j: int| 0 <= j < ch.len() - 1 implies #[trigger] step_holds(ch, j, z) by {}
        }
        if no_zero_divisors() {
            assert forall|z: Seq<int>|
                admissible(z, t3.num_vars()) && #[trigger] all_hold(t3.added(c0), z) && is_bit(z[bit.var as int])
                    && z[acc.x.var as int] != z[p.x.var as int] && z[p.y.var as int] != 0 implies affine_at(
                z,
                acc2,
            ) == (if z[bit.var as int] == 1 {
                add_incomplete_value(affine_at(z, *acc), affine_at(z, *p))
            } else {
                affine_at(z, *acc)
            }) && affine_at(z, p2) == double_incomplete_value(affine_at(z, *p), curve_a@ as int) by {
                lemma_chain(ch, z);
                assert(step_holds(ch, 0, z) && step_holds(ch, 1, z) && step_holds(ch, 2, z));
            }
        }
    }
    (acc2, p2)
}

/// The incomplete phase of scalar multiplication: from `base` (its first bit
/// taken as set), for each bit `i` in `1..split`, add the doubled point when
/// the bit is set, then double it.
#[verifier::spinoff_prover]
#[verifier::rlimit(80)]
pub(crate) fn scalar_mul_incomplete(
    cs: &mut Circuit,
    base: &AllocatedPoint,
    bits: &[Num],
    split: usize,
    curve_a: Fe,
) -> (r: (AllocatedPointNonInfinity, AllocatedPointNonInfinity))
    requires
        old(cs).wf(),
        1 <= split <= bits@.len(),
        old(cs).room((4 + 9 * split) as nat),
        point_in(*old(cs), *base),
        bits_in(*old(cs), bits@),
        curve_a.wf(),
    ensures
        grown(*final(cs), *old(cs), (4 + 9 * (split - 1)) as nat),
        point_in(*final(cs), *base),
        bits_in(*final(cs), bits@),
        affine_in(*final(cs), r.0),
        affine_in(*final(cs), r.1),
        point_known(*base) && bits_known(bits@) ==> final(cs).known_since(*old(cs)) && affine_known(r.0)
            && affine_known(r.1) && (affine_val(r.0), affine_val(r.1)) == sm_incomplete(
            (val(base.x), val(base.y)),
            bits_val(bits@),
            split as nat,
            curve_a@ as int,
        ),
        forall|z: Seq<int>|
            admissible(z, final(cs).num_vars()) && carries_point(z, *base) && carries_bits(z, bits@)
                && sm_incomplete_complete((val(base.x), val(base.y)), bits_val(bits@), split as nat, curve_a@ as int)
                && #[trigger] final(cs).agrees_since(*old(cs), z) ==> all_hold(final(cs).added(*old(cs)), z)
                && carries_affine(z, r.0) && carries_affine(z, r.1),
        no_zero_divisors() ==> forall|z: Seq<int>|
            admissible(z, final(cs).num_vars()) && #[trigger] all_hold(final(cs).added(*old(cs)), z)
                && bits_boolean_at(z, bits@) && sm_incomplete_ok(
                (z[base.x.var as int], z[base.y.var as int]),
                bits_at(z, bits@),
                split as nat,
                curve_a@ as int,
            ) ==> (affine_at(z, r.0), affine_at(z, r.1)) == sm_incomplete(
                (z[base.x.var as int], z[base.y.var as int]),
                bits_at(z, bits@),
                split as nat,
                curve_a@ as int,
            ),
{
    let ghost c0 = *cs;
    let ghost ca = curve_a@ as int;
    let ghost bv = bits_val(bits@);
    let ghost b0 = (val(base.x), val(base.y));
    let mut acc = AllocatedPointNonInfinity::from_allocated_point(base);
    let mut p = acc.double_incomplete(cs, curve_a);
    proof {
        lemma_point_extends(c0, *cs, *base);
        lemma_bits_extends(c0, *cs, bits@);
        lemma_has_extends(c0, *cs, acc.x);
        lemma_has_extends(c0, *cs, acc.y);
        let c1 = *cs;
        assert forall|z: Seq<int>|
            admissible(z, c1.num_vars()) && carries_point(z, *base) && carries_bits(z, bits@) && sm_incomplete_complete(
                b0,
                bv,
                split as nat,
                ca,
            ) && #[trigger] c1.agrees_since(c0, z) implies all_hold(c1.added(c0), z) && carries_affine(z, acc)
            && carries_affine(z, p) by {
            lemma_sm_incomplete_complete_prefix(b0, bv, 1, split as nat, ca);
            lemma_carried(c0, c1, p.x, z);
            lemma_carried(c0, c1, p.y, z);
        }
    }
    let mut i: usize = 1;
    while i < split
        invariant
            1 <= i <= split <= bits@.len(),
            cs.wf(),
            cs.extends(c0),
            cs.aux@.len() == c0.aux@.len() + 4 + 9 * (i - 1),
            c0.room((4 + 9 * split) as nat),
            ca == curve_a@ as int,
            curve_a.wf(),
            bv == bits_val(bits@),
            b0 == (val(base.x), val(base.y)),
            point_in(*cs, *base),
            bits_in(*cs, bits@),
            affine_in(*cs, acc),
            affine_in(*cs, p),
            point_known(*base) && bits_known(bits@) ==> cs.known_since(c0) && affine_known(acc) && affine_known(p)
                && (affine_val(acc), affine_val(p)) == sm_incomplete(b0, bv, i as nat, ca),
            forall|z: Seq<int>|
                admissible(z, cs.num_vars()) && carries_point(z, *base) && carries_bits(z, bits@)
                    && sm_incomplete_complete(b0, bv, split as nat, ca) && #[trigger] cs.agrees_since(c0, z) ==> all_hold(
                    cs.added(c0),
                    z,
                ) && carries_affine(z, acc) && carries_affine(z, p),
            no_zero_divisors() ==> forall|z: Seq<int>|
                admissible(z, cs.num_vars()) && #[trigger] all_hold(cs.added(c0), z) && bits_boolean_at(z, bits@)
                    && sm_incomplete_ok(
                    (z[base.x.var as int], z[base.y.var as int]),
                    bits_at(z, bits@),
                    i as nat,
                    ca,
                ) ==> (affine_at(z, acc), affine_at(z, p)) == sm_incomplete(
                    (z[base.x.var as int], z[base.y.var as int]),
                    bits_at(z, bits@),
                    i as nat,
                    ca,
                ),
        decreases split - i,
    {
        let ghost ci = *cs;
        let bit = bits[i];
        proof {
            assert(bits@[i as int] == bit);
            assert(cs.has(bit) && bit_valued(bit));
        }
        let (acc2, p2) = incomplete_step(cs, &acc, &p, bit, curve_a);
        proof {
            let t = *cs;
            lemma_point_extends(ci, t, *base);
            lemma_bits_extends(ci, t, bits@);
            let ch = seq![c0, ci, t];
            assert(step_extends(ch, 0) && step_extends(ch, 1));
            assert(is_chain(ch));
            lemma_chain(ch, Seq::empty());
            let k = (i + 1) as nat;
            if point_known(*base) && bits_known(bits@) {
                assert(bits@[i as int].value is Some);
                assert(bv[i as int] == val(bit));
                assert(step_known(ch, 0) && step_known(ch, 1));
                assert forall|j: int| 0 <= j < ch.len() - 1 implies #[trigger] step_known(ch, j) by {}
            }
            assert forall|z: Seq<int>|
                admissible(z, t.num_vars()) && carries_point(z, *base) && carries_bits(z, bits@)
                    && sm_incomplete_complete(b0, bv, split as nat, ca) && #[trigger] t.agrees_since(c0, z)
                    implies all_hold(t.added(c0), z) && carries_affine(z, acc2) && carries_affine(z, p2) by {
                lemma_chain(ch, z);
                assert(step_agrees(ch, 0, z) && step_agrees(ch, 1, z));
                assert(carries(z, bits@[i as int]));
                assert forall|j: int| 0 <= j < bits@.len() implies (#[trigger] bits@[j]).value is Some by {
                    assert(carries(z, bits@[j]));
                }
                lemma_sm_incomplete_complete_prefix(b0, bv, k, split as nat, ca);
                assert(sm_incomplete_complete(b0, bv, k, ca));
                assert(step_holds(ch, 0, z));
                assert(step_holds(ch, 1, z));
                assert forall|j: int| 0 <= j < ch.len() - 1 implies #[trigger] step_holds(ch, j, z) by {}
            }
            if no_zero_divisors() {
                assert forall|z: Seq<int>|
                    admissible(z, t.num_vars()) && #[trigger] all_hold(t.added(c0), z) && bits_boolean_at(z, bits@)
                        && sm_incomplete_ok((z[base.x.var as int], z[base.y.var as int]), bits_at(z, bits@), k, ca)
                        implies (affine_at(z, acc2), affine_at(z, p2)) == sm_incomplete(
                    (z[base.x.var as int], z[base.y.var as int]),
                    bits_at(z, bits@),
                    k,
                    ca,
                ) by {
                    lemma_chain(ch, z);
                    assert(step_holds(ch, 0, z) && step_holds(ch, 1, z));
                    assert(is_bit(z[bits@[i as int].var as int]));
                    assert(bits_at(z, bits@)[i as int] == z[bit.var as int]);
                }
            }
        }
        acc = acc2;
        p = p2;
        i = i + 1;
    }
    (acc, p)
}

/// `q` when `p` is at infinity, `p` when `q` is, else `(x3, y3)` with the
/// flag `i3`.
pub open spec fn pick_sum(p: (int, int, int), q: (int, int, int), x3: int, y3: int, i3: int) -> (int, int, int) {
    if p.2 == 1 {
        q
    } else if q.2 == 1 {
        p
    } else {
        (x3, y3, i3)
    }
}

/// The output selection of point addition: `other` when `self` is at
/// infinity, `self` when `other` is, else `(x3, y3)` with the flag `i3`.
#[verifier::spinoff_prover]
fn select_unless_infinity(cs: &mut Circuit, p: &AllocatedPoint, q: &AllocatedPoint, x3: Num, y3: Num, i3: Num) -> (r: AllocatedPoint)
    requires
        old(cs).wf(),
        old(cs).room(6),
        point_in(*old(cs), *p),
        point_in(*old(cs), *q),
        old(cs).has(x3),
        old(cs).has(y3),
        old(cs).has(i3),
        bit_valued(p.is_infinity),
        bit_valued(q.is_infinity),
        bit_valued(i3),
    ensures
        grown(*final(cs), *old(cs), 6),
        point_in(*final(cs), r),
        point_new(r, old(cs).num_vars()),
        bit_valued(r.is_infinity),
        point_known(*p) && point_known(*q) && x3.value is Some && y3.value is Some && i3.value is Some
            ==> point_known(r) && final(cs).known_since(*old(cs)) && point_val(r) == pick_sum(
            point_val(*p),
            point_val(*q),
            val(x3),
            val(y3),
            val(i3),
        ),
        forall|z: Seq<int>|
            admissible(z, final(cs).num_vars()) && carries_point(z, *p) && carries_point(z, *q) && carries(
                z,
                x3,
            ) && carries(z, y3) && carries(z, i3) && #[trigger] final(cs).agrees_since(*old(cs), z) ==> all_hold(
                final(cs).added(*old(cs)),
                z,
            ),
        forall|z: Seq<int>|
            admissible(z, final(cs).num_vars()) && #[trigger] all_hold(final(cs).added(*old(cs)), z)
                && is_bit(z[p.is_infinity.var as int]) && is_bit(z[q.is_infinity.var as int]) ==> point_at(
                z,
                r,
            ) == pick_sum(point_at(z, *p), point_at(z, *q), z[x3.var as int], z[y3.var as int], z[i3.var as int]),
{
    let ghost c0 = *cs;
    let x1 = crate::gadgets::utils::conditionally_select(cs, p.x, x3, q.is_infinity);
    let ghost c1 = *cs;
    proof {
        lemma_point_extends(c0, c1, *p);
        lemma_point_extends(c0, c1, *q);
        lemma_has_extends(c0, c1, y3);
        lemma_has_extends(c0, c1, i3);
    }
    let xo = crate::gadgets::utils::conditionally_select(cs, q.x, x1, p.is_infinity);
    let ghost c2 = *cs;
    proof {
        lemma_point_extends(c1, c2, *p);
        lemma_point_extends(c1, c2, *q);
        lemma_has_extends(c1, c2, y3);
        lemma_has_extends(c1, c2, i3);
    }
    let y1 = crate::gadgets::utils::conditionally_select(cs, p.y, y3, q.is_infinity);
    let ghost c3 = *cs;
    proof {
        lemma_point_extends(c2, c3, *p);
        lemma_point_extends(c2, c3, *q);
        lemma_has_extends(c2, c3, xo);
        lemma_has_extends(c2, c3, i3);
    }
    let yo = crate::gadgets::utils::conditionally_select(cs, q.y, y1, p.is_infinity);
    let ghost c4 = *cs;
    proof {
        lemma_point_extends(c3, c4, *p);
        lemma_point_extends(c3, c4, *q);
        lemma_has_extends(c3, c4, xo);
        lemma_has_extends(c3, c4, i3);
    }
    let inf1 = crate::gadgets::utils::conditionally_select(cs, p.is_infinity, i3, q.is_infinity);
    let ghost c5 = *cs;
    proof {
        lemma_point_extends(c4, c5, *p);
        lemma_point_extends(c4, c5, *q);
        lemma_has_extends(c4, c5, xo);
        lemma_has_extends(c4, c5, yo);
    }
    let info = crate::gadgets::utils::conditionally_select(cs, q.is_infinity, inf1, p.is_infinity);
    let ghost c6 = *cs;
    let r = AllocatedPoint { x: xo, y: yo, is_infinity: info };
    proof {
        lemma_has_extends(c5, c6, xo);
        lemma_has_extends(c5, c6, yo);
        let ch = seq![c0, c1, c2, c3, c4, c5, c6];
        assert(step_extends(ch, 0) && step_extends(ch, 1) && step_extends(ch, 2) && step_extends(ch, 3)
            && step_extends(ch, 4) && step_extends(ch, 5));
        assert(is_chain(ch));
        lemma_chain(ch, Seq::empty());
        if point_known(*p) && point_known(*q) && x3.value is Some && y3.value is Some && i3.value is Some {
            assert(step_known(ch, 0) && step_known(ch, 1) && step_known(ch, 2) && step_known(ch, 3)
                && step_known(ch, 4) && step_known(ch, 5));
            assert forall|i: int| 0 <= i < ch.len() - 1 implies #[trigger] step_known(ch, i) by {}
        }
        assert forall|z: Seq<int>|
            admissible(z, c6.num_vars()) && carries_point(z, *p) && carries_point(z, *q) && carries(z, x3)
                && carries(z, y3) && carries(z, i3) && #[trigger] c6.agrees_since(c0, z) implies all_hold(c6.added(c0), z) by {
            lemma_chain(ch, z);
            assert(step_agrees(ch, 0, z) && step_agrees(ch, 1, z) && step_agrees(ch, 2, z) && step_agrees(
                ch,
                3,
                z,
            ) && step_agrees(ch, 4, z) && step_agrees(ch, 5, z));
            lemma_carried(c0, c1, x1, z);
            lemma_carried(c2, c3, y1, z);
            lemma_carried(c4, c5, inf1, z);
            assert forall|i: int| 0 <= i < ch.len() - 1 implies #[trigger] step_holds(ch, i, z) by {}
        }
        assert forall|z: Seq<int>|
            admissible(z, c6.num_vars()) && #[trigger] all_hold(c6.added(c0), z) && is_bit(
                z[p.is_infinity.var as int],
            ) && is_bit(z[q.is_infinity.var as int]) implies point_at(z, r) == pick_sum(
            point_at(z, *p),
            point_at(z, *q),
            z[x3.var as int],
            z[y3.var as int],
            z[i3.var as int],
        ) by {
            lemma_chain(ch, z);
            assert(step_holds(ch, 0, z) && step_holds(ch, 1, z) && step_holds(ch, 2, z) && step_holds(
                ch,
                3,
                z,
            ) && step_holds(ch, 4, z) && step_holds(ch, 5, z));
        }
    }
    r
}

/// A point inside a circuit that is known not to be the point at infinity:
/// its two coordinates.
#[derive(Clone, Copy, Debug)]
pub struct AllocatedPointNonInfinity {
    pub x: Num,
    pub y: Num,
}

/// Both coordinates of `p` are allocated in `cs`, with their values.
pub open spec fn affine_in(cs: Circuit, p: AllocatedPointNonInfinity) -> bool {
    cs.has(p.x) && cs.has(p.y)
}

/// Both recorded coordinates of `p` are known.
pub open spec fn affine_known(p: AllocatedPointNonInfinity) -> bool {
    p.x.value is Some && p.y.value is Some
}

/// The recorded coordinates of `p`.
pub open spec fn affine_val(p: AllocatedPointNonInfinity) -> (int, int) {
    (val(p.x), val(p.y))
}

/// The values an assignment gives the coordinates of `p`.
pub open spec fn affine_at(z: Seq<int>, p: AllocatedPointNonInfinity) -> (int, int) {
    (z[p.x.var as int], z[p.y.var as int])
}

/// The assignment gives both coordinates of `p` their known recorded values.
pub open spec fn carries_affine(z: Seq<int>, p: AllocatedPointNonInfinity) -> bool {
    carries(z, p.x) && carries(z, p.y)
}

/// Both coordinates of `p` were allocated at or after variable `n`.
pub open spec fn affine_new(p: AllocatedPointNonInfinity, n: nat) -> bool {
    n <= p.x.var && n <= p.y.var
}

impl AllocatedPointNonInfinity {
    /// The coordinates of `p`, taken to be a finite point.
    pub fn from_allocated_point(p: &AllocatedPoint) -> (r: AllocatedPointNonInfinity)
        ensures
            r.x == p.x,
            r.y == p.y,
    {
        AllocatedPointNonInfinity { x: p.x, y: p.y }
    }

    /// The point with these coordinates and the given infinity flag.
    pub fn to_allocated_point(&self, is_infinity: Num) -> (r: AllocatedPoint)
        ensures
            r.x == self.x,
            r.y == self.y,
            r.is_infinity == is_infinity,
    {
        AllocatedPoint { x: self.x, y: self.y, is_infinity }
    }

    /// Adds two points assumed neither equal nor opposite: allocates the
    /// slope `l` with `l (x2 - x1) = y2 - y1`, then `x3 = l^2 - x1 - x2` and
    /// `y3 = l (x1 - x3) - y1`.
    #[verifier::spinoff_prover]
    pub fn add_incomplete(&self, cs: &mut Circuit, other: &AllocatedPointNonInfinity) -> (r: AllocatedPointNonInfinity)
        requires
            old(cs).wf(),
            old(cs).room(3),
            affine_in(*old(cs), *self),
            affine_in(*old(cs), *other),
        ensures
            grown(*final(cs), *old(cs), 3),
            affine_in(*final(cs), r),
            affine_new(r, old(cs).num_vars()),
            affine_known(*self) && affine_known(*other) ==> affine_known(r) && final(cs).known_since(
                *old(cs),
            ),
            affine_known(r) ==> affine_val(r) == add_incomplete_value(affine_val(*self), affine_val(*other)),
            forall|z: Seq<int>|
                admissible(z, final(cs).num_vars()) && carries_affine(z, *self) && carries_affine(
                    z,
                    *other,
                ) && (val(self.x) != val(other.x) || val(self.y) == val(other.y))
                    && #[trigger] final(cs).agrees_since(*old(cs), z) ==> all_hold(
                    final(cs).added(*old(cs)),
                    z,
                ),
            no_zero_divisors() ==> forall|z: Seq<int>|
                admissible(z, final(cs).num_vars()) && #[trigger] all_hold(
                    final(cs).added(*old(cs)),
                    z,
                ) && z[self.x.var as int] != z[other.x.var as int] ==> affine_at(z, r)
                    == add_incomplete_value(affine_at(z, *self), affine_at(z, *other)),
    {
        let ghost c0 = *cs;
        proof {
            lemma_has_wf(c0, self.x);
            lemma_has_wf(c0, self.y);
            lemma_has_wf(c0, other.x);
            lemma_has_wf(c0, other.y);
        }
        let ghost mut ginv: int = 0;
        let lv = match (self.x.value, self.y.value, other.x.value, other.y.value) {
            (Some(x1), Some(y1), Some(x2), Some(y2)) => if fe_eq(&x2, &x1) {
                Some(fe_one())
            } else {
                let dx = fe_sub(&x2, &x1);
                let dy = fe_sub(&y2, &y1);
                match fe_invert(&dx) {
                    Some(inv) => {
                        proof {
                            ginv = inv@ as int;
                        }
                        Some(fe_mul(&dy, &inv))
                    },
                    None => None,
                }
            },
            _ => None,
        };
        let lambda = cs.alloc_var(lv);
        let (la1, lb1, lc1) = (lc_var1(lambda.var), lc_sub2(other.x.var, self.x.var), lc_sub2(other.y.var, self.y.var));
        let ghost (ga1, gb1, gc1) = (la1@, lb1@, lc1@);
        cs.enforce(la1, lb1, lc1);
        let xv = match (lv, self.x.value, other.x.value) {
            (Some(l), Some(x1), Some(x2)) => {
                let ll = fe_mul(&l, &l);
                let t = fe_sub(&ll, &x1);
                Some(fe_sub(&t, &x2))
            },
            _ => None,
        };
        let x = cs.alloc_var(xv);
        let (la2, lb2, lc2) = (lc_var1(lambda.var), lc_var1(lambda.var), lc_add3(x.var, self.x.var, other.x.var));
        let ghost (ga2, gb2, gc2) = (la2@, lb2@, lc2@);
        cs.enforce(la2, lb2, lc2);
        let yv = match (lv, self.x.value, xv, self.y.value) {
            (Some(l), Some(x1), Some(x3), Some(y1)) => {
                let d = fe_sub(&x1, &x3);
                let t = fe_mul(&l, &d);
                Some(fe_sub(&t, &y1))
            },
            _ => None,
        };
        let y = cs.alloc_var(yv);
        let (la3, lb3, lc3) = (lc_var1(lambda.var), lc_sub2(self.x.var, x.var), lc_add2(y.var, self.y.var));
        let ghost (ga3, gb3, gc3) = (la3@, lb3@, lc3@);
        cs.enforce(la3, lb3, lc3);
        proof {
            let c1 = *cs;
            let p = modulus() as int;
            lemma_minus_one();
            let n0 = c0.constraints@.len() as int;
            let (k1, k2, k3) = (c1.constraints@[n0], c1.constraints@[n0 + 1], c1.constraints@[n0 + 2]);
            assert(k1.a@ == ga1 && k1.b@ == gb1 && k1.c@ == gc1);
            assert(k2.a@ == ga2 && k2.b@ == gb2 && k2.c@ == gc2);
            assert(k3.a@ == ga3 && k3.b@ == gb3 && k3.c@ == gc3);
            assert(c1.extends(c0));
            let (x1, y1, x2, y2, xl, x3, y3) = (
                self.x.var as int,
                self.y.var as int,
                other.x.var as int,
                other.y.var as int,
                lambda.var as int,
                x.var as int,
                y.var as int,
            );
            assert forall|z: Seq<int>| admissible(z, c1.num_vars()) implies (all_hold(c1.added(c0), z)
                <==> fmod(z[xl] * (z[x2] - z[x1])) == fmod(z[y2] - z[y1]) && fmod(z[xl] * z[xl])
                == fmod(z[x3] + z[x1] + z[x2]) && fmod(z[xl] * (z[x1] - z[x3])) == fmod(z[y3] + z[y1]))
                by {
                lemma_added_three(c0, c1, z);
                lemma_lc1(k1.a@, z, 1);
                lemma_lc2(k1.b@, z, 1, -1);
                lemma_lc2(k1.c@, z, 1, -1);
                lemma_holds_iff(k1, z, z[xl], z[x2] - z[x1], z[y2] - z[y1]);
                lemma_lc1(k2.a@, z, 1);
                lemma_lc1(k2.b@, z, 1);
                lemma_lc3(k2.c@, z, 1, 1, 1);
                lemma_holds_iff(k2, z, z[xl], z[xl], z[x3] + z[x1] + z[x2]);
                lemma_lc1(k3.a@, z, 1);
                lemma_lc2(k3.b@, z, 1, -1);
                lemma_lc2(k3.c@, z, 1, 1);
                lemma_holds_iff(k3, z, z[xl], z[x1] - z[x3], z[y3] + z[y1]);
            }
            if affine_known(*self) && affine_known(*other) {
                let (vx1, vy1, vx2, vy2) = (val(self.x), val(self.y), val(other.x), val(other.y));
                if vx1 != vx2 {
                    lemma_distinct_nonzero(vx2, vx1);
                }
                assert(lv is Some);
                assert(c1.aux@[lambda.var - 1] == lambda.value);
                assert(c1.aux@[x.var - 1] == x.value);
                assert(c1.aux@[y.var - 1] == y.value);
                assert(c1.known_since(c0));
            }
            if lv is Some && xv is Some && yv is Some {
                let (vx1, vy1, vx2, vy2) = (val(self.x), val(self.y), val(other.x), val(other.y));
                let l = value_of(lv);
                if vx1 != vx2 {
                    lemma_mul_mod_noop_left(vx2 - vx1, ginv, p);
                    lemma_mul_mod_noop_left(vy2 - vy1, ginv, p);
                    lemma_quotient_from_inverse(vy2 - vy1, vx2 - vx1, ginv, l);
                }
                assert(l == incomplete_slope((vx1, vy1), (vx2, vy2)));
                lemma_sub2_mod(l * l, vx1, vx2);
                lemma_mul_sub_mod(l, vx1, value_of(xv), vy1);
            }
            assert forall|z: Seq<int>|
                admissible(z, c1.num_vars()) && carries_affine(z, *self) && carries_affine(z, *other) && (
                val(self.x) != val(other.x) || val(self.y) == val(other.y)) && #[trigger] c1.agrees_since(
                    c0,
                    z,
                ) implies all_hold(c1.added(c0), z) by {
                lemma_carried(c0, c1, lambda, z);
                lemma_carried(c0, c1, x, z);
                lemma_carried(c0, c1, y, z);
                let l = z[xl];
                if z[x1] != z[x2] {
                    lemma_distinct_nonzero(z[x2], z[x1]);
                    assert(is_quotient(l, z[y2] - z[y1], z[x2] - z[x1]));
                } else {
                    assert(l * (z[x2] - z[x1]) == 0) by (nonlinear_arith)
                        requires
                            z[x2] - z[x1] == 0,
                    ;
                }
                lemma_solve_add(z[x3], z[x1] + z[x2], l * l);
                lemma_solve_add(z[y3], z[y1], l * (z[x1] - z[x3]));
            }
            if no_zero_divisors() {
                assert forall|z: Seq<int>|
                    admissible(z, c1.num_vars()) && #[trigger] all_hold(c1.added(c0), z) && z[x1] != z[x2]
                        implies affine_at(z, AllocatedPointNonInfinity { x, y }) == add_incomplete_value(
                    affine_at(z, *self),
                    affine_at(z, *other),
                ) by {
                    let l = z[xl];
                    lemma_distinct_nonzero(z[x2], z[x1]);
                    lemma_quotient_unique(z[y2] - z[y1], z[x2] - z[x1], l);
                    lemma_solve_add(z[x3], z[x1] + z[x2], l * l);
                    lemma_solve_add(z[y3], z[y1], l * (z[x1] - z[x3]));
                }
            }
        }
        AllocatedPointNonInfinity { x, y }
    }

    /// Doubles a point assumed not of order two: allocates `x^2`, the slope
    /// `l` with `l (2 y) = 3 x^2 + a`, then `x3 = l^2 - 2 x` and
    /// `y3 = l (x - x3) - y`.
    #[verifier::spinoff_prover]
    pub fn double_incomplete(&self, cs: &mut Circuit, curve_a: Fe) -> (r: AllocatedPointNonInfinity)
        requires
            old(cs).wf(),
            old(cs).room(4),
            affine_in(*old(cs), *self),
            curve_a.wf(),
        ensures
            grown(*final(cs), *old(cs), 4),
            affine_in(*final(cs), r),
            affine_new(r, old(cs).num_vars()),
            affine_known(*self) ==> affine_known(r) && final(cs).known_since(*old(cs)),
            affine_known(r) ==> affine_val(r) == double_incomplete_value(affine_val(*self), curve_a@ as int),
            forall|z: Seq<int>|
                admissible(z, final(cs).num_vars()) && carries_affine(z, *self) && (fmod(2 * val(self.y))
                    != 0 || fmod(3 * (fmod(val(self.x) * val(self.x)) as int) + curve_a@) == 0)
                    && #[trigger] final(cs).agrees_since(*old(cs), z) ==> all_hold(
                    final(cs).added(*old(cs)),
                    z,
                ),
            no_zero_divisors() ==> forall|z: Seq<int>|
                admissible(z, final(cs).num_vars()) && #[trigger] all_hold(
                    final(cs).added(*old(cs)),
                    z,
                ) && z[self.y.var as int] != 0 ==> affine_at(z, r) == double_incomplete_value(
                    affine_at(z, *self),
                    curve_a@ as int,
                ),
            forall|z: Seq<int>|
                admissible(z, final(cs).num_vars()) && #[trigger] all_hold(final(cs).added(*old(cs)), z)
                    && z[self.y.var as int] == 0 ==> fmod(
                    3 * (fmod(z[self.x.var as int] * z[self.x.var as int]) as int) + curve_a@,
                ) == 0,
    {
        let ghost c0 = *cs;
        let x_sq = square(cs, self.x);
        let ghost c1 = *cs;
        proof {
            lemma_has_extends(c0, c1, self.x);
            lemma_has_extends(c0, c1, self.y);
            lemma_has_wf(c1, self.x);
            lemma_has_wf(c1, self.y);
            lemma_has_wf(c1, x_sq);
        }
        let two = fe_from_u64(2);
        let three = fe_from_u64(3);
        let ghost mut ginv: int = 0;
        let lv = match (x_sq.value, self.y.value) {
            (Some(xs), Some(yv)) => {
                let t = fe_mul(&three, &xs);
                let n = fe_add(&t, &curve_a);
                let d = fe_mul(&two, &yv);
                if fe_eq(&d, &fe_zero()) {
                    Some(fe_one())
                } else {
                    match fe_invert(&d) {
                        Some(inv) => {
                            proof {
                                ginv = inv@ as int;
                            }
                            Some(fe_mul(&n, &inv))
                        },
                        None => None,
                    }
                }
            },
            _ => None,
        };
        let lambda = cs.alloc_var(lv);
        let (la1, lb1, lc1) = (lc_var1(lambda.var), lc_scaled1(self.y.var, two), lc_scaled2(x_sq.var, three, 0, curve_a));
        let ghost (ga1, gb1, gc1) = (la1@, lb1@, lc1@);
        cs.enforce(la1, lb1, lc1);
        let xv = match (lv, self.x.value) {
            (Some(l), Some(x1)) => {
                let ll = fe_mul(&l, &l);
                let t = fe_sub(&ll, &x1);
                Some(fe_sub(&t, &x1))
            },
            _ => None,
        };
        let x = cs.alloc_var(xv);
        let (la2, lb2, lc2) = (lc_var1(lambda.var), lc_var1(lambda.var), lc_scaled2(x.var, fe_one(), self.x.var, two));
        let ghost (ga2, gb2, gc2) = (la2@, lb2@, lc2@);
        cs.enforce(la2, lb2, lc2);
        let yv = match (lv, self.x.value, xv, self.y.value) {
            (Some(l), Some(x1), Some(x3), Some(y1)) => {
                let d = fe_sub(&x1, &x3);
                let t = fe_mul(&l, &d);
                Some(fe_sub(&t, &y1))
            },
            _ => None,
        };
        let y = cs.alloc_var(yv);
        let (la3, lb3, lc3) = (lc_var1(lambda.var), lc_sub2(self.x.var, x.var), lc_add2(y.var, self.y.var));
        let ghost (ga3, gb3, gc3) = (la3@, lb3@, lc3@);
        cs.enforce(la3, lb3, lc3);
        proof {
            let c2 = *cs;
            let p = modulus() as int;
            let ca = curve_a@ as int;
            lemma_minus_one();
            let n1 = c1.constraints@.len() as int;
            let (k1, k2, k3) = (c2.constraints@[n1], c2.constraints@[n1 + 1], c2.constraints@[n1 + 2]);
            assert(k1.a@ == ga1 && k1.b@ == gb1 && k1.c@ == gc1);
            assert(k2.a@ == ga2 && k2.b@ == gb2 && k2.c@ == gc2);
            assert(k3.a@ == ga3 && k3.b@ == gb3 && k3.c@ == gc3);
            assert(c2.extends(c1));
            let (x1, y1, xs, xl, x3, y3) = (
                self.x.var as int,
                self.y.var as int,
                x_sq.var as int,
                lambda.var as int,
                x.var as int,
                y.var as int,
            );
            assert forall|z: Seq<int>| admissible(z, c2.num_vars()) implies (all_hold(c2.added(c1), z)
                <==> fmod(z[xl] * (2 * z[y1])) == fmod(3 * z[xs] + ca) && fmod(z[xl] * z[xl]) == fmod(
                z[x3] + 2 * z[x1],
            ) && fmod(z[xl] * (z[x1] - z[x3])) == fmod(z[y3] + z[y1])) by {
                lemma_added_three(c1, c2, z);
                lemma_lc1(k1.a@, z, 1);
                lemma_lc1(k1.b@, z, 2);
                lemma_lc2(k1.c@, z, 3, ca);
                assert(ca * z[0] == ca) by (nonlinear_arith)
                    requires
                        z[0] == 1,
                ;
                lemma_holds_iff(k1, z, z[xl], 2 * z[y1], 3 * z[xs] + ca);
                lemma_lc1(k2.a@, z, 1);
                lemma_lc1(k2.b@, z, 1);
                lemma_lc2(k2.c@, z, 1, 2);
                lemma_holds_iff(k2, z, z[xl], z[xl], z[x3] + 2 * z[x1]);
                lemma_lc1(k3.a@, z, 1);
                lemma_lc2(k3.b@, z, 1, -1);
                lemma_lc2(k3.c@, z, 1, 1);
                lemma_holds_iff(k3, z, z[xl], z[x1] - z[x3], z[y3] + z[y1]);
            }
            let ch = seq![c0, c1, c2];
            assert(step_extends(ch, 0) && step_extends(ch, 1));
            assert(is_chain(ch));
            lemma_chain(ch, Seq::empty());
            // The honest values.
            if affine_known(*self) {
                assert(x_sq.value is Some);
                let d = fmod(2 * val(self.y)) as int;
                assert(lv is Some);
                assert(c2.aux@[lambda.var - 1] == lambda.value);
                assert(c2.aux@[x.var - 1] == x.value);
                assert(c2.aux@[y.var - 1] == y.value);
                assert(step_known(ch, 0) && step_known(ch, 1));
                assert forall|i: int| 0 <= i < ch.len() - 1 implies #[trigger] step_known(ch, i) by {}
            }
            let vx = val(self.x);
            let vy = val(self.y);
            let nv = fmod(3 * (fmod(vx * vx) as int) + ca) as int;
            let dv = fmod(2 * vy) as int;
            if lv is Some {
                let l = value_of(lv);
                lemma_add_mod_noop(fmod(3 * val(x_sq)) as int, ca, p);
                lemma_add_mod_noop(3 * val(x_sq), ca, p);
                lemma_mod_twice(3 * val(x_sq), p);
                if dv != 0 {
                    lemma_mul_mod_noop_left(nv, ginv, p);
                    lemma_quotient_from_inverse(nv, dv, ginv, l);
                }
                assert(l == tangent_slope((vx, vy), ca));
                if xv is Some {
                    lemma_sub2_mod(l * l, vx, vx);
                    if yv is Some {
                        lemma_mul_sub_mod(l, vx, value_of(xv), vy);
                    }
                }
            }
            assert forall|z: Seq<int>|
                admissible(z, c2.num_vars()) && carries_affine(z, *self) && (fmod(2 * vy) != 0 || fmod(
                    3 * (fmod(vx * vx) as int) + ca,
                ) == 0) && #[trigger] c2.agrees_since(c0, z) implies all_hold(c2.added(c0), z) by {
                lemma_chain(ch, z);
                assert(step_agrees(ch, 0, z) && step_agrees(ch, 1, z));
                lemma_carried(c0, c1, x_sq, z);
                lemma_carried(c1, c2, lambda, z);
                lemma_carried(c1, c2, x, z);
                lemma_carried(c1, c2, y, z);
                assert(step_holds(ch, 0, z));
                let l = z[xl];
                lemma_mul_mod_noop_right(l, 2 * z[y1], p);
                lemma_add_mod_noop(3 * z[xs], ca, p);
                lemma_mod_twice(3 * z[xs] + ca, p);
                if dv != 0 {
                    assert(is_quotient(l, nv, dv));
                } else {
                    assert(l * 0 == 0);
                }
                assert(2 * z[x1] == z[x1] + z[x1]);
                lemma_solve_add(z[x3], 2 * z[x1], l * l);
                lemma_solve_add(z[y3], z[y1], l * (z[x1] - z[x3]));
                assert(step_holds(ch, 1, z));
                assert forall|k: int| 0 <= k < ch.len() - 1 implies #[trigger] step_holds(ch, k, z) by {}
            }
            assert forall|z: Seq<int>|
                admissible(z, c2.num_vars()) && #[trigger] all_hold(c2.added(c0), z) && z[y1] == 0 implies fmod(
                3 * (fmod(z[x1] * z[x1]) as int) + ca,
            ) == 0 by {
                lemma_chain(ch, z);
                assert(step_holds(ch, 0, z) && step_holds(ch, 1, z));
                let l = z[xl];
                assert(l * (2 * z[y1]) == 0);
            }
            if no_zero_divisors() {
                assert forall|z: Seq<int>|
                    admissible(z, c2.num_vars()) && #[trigger] all_hold(c2.added(c0), z) && z[y1] != 0
                        implies affine_at(z, AllocatedPointNonInfinity { x, y }) == double_incomplete_value(
                    affine_at(z, *self),
                    ca,
                ) by {
                    lemma_chain(ch, z);
                    assert(step_holds(ch, 0, z) && step_holds(ch, 1, z));
                    let l = z[xl];
                    let (zx, zy) = (z[x1], z[y1]);
                    let n = fmod(3 * (fmod(zx * zx) as int) + ca) as int;
                    let d = fmod(2 * zy) as int;
                    assert(fmod(2) != 0);
                    assert(fmod(zy) != 0);
                    assert(d != 0);
                    lemma_mul_mod_noop_right(l, 2 * zy, p);
                    lemma_add_mod_noop(3 * z[xs], ca, p);
                    lemma_mod_twice(3 * z[xs] + ca, p);
                    lemma_mod_twice(2 * zy, p);
                    lemma_quotient_unique(n, d, l);
                    assert(2 * zx == zx + zx);
                    lemma_solve_add(z[x3], 2 * zx, l * l);
                    lemma_solve_add(z[y3], zy, l * (zx - z[x3]));
                }
            }
        }
        AllocatedPointNonInfinity { x, y }
    }

    /// `a` if the bit `condition` is set, otherwise `b`.
    pub fn conditionally_select(cs: &mut Circuit, a: &AllocatedPointNonInfinity, b: &AllocatedPointNonInfinity, condition: Num) -> (r: AllocatedPointNonInfinity)
        requires
            old(cs).wf(),
            old(cs).room(2),
            affine_in(*old(cs), *a),
            affine_in(*old(cs), *b),
            old(cs).has(condition),
            bit_valued(condition),
        ensures
            grown(*final(cs), *old(cs), 2),
            affine_in(*final(cs), r),
            affine_new(r, old(cs).num_vars()),
            affine_known(*a) && affine_known(*b) && condition.value is Some ==> affine_known(r)
                && final(cs).known_since(*old(cs)),
            affine_known(r) ==> affine_val(r) == (if val(condition) == 1 { affine_val(*a) } else { affine_val(*b) }),
            forall|z: Seq<int>|
                admissible(z, final(cs).num_vars()) && carries_affine(z, *a) && carries_affine(z, *b)
                    && carries(z, condition) && #[trigger] final(cs).agrees_since(*old(cs), z)
                    ==> all_hold(final(cs).added(*old(cs)), z),
            forall|z: Seq<int>|
                admissible(z, final(cs).num_vars()) && #[trigger] all_hold(
                    final(cs).added(*old(cs)),
                    z,
                ) && is_bit(z[condition.var as int]) ==> affine_at(z, r) == (if z[condition.var as int]
                    == 1 {
                    affine_at(z, *a)
                } else {
                    affine_at(z, *b)
                }),
    {
        let ghost c0 = *cs;
        let x = crate::gadgets::utils::conditionally_select(cs, a.x, b.x, condition);
        let ghost c1 = *cs;
        proof {
            lemma_has_extends(c0, c1, a.y);
            lemma_has_extends(c0, c1, b.y);
            lemma_has_extends(c0, c1, condition);
        }
        let y = crate::gadgets::utils::conditionally_select(cs, a.y, b.y, condition);
        let ghost c2 = *cs;
        proof {
            lemma_has_extends(c1, c2, x);
            let ch = seq![c0, c1, c2];
            assert(step_extends(ch, 0) && step_extends(ch, 1));
            assert(is_chain(ch));
            lemma_chain(ch, Seq::empty());
            if affine_known(*a) && affine_known(*b) && condition.value is Some {
                assert(c1.aux@[x.var - 1] == x.value);
                assert(c2.aux@[y.var - 1] == y.value);
                assert(step_known(ch, 0) && step_known(ch, 1));
                assert forall|i: int| 0 <= i < ch.len() - 1 implies #[trigger] step_known(ch, i) by {}
            }
            assert forall|z: Seq<int>|
                admissible(z, c2.num_vars()) && carries_affine(z, *a) && carries_affine(z, *b) && carries(
                    z,
                    condition,
                ) && #[trigger] c2.agrees_since(c0, z) implies all_hold(c2.added(c0), z) by {
                lemma_chain(ch, z);
                assert(step_agrees(ch, 0, z) && step_agrees(ch, 1, z));
                assert forall|i: int| 0 <= i < ch.len() - 1 implies #[trigger] step_holds(ch, i, z) by {}
            }
            assert forall|z: Seq<int>|
                admissible(z, c2.num_vars()) && #[trigger] all_hold(c2.added(c0), z) && is_bit(
                    z[condition.var as int],
                ) implies affine_at(z, AllocatedPointNonInfinity { x, y }) == (if z[condition.var as int]
                == 1 {
                affine_at(z, *a)
            } else {
                affine_at(z, *b)
            }) by {
                lemma_chain(ch, z);
                assert(step_holds(ch, 0, z) && step_holds(ch, 1, z));
            }
        }
        AllocatedPointNonInfinity { x, y }
    }
}

/// Negation modulo the field's modulus is an involution on residues:
/// `-(x mod q)` and `-x` are congruent, and so are `-(-x mod q)` and `x`.
pub proof fn lemma_neg_neg_mod(x: int)
    ensures
        fmod(-(fmod(-x) as int)) == fmod(x),
        fmod(-(fmod(x) as int)) == fmod(-x),
{
    let p = modulus() as int;
    lemma_fundamental_div_mod(x, p);
    lemma_fundamental_div_mod(-x, p);
    assert(-((-x) % p) == p * ((-x) / p) + x);
    lemma_mod_multiples_vanish((-x) / p, x, p);
    assert(-(x % p) == p * (x / p) + (-x));
    lemma_mod_multiples_vanish(x / p, -x, p);
}

/// The two curve-check constraints, on values: when the point is not at
/// infinity they force `y^2 = x^3 + a x + b`.
pub proof fn lemma_curve_check_sound(x: int, y: int, i: int, sq: int, xsq: int, xc: int, r: int, ca: int, cb: int)
    requires
        is_bit(i),
        sq == fmod(y * y),
        xsq == fmod(x * x),
        xc == fmod(x * xsq),
        fmod((xc + ca * x + cb) * (1 - i)) == fmod(r),
        fmod(sq * (1 - i)) == fmod(r),
    ensures
        on_curve((x, y, i), ca, cb),
{
    let p = modulus() as int;
    if i == 0 {
        lemma_mul_bit(xc + ca * x + cb, i);
        lemma_mul_bit(sq, i);
        lemma_mul_mod_noop_right(x, x * x, p);
        lemma_mul_is_associative(x, x, x);
        lemma_add_mod_noop(xc, ca * x + cb, p);
        lemma_add_mod_noop(x * x * x, ca * x + cb, p);
    }
}

/// The two curve-check constraints, on values: an honest assignment for a
/// point on the curve (or at infinity) satisfies them.
pub proof fn lemma_curve_check_complete(x: int, y: int, i: int, sq: int, xsq: int, xc: int, r: int, ca: int, cb: int)
    requires
        is_bit(i),
        sq == fmod(y * y),
        xsq == fmod(x * x),
        xc == fmod(x * xsq),
        r == (if i == 1 { 0 } else { fmod(xc + ca * x + cb) as int }),
        on_curve((x, y, i), ca, cb),
    ensures
        fmod((xc + ca * x + cb) * (1 - i)) == fmod(r),
        fmod(sq * (1 - i)) == fmod(r),
{
    let p = modulus() as int;
    lemma_mul_bit(xc + ca * x + cb, i);
    lemma_mul_bit(sq, i);
    if i == 0 {
        lemma_mul_mod_noop_right(x, x * x, p);
        lemma_mul_is_associative(x, x, x);
        lemma_add_mod_noop(xc, ca * x + cb, p);
        lemma_add_mod_noop(x * x * x, ca * x + cb, p);
        lemma_mod_twice(xc + ca * x + cb, p);
    }
}

/// `((u + (x a mod q)) mod q + b) mod q` is `(u + a x + b) mod q`.
pub proof fn lemma_fadd3(u: int, x: int, ca: int, cb: int)
    ensures
        fmod(fmod(u + fmod(x * ca) as int) + cb) == fmod(u + ca * x + cb),
{
    let p = modulus() as int;
    lemma_mul_is_commutative(x, ca);
    lemma_add_mod_noop(u, x * ca, p);
    lemma_mod_twice(x * ca, p);
    lemma_add_mod_noop(u, fmod(x * ca) as int, p);
    lemma_add_mod_noop(fmod(u + fmod(x * ca) as int) as int, cb, p);
    lemma_add_mod_noop(u + x * ca, cb, p);
    lemma_mod_twice(u + x * ca, p);
}

/// `l` is a canonical value with `l d = n` (mod `q`).
pub open spec fn is_quotient(l: int, n: int, d: int) -> bool {
    0 <= l < modulus() && fmod(l * d) == fmod(n)
}

/// The `l` with `l d = n` (mod `q`), when there is exactly one.
pub open spec fn quotient(n: int, d: int) -> int {
    choose|l: int| #[trigger] is_quotient(l, n, d)
}

/// Given an inverse of `d`, `n` times it is the quotient of `n` by `d`.
pub proof fn lemma_quotient_from_inverse(n: int, d: int, inv: int, l: int)
    requires
        fmod(d * inv) == 1,
        l == fmod(n * inv),
    ensures
        quotient(n, d) == l,
        fmod(l * d) == fmod(n),
{
    let p = modulus() as int;
    // l d == n inv d == n (d inv) == n
    lemma_mul_mod_noop_left(n * inv, d, p);
    lemma_mul_is_associative(n, inv, d);
    lemma_mul_is_commutative(inv, d);
    lemma_mul_mod_noop_right(n, d * inv, p);
    assert(fmod(l * d) == fmod(n));
    assert(is_quotient(l, n, d));
    let l2 = quotient(n, d);
    assert(0 <= l2 < modulus() && fmod(l2 * d) == fmod(n));
    // l2 == l2 d inv == n inv == l
    lemma_mul_mod_noop_left(l2 * d, inv, p);
    lemma_mul_mod_noop_left(n, inv, p);
    lemma_mul_is_associative(l2, d, inv);
    lemma_mul_mod_noop_right(l2, d * inv, p);
    lemma_mod_twice(n * inv, p);
    lemma_canonical_eq(l2, l);
}

/// In a field without zero divisors, a quotient by a nonzero value is
/// determined by its defining equation.
pub proof fn lemma_quotient_unique(n: int, d: int, l: int)
    requires
        no_zero_divisors(),
        fmod(d) != 0,
        0 <= l < modulus(),
        fmod(l * d) == fmod(n),
    ensures
        quotient(n, d) == l,
{
    let p = modulus() as int;
    assert(is_quotient(l, n, d));
    let l2 = quotient(n, d);
    assert(0 <= l2 < modulus() && fmod(l2 * d) == fmod(n));
    lemma_mul_is_distributive_sub_other_way(d, l2, l);
    lemma_sub_mod_noop(l2 * d, l * d, p);
    assert(fmod((l2 - l) * d) == 0);
    assert(fmod(l2 - l) == 0);
    lemma_canonical_shift(l2, l, l);
}

/// Solving `v + w == u` for a canonical `v`.
pub proof fn lemma_solve_add(v: int, w: int, u: int)
    requires
        0 <= v < modulus(),
    ensures
        fmod(v + w) == fmod(u) <==> v == fmod(u - w),
{
    let p = modulus() as int;
    lemma_sub_mod_noop(v + w, w, p);
    lemma_sub_mod_noop(u, w, p);
    lemma_add_mod_noop(v, w, p);
    lemma_add_mod_noop(fmod(u - w) as int, w, p);
    lemma_mod_twice(u - w, p);
    lemma_sub_mod_noop(u - w + w, 0, p);
    if fmod(v + w) == fmod(u) {
        assert(fmod(v) == fmod(u - w));
    }
}

/// Nested residues of a difference of three terms.
pub proof fn lemma_sub2_mod(a: int, b: int, c: int)
    ensures
        fmod(fmod(fmod(a) as int - b) as int - c) == fmod(a - b - c),
{
    let p = modulus() as int;
    lemma_sub_mod_noop(a, b, p);
    lemma_mod_twice(a, p);
    lemma_sub_mod_noop(fmod(a) as int, b, p);
    lemma_sub_mod_noop(fmod(fmod(a) as int - b) as int, c, p);
    lemma_sub_mod_noop(a - b, c, p);
    lemma_mod_twice(a - b, p);
}

/// The residue of `l (a - b) - c` computed one operation at a time.
pub proof fn lemma_mul_sub_mod(l: int, a: int, b: int, c: int)
    ensures
        fmod(fmod(l * fmod(a - b) as int) as int - c) == fmod(l * (a - b) - c),
{
    let p = modulus() as int;
    lemma_mul_mod_noop_right(l, a - b, p);
    lemma_sub_mod_noop(l * (a - b), c, p);
    lemma_sub_mod_noop(fmod(l * fmod(a - b) as int) as int, c, p);
    lemma_mod_twice(l * (a - b), p);
}

/// The chord or tangent through an affine point with slope `l`: the third
/// intersection's `x`.
pub open spec fn chord_x(l: int, x1: int, x2: int) -> int {
    fmod(l * l - x1 - x2) as int
}

/// ... and its reflected `y`.
pub open spec fn chord_y(l: int, x1: int, y1: int, x3: int) -> int {
    fmod(l * (x1 - x3) - y1) as int
}

/// The slope an honest prover uses to add two points assumed distinct
/// and not opposite: one when the `x` coordinates agree.
pub open spec fn incomplete_slope(p: (int, int), q: (int, int)) -> int {
    if p.0 == q.0 {
        1
    } else {
        quotient(q.1 - p.1, q.0 - p.0)
    }
}

/// The sum of two points by the chord rule, with the slope above.
pub open spec fn add_incomplete_value(p: (int, int), q: (int, int)) -> (int, int) {
    let l = incomplete_slope(p, q);
    let x3 = chord_x(l, p.0, q.0);
    (x3, chord_y(l, p.0, p.1, x3))
}

/// The tangent slope an honest prover uses to double a point: one when
/// `2 y` is zero.
pub open spec fn tangent_slope(p: (int, int), a: int) -> int {
    let n = fmod(3 * (fmod(p.0 * p.0) as int) + a) as int;
    let d = fmod(2 * p.1) as int;
    if d == 0 {
        1
    } else {
        quotient(n, d)
    }
}

/// The double of a point by the tangent rule, with the slope above.
pub open spec fn double_incomplete_value(p: (int, int), a: int) -> (int, int) {
    let l = tangent_slope(p, a);
    let x3 = chord_x(l, p.0, p.0);
    (x3, chord_y(l, p.0, p.1, x3))
}

/// The "or" of two bits.
pub open spec fn or_bit(a: int, b: int) -> int {
    if a == 1 || b == 1 {
        1
    } else {
        0
    }
}

/// The sum an honest prover computes for two points when told whether their
/// `x` coordinates agree (`e`): either point when the other is at
/// infinity, else the point at infinity when `e` is set (the points are
/// opposite or equal), else the chord rule.
pub open spec fn add_internal_value(p: (int, int, int), q: (int, int, int), e: int) -> (int, int, int) {
    let act = or_bit(e, or_bit(p.2, q.2));
    let l = if act == 1 {
        fmod(q.1 - p.1) as int
    } else {
        quotient(q.1 - p.1, q.0 - p.0)
    };
    let x3 = chord_x(l, p.0, q.0);
    let y3 = chord_y(l, p.0, p.1, x3);
    if p.2 == 1 {
        q
    } else if q.2 == 1 {
        p
    } else if e == 1 {
        infinity()
    } else {
        (x3, y3, 0)
    }
}

/// The "or" gate `(1 - a) (1 - b) = 1 - o` on bits and a canonical output.
pub proof fn lemma_or_gate(a: int, b: int, o: int)
    requires
        is_bit(a),
        is_bit(b),
        0 <= o < modulus(),
    ensures
        fmod((1 - a) * (1 - b)) == fmod(1 - o) <==> o == or_bit(a, b),
{
    lemma_bit_products(a, b);
    lemma_canonical_one_minus(o, or_bit(a, b));
}

/// The honest value of an "or" gate computed with field operations.
pub proof fn lemma_or_value(a: int, b: int)
    requires
        is_bit(a),
        is_bit(b),
    ensures
        fmod(1 - (fmod((fmod(1 - a) as int) * (fmod(1 - b) as int)) as int)) == or_bit(a, b),
{
    lemma_bit_products(a, b);
}

/// The three variables of a point stay allocated, with their values, in an
/// extension.
pub proof fn lemma_point_extends(c1: Circuit, c2: Circuit, p: AllocatedPoint)
    requires
        point_in(c1, p),
        c2.extends(c1),
    ensures
        point_in(c2, p),
{
    lemma_has_extends(c1, c2, p.x);
    lemma_has_extends(c1, c2, p.y);
    lemma_has_extends(c1, c2, p.is_infinity);
}

/// The chord constraints of point addition, on values: they fix `x3` and
/// `y3` from the slope.
pub proof fn lemma_chord_block(l: int, x1: int, y1: int, x2: int, x3: int, y3: int)
    requires
        0 <= x3 < modulus(),
        0 <= y3 < modulus(),
    ensures
        (fmod(l * l) == fmod(x3 + x1 + x2) && fmod(l * (x1 - x3)) == fmod(y3 + y1)) <==> (x3
            == chord_x(l, x1, x2) && y3 == chord_y(l, x1, y1, x3)),
{
    lemma_solve_add(x3, x1 + x2, l * l);
    lemma_solve_add(y3, y1, l * (x1 - x3));
}

/// The double an honest prover computes: the point at infinity for the
/// point at infinity, else the tangent rule with slope `(3 x^2 + a) / 2 y`.
pub open spec fn double_value(p: (int, int, int), a: int) -> (int, int, int) {
    let n = fmod(3 * p.0 * p.0 + a) as int;
    let l = if p.2 == 1 {
        n
    } else {
        quotient(n, fmod(2 * p.1) as int)
    };
    let x3 = chord_x(l, p.0, p.0);
    let y3 = chord_y(l, p.0, p.1, x3);
    if p.2 == 1 {
        infinity()
    } else {
        (x3, y3, 0)
    }
}

/// Twice a nonzero canonical value is not congruent to zero (the modulus is
/// odd).
pub proof fn lemma_double_nonzero(y: int)
    requires
        0 < y < modulus(),
    ensures
        fmod(2 * y) != 0,
{
    let p = modulus() as int;
    lemma_fundamental_div_mod(2 * y, p);
    lemma_div_pos_is_pos(2 * y, p);
    if (2 * y) / p >= 2 {
        lemma_mul_inequality(2, (2 * y) / p, p);
    }
}

/// The sum of two finite points by their coordinates: the double when they
/// are equal, the point at infinity when they are opposite (same `x`,
/// different `y`), else the chord-rule sum.
pub open spec fn add_by_x(p: (int, int, int), q: (int, int, int), a: int) -> (int, int, int) {
    if p.0 == q.0 {
        if p.1 == q.1 {
            double_value(p, a)
        } else {
            infinity()
        }
    } else {
        add_internal_value(p, q, 0)
    }
}

/// The sum an honest prover computes for two points: the other point when
/// either is at infinity, else `add_by_x`.
pub open spec fn add_value(p: (int, int, int), q: (int, int, int), a: int) -> (int, int, int) {
    if p.2 == 1 {
        q
    } else if q.2 == 1 {
        p
    } else {
        add_by_x(p, q, a)
    }
}

/// The values of the bits `bits` in the assignment `z`.
pub open spec fn bits_at(z: Seq<int>, bits: Seq<Num>) -> Seq<int> {
    Seq::new(bits.len(), |i: int| z[bits[i].var as int])
}

/// The recorded values of the bits `bits`.
pub open spec fn bits_val(bits: Seq<Num>) -> Seq<int> {
    Seq::new(bits.len(), |i: int| val(bits[i]))
}

/// How many low bits the scalar multiplication handles with the
/// incomplete addition law: all but two of the field's bit length, at most.
pub open spec fn incomplete_len(n: nat) -> nat {
    if n < 253 {
        n
    } else {
        253
    }
}

/// The accumulator and the doubled point of the incomplete phase after the
/// bits `1..k` (`k >= 1`), starting from `base` with its first bit taken
/// as set.
pub open spec fn sm_incomplete(base: (int, int), bits: Seq<int>, k: nat, a: int) -> ((int, int), (int, int))
    decreases k,
{
    if k <= 1 {
        (base, double_incomplete_value(base, a))
    } else {
        let prev = sm_incomplete(base, bits, (k - 1) as nat, a);
        let temp = add_incomplete_value(prev.0, prev.1);
        (if bits[k - 1] == 1 {
            temp
        } else {
            prev.0
        }, double_incomplete_value(prev.1, a))
    }
}

/// The incomplete laws apply at every step of the incomplete phase: the
/// doubled points have nonzero `y`, and the accumulator and the doubled
/// point have distinct `x`.
pub open spec fn sm_incomplete_ok(base: (int, int), bits: Seq<int>, k: nat, a: int) -> bool
    decreases k,
{
    if k <= 1 {
        base.1 != 0
    } else {
        let prev = sm_incomplete(base, bits, (k - 1) as nat, a);
        sm_incomplete_ok(base, bits, (k - 1) as nat, a) && prev.0.0 != prev.1.0 && prev.1.1 != 0
    }
}

/// The incomplete addition's constraints can be met: the `x` coordinates
/// differ, or the `y` coordinates agree.
pub open spec fn incomplete_add_ok(p: (int, int), q: (int, int)) -> bool {
    p.0 != q.0 || p.1 == q.1
}

/// The incomplete doubling's constraints can be met: `2 y` is not zero, or
/// `3 x^2 + a` is.
pub open spec fn incomplete_double_ok(p: (int, int), a: int) -> bool {
    fmod(2 * p.1) != 0 || fmod(3 * (fmod(p.0 * p.0) as int) + a) == 0
}

/// Every step of the incomplete phase up to `k` can have its constraints
/// met by the honest values.
pub open spec fn sm_incomplete_complete(base: (int, int), bits: Seq<int>, k: nat, a: int) -> bool
    decreases k,
{
    if k <= 1 {
        incomplete_double_ok(base, a)
    } else {
        let prev = sm_incomplete(base, bits, (k - 1) as nat, a);
        sm_incomplete_complete(base, bits, (k - 1) as nat, a) && incomplete_add_ok(prev.0, prev.1)
            && incomplete_double_ok(prev.1, a)
    }
}

/// The condition holds of every shorter run.
pub proof fn lemma_sm_incomplete_complete_prefix(base: (int, int), bits: Seq<int>, j: nat, k: nat, a: int)
    requires
        sm_incomplete_complete(base, bits, k, a),
        1 <= j <= k,
    ensures
        sm_incomplete_complete(base, bits, j, a),
    decreases k - j,
{
    if j < k {
        lemma_sm_incomplete_complete_prefix(base, bits, j, (k - 1) as nat, a);
    }
}

/// Regular steps, from a canonical `y`, can have their constraints met.
pub proof fn lemma_regular_is_complete(base: (int, int), bits: Seq<int>, k: nat, a: int)
    requires
        sm_incomplete_ok(base, bits, k, a),
        0 <= base.1 < modulus(),
    ensures
        sm_incomplete_complete(base, bits, k, a),
    decreases k,
{
    if k <= 1 {
        lemma_double_nonzero(base.1);
    } else {
        lemma_regular_is_complete(base, bits, (k - 1) as nat, a);
        let prev = sm_incomplete(base, bits, (k - 1) as nat, a);
        lemma_mod_bound(chord_y(tangent_slope(base, a), base.0, base.1, 0), modulus() as int);
        assert(0 <= prev.1.1 < modulus()) by {
            if k - 1 <= 1 {
            } else {
                let pp = sm_incomplete(base, bits, (k - 2) as nat, a);
                assert(prev.1 == double_incomplete_value(pp.1, a));
            }
        }
        lemma_double_nonzero(prev.1.1);
    }
}

/// The incomplete-phase accumulator `acc` turned back into a point of
/// `p`'s flag: less `p` when the first bit `b0` is clear (the phase took
/// it as set), and `(0, 0)` with the flag when `p` is at infinity.
pub open spec fn middle_value(p: (int, int, int), acc: (int, int), b0: int, a: int) -> (int, int, int) {
    let acc_pt = (acc.0, acc.1, p.2);
    let res = if b0 == 1 {
        acc_pt
    } else {
        add_value(acc_pt, negate_value(p), a)
    };
    (if p.2 == 1 {
        0
    } else {
        res.0
    }, if p.2 == 1 {
        0
    } else {
        res.1
    }, res.2)
}

/// The accumulator and the doubled point after the incomplete phase, both
/// given `p`'s flag.
pub open spec fn sm_middle(p: (int, int, int), bits: Seq<int>, split: nat, a: int) -> ((int, int, int), (int, int, int)) {
    let st = sm_incomplete((p.0, p.1), bits, split, a);
    (middle_value(p, st.0, bits[0], a), (st.1.0, st.1.1, p.2))
}

/// The accumulator and the doubled point after `k` bits of the complete
/// phase, which starts at bit `from`.
pub open spec fn sm_complete(
    start: ((int, int, int), (int, int, int)),
    bits: Seq<int>,
    from: nat,
    k: nat,
    a: int,
) -> ((int, int, int), (int, int, int))
    decreases k,
{
    if k == 0 {
        start
    } else {
        let prev = sm_complete(start, bits, from, (k - 1) as nat, a);
        let temp = add_value(prev.0, prev.1, a);
        (if bits[from + k - 1] == 1 {
            temp
        } else {
            prev.0
        }, double_value(prev.1, a))
    }
}

/// The complete laws are defined at every step of the complete phase: the
/// accumulator and the doubled point are at infinity or have nonzero `y`.
pub open spec fn sm_complete_ok(
    start: ((int, int, int), (int, int, int)),
    bits: Seq<int>,
    from: nat,
    k: nat,
    a: int,
) -> bool
    decreases k,
{
    if k == 0 {
        true
    } else {
        let prev = sm_complete(start, bits, from, (k - 1) as nat, a);
        sm_complete_ok(start, bits, from, (k - 1) as nat, a) && (prev.0.2 == 1 || prev.0.1 != 0) && (
        prev.1.2 == 1 || prev.1.1 != 0)
    }
}

/// `bits` times `p` as an honest prover computes it, lowest bit first.
pub open spec fn scalar_mul_value(p: (int, int, int), bits: Seq<int>, a: int) -> (int, int, int) {
    let split = incomplete_len(bits.len());
    sm_complete(sm_middle(p, bits, split, a), bits, split, (bits.len() - split) as nat, a).0
}

/// The honest computation never doubles a finite point with zero `y`.
pub open spec fn scalar_mul_defined(p: (int, int, int), bits: Seq<int>, a: int) -> bool {
    let split = incomplete_len(bits.len());
    let st = sm_incomplete((p.0, p.1), bits, split, a);
    &&& (p.2 == 1 || st.0.1 != 0)
    &&& sm_complete_ok(sm_middle(p, bits, split, a), bits, split, (bits.len() - split) as nat, a)
}

/// Besides, every incomplete step is a genuine addition or doubling.
pub open spec fn scalar_mul_regular(p: (int, int, int), bits: Seq<int>, a: int) -> bool {
    &&& scalar_mul_defined(p, bits, a)
    &&& sm_incomplete_ok((p.0, p.1), bits, incomplete_len(bits.len()), a)
}

/// The incomplete-phase conditions hold of every shorter prefix.
pub proof fn lemma_sm_incomplete_ok_prefix(base: (int, int), bits: Seq<int>, j: nat, k: nat, a: int)
    requires
        sm_incomplete_ok(base, bits, k, a),
        1 <= j <= k,
    ensures
        sm_incomplete_ok(base, bits, j, a),
    decreases k - j,
{
    if j < k {
        lemma_sm_incomplete_ok_prefix(base, bits, j, (k - 1) as nat, a);
    }
}

/// Every bit of `bits` is allocated in `cs`, with a bit as its value when known.
pub open spec fn bits_in(cs: Circuit, bits: Seq<Num>) -> bool {
    forall|i: int| 0 <= i < bits.len() ==> cs.has(#[trigger] bits[i]) && bit_valued(bits[i])
}

/// Every bit of `bits` has a known value.
pub open spec fn bits_known(bits: Seq<Num>) -> bool {
    forall|i: int| 0 <= i < bits.len() ==> (#[trigger] bits[i]).value is Some
}

/// The assignment gives every bit of `bits` its known value.
pub open spec fn carries_bits(z: Seq<int>, bits: Seq<Num>) -> bool {
    forall|i: int| 0 <= i < bits.len() ==> carries(z, #[trigger] bits[i])
}

/// The assignment gives every bit of `bits` a bit.
pub open spec fn bits_boolean_at(z: Seq<int>, bits: Seq<Num>) -> bool {
    forall|i: int| 0 <= i < bits.len() ==> is_bit(z[(#[trigger] bits[i]).var as int])
}

/// The bits stay allocated in an extension.
pub proof fn lemma_bits_extends(c1: Circuit, c2: Circuit, bits: Seq<Num>)
    requires
        bits_in(c1, bits),
        c2.extends(c1),
    ensures
        bits_in(c2, bits),
{
    assert forall|i: int| 0 <= i < bits.len() implies c2.has(#[trigger] bits[i]) && bit_valued(bits[i]) by {
        lemma_has_extends(c1, c2, bits[i]);
    }
}

} // verus!
