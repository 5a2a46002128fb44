//! Scalar multiplication of an allocated point by a little-endian sequence
//! of allocated bits: an incomplete double-and-add phase over the low bits,
//! then the complete addition law over the rest.
use crate::field::{fe_num_bits, Fe};
use crate::gadgets::circuit::{
    carries, is_chain, lemma_carried, lemma_chain, lemma_has_extends, step_agrees, step_extends,
    step_holds, step_known, val, Circuit, Num,
};
use crate::gadgets::ecc::{
    add_value, affine_at, affine_in, affine_known, affine_val, bits_at, bits_boolean_at, bits_in,
    bits_known, bits_val, carries_affine, carries_bits, carries_point, double_value, incomplete_len,
    infinity, lemma_bits_extends, lemma_point_extends, middle_value,
    negate_value, point_at, point_in, point_known, point_new, point_val, scalar_mul_defined,
    scalar_mul_incomplete, scalar_mul_regular, scalar_mul_value, select_point, sm_complete,
    sm_complete_ok, sm_incomplete_complete, sm_middle, AllocatedPoint, AllocatedPointNonInfinity,
};
use crate::gadgets::r1cs::{admissible, all_hold, no_zero_divisors};
use crate::gadgets::utils::{bit_valued, conditionally_select, grown, is_bit};
use vstd::prelude::*;

verus! {

/// The flag of an honest sum is a bit when the flags of the summands are.
pub proof fn lemma_add_value_flag(p: (int, int, int), q: (int, int, int), a: int)
    requires
        is_bit(p.2),
        is_bit(q.2),
    ensures
        is_bit(add_value(p, q, a).2),
{
}

/// The flag of the incomplete-phase result turned back into a point is a
/// bit when `p`'s flag is.
pub proof fn lemma_middle_value_flag(p: (int, int, int), acc: (int, int), b0: int, a: int)
    requires
        is_bit(p.2),
    ensures
        is_bit(middle_value(p, acc, b0, a).2),
{
    lemma_add_value_flag((acc.0, acc.1, p.2), negate_value(p), a);
}

/// Turns the incomplete-phase accumulator `acc` back into a point with the
/// flag of `base`, removes the initial `base` when the first bit `bit0` is
/// clear, and resets the coordinates to `(0, 0)` when `base` is at infinity.
#[verifier::spinoff_prover]
#[verifier::rlimit(60)]
fn scalar_mul_middle(
    cs: &mut Circuit,
    base: &AllocatedPoint,
    acc: &AllocatedPointNonInfinity,
    bit0: Num,
    curve_a: Fe,
) -> (r: AllocatedPoint)
    requires
        old(cs).wf(),
        old(cs).room(46),
        point_in(*old(cs), *base),
        affine_in(*old(cs), *acc),
        old(cs).has(bit0),
        bit_valued(bit0),
        bit_valued(base.is_infinity),
        curve_a.wf(),
        point_known(*base) && affine_known(*acc) && bit0.value is Some && (val(base.is_infinity) == 1
            || val(acc.y) != 0) || base.is_infinity.value is None,
    ensures
        grown(*final(cs), *old(cs), 46),
        point_in(*final(cs), r),
        point_new(r, old(cs).num_vars()),
        bit_valued(r.is_infinity),
        base.is_infinity.value is None ==> r.is_infinity.value is None,
        point_known(*base) ==> point_known(r) && final(cs).known_since(*old(cs)) && point_val(r)
            == middle_value(point_val(*base), affine_val(*acc), val(bit0), curve_a@ as int),
        forall|z: Seq<int>|
            admissible(z, final(cs).num_vars()) && carries_point(z, *base) && carries_affine(z, *acc)
                && carries(z, bit0) && #[trigger] final(cs).agrees_since(*old(cs), z) ==> all_hold(
                final(cs).added(*old(cs)),
                z,
            ) && carries_point(z, r),
        no_zero_divisors() ==> forall|z: Seq<int>|
            admissible(z, final(cs).num_vars()) && #[trigger] all_hold(final(cs).added(*old(cs)), z)
                && is_bit(z[base.is_infinity.var as int]) && is_bit(z[bit0.var as int]) && (
            z[base.is_infinity.var as int] == 1 || z[acc.y.var as int] != 0) ==> point_at(z, r)
                == middle_value(point_at(z, *base), affine_at(z, *acc), z[bit0.var as int], curve_a@ as int)
                && is_bit(z[r.is_infinity.var as int]),
{
    let ghost c0 = *cs;
    let ghost ca = curve_a@ as int;
    let acc_pt = acc.to_allocated_point(base.is_infinity);
    let neg = base.negate(cs);
    let ghost c1 = *cs;
    proof {
        lemma_point_extends(c0, c1, acc_pt);
        lemma_point_extends(c0, c1, *base);
        lemma_has_extends(c0, c1, bit0);
    }
    let acc_minus_initial = acc_pt.add(cs, &neg, curve_a);
    let ghost c2 = *cs;
    proof {
        lemma_point_extends(c1, c2, acc_pt);
        lemma_point_extends(c1, c2, *base);
        lemma_has_extends(c1, c2, bit0);
    }
    let res = AllocatedPoint::conditionally_select(cs, &acc_pt, &acc_minus_initial, bit0);
    let ghost c3 = *cs;
    proof {
        lemma_point_extends(c2, c3, *base);
    }
    let default = AllocatedPoint::default(cs);
    let ghost c4 = *cs;
    proof {
        lemma_point_extends(c3, c4, *base);
        lemma_point_extends(c3, c4, res);
    }
    let x = conditionally_select(cs, default.x, res.x, base.is_infinity);
    let ghost c5 = *cs;
    proof {
        lemma_point_extends(c4, c5, *base);
        lemma_point_extends(c4, c5, res);
        lemma_point_extends(c4, c5, default);
    }
    let y = conditionally_select(cs, default.y, res.y, base.is_infinity);
    let ghost c6 = *cs;
    let r = AllocatedPoint { x, y, is_infinity: res.is_infinity };
    proof {
        lemma_point_extends(c5, c6, res);
        lemma_has_extends(c5, c6, x);
        let ch = seq![c0, c1, c2, c3, c4, c5, c6];
        assert(step_extends(ch, 0) && step_extends(ch, 1) && step_extends(ch, 2) && step_extends(ch, 3)
            && step_extends(ch, 4) && step_extends(ch, 5));
        assert(is_chain(ch));
        lemma_chain(ch, Seq::empty());
        if point_known(*base) {
            assert(step_known(ch, 0) && step_known(ch, 1) && step_known(ch, 2) && step_known(ch, 3)
                && step_known(ch, 4) && step_known(ch, 5));
            assert forall|i: int| 0 <= i < ch.len() - 1 implies #[trigger] step_known(ch, i) by {}
            assert(point_val(acc_pt) == (affine_val(*acc).0, affine_val(*acc).1, val(base.is_infinity)));
        }
        assert forall|z: Seq<int>|
            admissible(z, c6.num_vars()) && carries_point(z, *base) && carries_affine(z, *acc) && carries(
                z,
                bit0,
            ) && #[trigger] c6.agrees_since(c0, z) implies all_hold(c6.added(c0), z) && carries_point(z, r) by {
            lemma_chain(ch, z);
            assert(step_agrees(ch, 0, z) && step_agrees(ch, 1, z) && step_agrees(ch, 2, z)
                && step_agrees(ch, 3, z) && step_agrees(ch, 4, z) && step_agrees(ch, 5, z));
            lemma_carried(c0, c1, neg.y, z);
            lemma_carried(c1, c2, acc_minus_initial.x, z);
            lemma_carried(c1, c2, acc_minus_initial.y, z);
            lemma_carried(c1, c2, acc_minus_initial.is_infinity, z);
            lemma_carried(c2, c3, res.x, z);
            lemma_carried(c2, c3, res.y, z);
            lemma_carried(c2, c3, res.is_infinity, z);
            lemma_carried(c3, c4, default.x, z);
            lemma_carried(c3, c4, default.y, z);
            lemma_carried(c4, c5, x, z);
            lemma_carried(c5, c6, y, z);
            assert forall|i: int| 0 <= i < ch.len() - 1 implies #[trigger] step_holds(ch, i, z) by {}
        }
        if no_zero_divisors() {
            assert forall|z: Seq<int>|
                admissible(z, c6.num_vars()) && #[trigger] all_hold(c6.added(c0), z) && is_bit(
                    z[base.is_infinity.var as int],
                ) && is_bit(z[bit0.var as int]) && (z[base.is_infinity.var as int] == 1
                    || z[acc.y.var as int] != 0) implies point_at(z, r) == middle_value(
                point_at(z, *base),
                affine_at(z, *acc),
                z[bit0.var as int],
                ca,
            ) && is_bit(z[r.is_infinity.var as int]) by {
                lemma_chain(ch, z);
                assert(step_holds(ch, 0, z) && step_holds(ch, 1, z) && step_holds(ch, 2, z)
                    && step_holds(ch, 3, z) && step_holds(ch, 4, z) && step_holds(ch, 5, z));
                assert(point_at(z, acc_pt) == (affine_at(z, *acc).0, affine_at(z, *acc).1, z[base.is_infinity.var as int]));
                assert(point_at(z, neg) == negate_value(point_at(z, *base)));
                assert(point_at(z, acc_minus_initial) == add_value(point_at(z, acc_pt), point_at(z, neg), ca));
                assert(point_at(z, res) == select_point(z[bit0.var as int], point_at(z, acc_pt), point_at(z, acc_minus_initial)));
                assert(point_at(z, default) == infinity());
                lemma_middle_value_flag(point_at(z, *base), affine_at(z, *acc), z[bit0.var as int], ca);
            }
        }
    }
    r
}


/// One step of the complete phase: adds the doubled point `p` to the
/// accumulator when `bit` is set, and doubles `p`.
#[verifier::spinoff_prover]
#[verifier::rlimit(60)]
fn complete_step(cs: &mut Circuit, acc: &AllocatedPoint, p: &AllocatedPoint, bit: Num, curve_a: Fe) -> (r: (
    AllocatedPoint,
    AllocatedPoint,
))
    requires
        old(cs).wf(),
        old(cs).room(49),
        point_in(*old(cs), *acc),
        point_in(*old(cs), *p),
        old(cs).has(bit),
        bit_valued(bit),
        bit_valued(acc.is_infinity),
        bit_valued(p.is_infinity),
        curve_a.wf(),
        point_known(*acc) && point_known(*p) && bit.value is Some && (val(acc.is_infinity) == 1 || val(acc.y)
            != 0) && (val(p.is_infinity) == 1 || val(p.y) != 0) || acc.is_infinity.value is None
            && p.is_infinity.value is None,
    ensures
        grown(*final(cs), *old(cs), 49),
        point_in(*final(cs), r.0),
        point_in(*final(cs), r.1),
        bit_valued(r.0.is_infinity),
        bit_valued(r.1.is_infinity),
        acc.is_infinity.value is None ==> r.0.is_infinity.value is None && r.1.is_infinity.value is None,
        point_known(*acc) ==> final(cs).known_since(*old(cs)) && point_known(r.0) && point_known(r.1)
            && point_val(r.0) == select_point(
            val(bit),
            add_value(point_val(*acc), point_val(*p), curve_a@ as int),
            point_val(*acc),
        ) && point_val(r.1) == double_value(point_val(*p), curve_a@ as int),
        forall|z: Seq<int>|
            admissible(z, final(cs).num_vars()) && carries_point(z, *acc) && carries_point(z, *p) && carries(
                z,
                bit,
            ) && #[trigger] final(cs).agrees_since(*old(cs), z) ==> all_hold(final(cs).added(*old(cs)), z)
                && carries_point(z, r.0) && carries_point(z, r.1),
        no_zero_divisors() ==> forall|z: Seq<int>|
            admissible(z, final(cs).num_vars()) && #[trigger] all_hold(final(cs).added(*old(cs)), z)
                && is_bit(z[acc.is_infinity.var as int]) && is_bit(z[p.is_infinity.var as int]) && is_bit(
                z[bit.var as int],
            ) && (z[acc.is_infinity.var as int] == 1 || z[acc.y.var as int] != 0) && (
            z[p.is_infinity.var as int] == 1 || z[p.y.var as int] != 0) ==> point_at(z, r.0) == select_point(
                z[bit.var as int],
                add_value(point_at(z, *acc), point_at(z, *p), curve_a@ as int),
                point_at(z, *acc),
            ) && point_at(z, r.1) == double_value(point_at(z, *p), curve_a@ as int) && is_bit(
                z[r.0.is_infinity.var as int],
            ) && is_bit(z[r.1.is_infinity.var as int]),
{
    let ghost c0 = *cs;
    let ghost ca = curve_a@ as int;
    let temp = acc.add(cs, p, curve_a);
    let ghost c1 = *cs;
    proof {
        lemma_point_extends(c0, c1, *acc);
        lemma_point_extends(c0, c1, *p);
        lemma_has_extends(c0, c1, bit);
    }
    let acc2 = AllocatedPoint::conditionally_select(cs, &temp, acc, bit);
    let ghost c2 = *cs;
    proof {
        lemma_point_extends(c1, c2, *p);
    }
    let p2 = p.double(cs, curve_a);
    let ghost c3 = *cs;
    proof {
        lemma_point_extends(c2, c3, acc2);
        let ch = seq![c0, c1, c2, c3];
        assert(step_extends(ch, 0) && step_extends(ch, 1) && step_extends(ch, 2));
        assert(is_chain(ch));
        lemma_chain(ch, Seq::empty());
        if point_known(*acc) {
            assert(step_known(ch, 0) && step_known(ch, 1) && step_known(ch, 2));
            assert forall|i: int| 0 <= i < ch.len() - 1 implies #[trigger] step_known(ch, i) by {}
        }
        assert forall|z: Seq<int>|
            admissible(z, c3.num_vars()) && carries_point(z, *acc) && carries_point(z, *p) && carries(z, bit)
                && #[trigger] c3.agrees_since(c0, z) implies all_hold(c3.added(c0), z) && carries_point(z, acc2)
            && carries_point(z, p2) by {
            lemma_chain(ch, z);
            assert(step_agrees(ch, 0, z) && step_agrees(ch, 1, z) && step_agrees(ch, 2, z));
            lemma_carried(c0, c1, temp.x, z);
            lemma_carried(c0, c1, temp.y, z);
            lemma_carried(c0, c1, temp.is_infinity, z);
            lemma_carried(c1, c2, acc2.x, z);
            lemma_carried(c1, c2, acc2.y, z);
            lemma_carried(c1, c2, acc2.is_infinity, z);
            lemma_carried(c2, c3, p2.x, z);
            lemma_carried(c2, c3, p2.y, z);
            assert forall|i: int| 0 <= i < ch.len() - 1 implies #[trigger] step_holds(ch, i, z) by {}
        }
        if no_zero_divisors() {
            assert forall|z: Seq<int>|
                admissible(z, c3.num_vars()) && #[trigger] all_hold(c3.added(c0), z) && is_bit(
                    z[acc.is_infinity.var as int],
                ) && is_bit(z[p.is_infinity.var as int]) && is_bit(z[bit.var as int]) && (
                z[acc.is_infinity.var as int] == 1 || z[acc.y.var as int] != 0) && (z[p.is_infinity.var as int]
                    == 1 || z[p.y.var as int] != 0) implies point_at(z, acc2) == select_point(
                z[bit.var as int],
                add_value(point_at(z, *acc), point_at(z, *p), ca),
                point_at(z, *acc),
            ) && point_at(z, p2) == double_value(point_at(z, *p), ca) && is_bit(z[acc2.is_infinity.var as int])
                && is_bit(z[p2.is_infinity.var as int]) by {
                lemma_chain(ch, z);
                assert(step_holds(ch, 0, z) && step_holds(ch, 1, z) && step_holds(ch, 2, z));
                lemma_add_value_flag(point_at(z, *acc), point_at(z, *p), ca);
            }
        }
    }
    (acc2, p2)
}


/// The number of variables scalar multiplication by `n >= 1` bits allocates.
pub open spec fn scalar_mul_vars(n: nat) -> nat {
    let s = incomplete_len(n);
    (9 * s + 41 + 49 * (n - s)) as nat
}

/// The complete-phase conditions hold of every shorter run.
pub proof fn lemma_sm_complete_ok_prefix(
    start: ((int, int, int), (int, int, int)),
    bits: Seq<int>,
    from: nat,
    j: nat,
    k: nat,
    a: int,
)
    requires
        sm_complete_ok(start, bits, from, k, a),
        j <= k,
    ensures
        sm_complete_ok(start, bits, from, j, a),
    decreases k - j,
{
    if j < k {
        lemma_sm_complete_ok_prefix(start, bits, from, j, (k - 1) as nat, a);
    }
}

impl AllocatedPoint {
    /// `self` times the scalar whose little-endian bits are `scalar_bits`:
    /// double-and-add with the incomplete laws over the low bits (all but
    /// two of the field's bit length, at most), taking the first bit as set
    /// and correcting for it afterwards, then with the complete laws over the
    /// remaining bits. The point at infinity gives a point with its flag
    /// set, and on a curve with `a = 0` the constraints for the point at
    /// infinity `(0, 0)` can always be met.
    ///
    /// Values are computed when the point and all the bits are known; when
    /// the point's flag is unknown (laying out the constraints alone), the
    /// result's flag is unknown too, whatever the bits. A known point with
    /// unknown bits is not accepted: a constraint system either evaluates
    /// every value or none, and with some bits unknown the values would stop
    /// at the first of them.
    #[verifier::spinoff_prover]
    #[verifier::rlimit(60)]
    pub fn scalar_mul(&self, cs: &mut Circuit, scalar_bits: &[Num], curve_a: Fe) -> (r: AllocatedPoint)
        requires
            old(cs).wf(),
            1 <= scalar_bits@.len(),
            old(cs).room(scalar_mul_vars(scalar_bits@.len())),
            point_in(*old(cs), *self),
            bits_in(*old(cs), scalar_bits@),
            bit_valued(self.is_infinity),
            curve_a.wf(),
            point_known(*self) && bits_known(scalar_bits@) && scalar_mul_defined(
                point_val(*self),
                bits_val(scalar_bits@),
                curve_a@ as int,
            ) || self.is_infinity.value is None,
        ensures
            grown(*final(cs), *old(cs), scalar_mul_vars(scalar_bits@.len())),
            point_in(*final(cs), r),
            bit_valued(r.is_infinity),
            self.is_infinity.value is None ==> r.is_infinity.value is None,
            point_known(*self) ==> point_known(r) && final(cs).known_since(*old(cs)) && point_val(r)
                == scalar_mul_value(point_val(*self), bits_val(scalar_bits@), curve_a@ as int),
            forall|z: Seq<int>|
                admissible(z, final(cs).num_vars()) && carries_point(z, *self) && carries_bits(z, scalar_bits@)
                    && sm_incomplete_complete(
                    (val(self.x), val(self.y)),
                    bits_val(scalar_bits@),
                    incomplete_len(scalar_bits@.len()),
                    curve_a@ as int,
                ) && #[trigger] final(cs).agrees_since(*old(cs), z) ==> all_hold(
                    final(cs).added(*old(cs)),
                    z,
                ),
            no_zero_divisors() && curve_a@ == 0 && point_val(*self) == infinity() ==> forall|z: Seq<int>|
                admissible(z, final(cs).num_vars()) && carries_point(z, *self) && carries_bits(z, scalar_bits@)
                    && #[trigger] final(cs).agrees_since(*old(cs), z) ==> all_hold(
                    final(cs).added(*old(cs)),
                    z,
                ),
            no_zero_divisors() ==> forall|z: Seq<int>|
                admissible(z, final(cs).num_vars()) && #[trigger] all_hold(final(cs).added(*old(cs)), z)
                    && is_bit(z[self.is_infinity.var as int]) && bits_boolean_at(z, scalar_bits@)
                    && scalar_mul_regular(point_at(z, *self), bits_at(z, scalar_bits@), curve_a@ as int)
                    ==> point_at(z, r) == scalar_mul_value(
                    point_at(z, *self),
                    bits_at(z, scalar_bits@),
                    curve_a@ as int,
                ),
    {
        let ghost c0 = *cs;
        let ghost ca = curve_a@ as int;
        let ghost pv = point_val(*self);
        let ghost bv = bits_val(scalar_bits@);
        let len = scalar_bits.len();
        let limit = (fe_num_bits() - 2) as usize;
        let split: usize = if len < limit {
            len
        } else {
            limit
        };
        assert(split == incomplete_len(len as nat));
        let (acc0, p0) = scalar_mul_incomplete(cs, self, scalar_bits, split, curve_a);
        let ghost c1 = *cs;
        let bit0 = scalar_bits[0];
        proof {
            assert(scalar_bits@[0] == bit0);
            assert(c1.has(bit0) && bit_valued(bit0));
            if point_known(*self) {
                assert(bv[0] == val(bit0));
            }
        }
        let acc_m = scalar_mul_middle(cs, self, &acc0, bit0, curve_a);
        let ghost c2 = *cs;
        proof {
            lemma_point_extends(c1, c2, *self);
            lemma_bits_extends(c1, c2, scalar_bits@);
            lemma_has_extends(c1, c2, p0.x);
            lemma_has_extends(c1, c2, p0.y);
        }
        let mut acc = acc_m;
        let mut p = p0.to_allocated_point(self.is_infinity);
        proof {
            let ch = seq![c0, c1, c2];
            assert(step_extends(ch, 0) && step_extends(ch, 1));
            assert(is_chain(ch));
            lemma_chain(ch, Seq::empty());
            if point_known(*self) {
                assert(step_known(ch, 0) && step_known(ch, 1));
                assert forall|j: int| 0 <= j < ch.len() - 1 implies #[trigger] step_known(ch, j) by {}
                assert((point_val(acc), point_val(p)) == sm_middle(pv, bv, split as nat, ca));
            }
            assert forall|z: Seq<int>|
                admissible(z, c2.num_vars()) && carries_point(z, *self) && carries_bits(z, scalar_bits@)
                    && sm_incomplete_complete((pv.0, pv.1), bv, split as nat, ca) && #[trigger] c2.agrees_since(c0, z) implies all_hold(
                c2.added(c0),
                z,
            ) && carries_point(z, acc) && carries_point(z, p) by {
                lemma_chain(ch, z);
                assert(step_agrees(ch, 0, z) && step_agrees(ch, 1, z));
                assert(carries(z, scalar_bits@[0]));
                assert forall|j: int| 0 <= j < ch.len() - 1 implies #[trigger] step_holds(ch, j, z) by {}
            }
            if no_zero_divisors() {
                assert forall|z: Seq<int>|
                    admissible(z, c2.num_vars()) && #[trigger] all_hold(c2.added(c0), z) && is_bit(
                        z[self.is_infinity.var as int],
                    ) && bits_boolean_at(z, scalar_bits@) && scalar_mul_regular(
                        point_at(z, *self),
                        bits_at(z, scalar_bits@),
                        ca,
                    ) implies (point_at(z, acc), point_at(z, p)) == sm_middle(
                    point_at(z, *self),
                    bits_at(z, scalar_bits@),
                    split as nat,
                    ca,
                ) && is_bit(z[acc.is_infinity.var as int]) && is_bit(z[p.is_infinity.var as int]) by {
                    lemma_chain(ch, z);
                    assert(step_holds(ch, 0, z) && step_holds(ch, 1, z));
                    assert(is_bit(z[scalar_bits@[0].var as int]));
                    assert(bits_at(z, scalar_bits@)[0] == z[bit0.var as int]);
                }
            }
        }
        let mut i: usize = split;
        while i < len
            invariant
                1 <= split <= i <= len,
                len == scalar_bits@.len(),
                split == incomplete_len(len as nat),
                cs.wf(),
                cs.extends(c0),
                cs.aux@.len() == c0.aux@.len() + 9 * split + 41 + 49 * (i - split),
                c0.room(scalar_mul_vars(len as nat)),
                ca == curve_a@ as int,
                curve_a.wf(),
                pv == point_val(*self),
                bv == bits_val(scalar_bits@),
                point_in(*cs, *self),
                bits_in(*cs, scalar_bits@),
                point_in(*cs, acc),
                point_in(*cs, p),
                bit_valued(acc.is_infinity),
                bit_valued(p.is_infinity),
                point_known(*self) && bits_known(scalar_bits@) && scalar_mul_defined(pv, bv, ca)
                    || self.is_infinity.value is None,
                point_known(*self) ==> cs.known_since(c0) && point_known(acc) && point_known(p) && (
                point_val(acc),
                point_val(p),
                ) == sm_complete(sm_middle(pv, bv, split as nat, ca), bv, split as nat, (i - split) as nat, ca),
                self.is_infinity.value is None ==> acc.is_infinity.value is None && p.is_infinity.value is None,
                forall|z: Seq<int>|
                    admissible(z, cs.num_vars()) && carries_point(z, *self) && carries_bits(z, scalar_bits@)
                        && sm_incomplete_complete((pv.0, pv.1), bv, split as nat, ca) && #[trigger] cs.agrees_since(c0, z) ==> all_hold(
                        cs.added(c0),
                        z,
                    ) && carries_point(z, acc) && carries_point(z, p),
                no_zero_divisors() ==> forall|z: Seq<int>|
                    admissible(z, cs.num_vars()) && #[trigger] all_hold(cs.added(c0), z) && is_bit(
                        z[self.is_infinity.var as int],
                    ) && bits_boolean_at(z, scalar_bits@) && scalar_mul_regular(
                        point_at(z, *self),
                        bits_at(z, scalar_bits@),
                        ca,
                    ) ==> (point_at(z, acc), point_at(z, p)) == sm_complete(
                        sm_middle(point_at(z, *self), bits_at(z, scalar_bits@), split as nat, ca),
                        bits_at(z, scalar_bits@),
                        split as nat,
                        (i - split) as nat,
                        ca,
                    ) && is_bit(z[acc.is_infinity.var as int]) && is_bit(z[p.is_infinity.var as int]),
            decreases len - i,
        {
            let ghost ci = *cs;
            let ghost k = (i - split) as nat;
            let bit = scalar_bits[i];
            proof {
                assert(scalar_bits@[i as int] == bit);
                assert(cs.has(bit) && bit_valued(bit));
                if point_known(*self) {
                    assert(bit.value is Some);
                    lemma_sm_complete_ok_prefix(
                        sm_middle(pv, bv, split as nat, ca),
                        bv,
                        split as nat,
                        k + 1,
                        (len - split) as nat,
                        ca,
                    );
                }
            }
            let (acc2, p2) = complete_step(cs, &acc, &p, bit, curve_a);
            proof {
                let t = *cs;
                lemma_point_extends(ci, t, *self);
                lemma_bits_extends(ci, t, scalar_bits@);
                let ch = seq![c0, ci, t];
                assert(step_extends(ch, 0) && step_extends(ch, 1));
                assert(is_chain(ch));
                lemma_chain(ch, Seq::empty());
                if point_known(*self) {
                    assert(bv[i as int] == val(bit));
                    assert(step_known(ch, 0) && step_known(ch, 1));
                    assert forall|j: int| 0 <= j < ch.len() - 1 implies #[trigger] step_known(ch, j) by {}
                }
                assert forall|z: Seq<int>|
                    admissible(z, t.num_vars()) && carries_point(z, *self) && carries_bits(z, scalar_bits@)
                        && sm_incomplete_complete((pv.0, pv.1), bv, split as nat, ca) && #[trigger] t.agrees_since(c0, z) implies all_hold(
                    t.added(c0),
                    z,
                ) && carries_point(z, acc2) && carries_point(z, p2) by {
                    lemma_chain(ch, z);
                    assert(step_agrees(ch, 0, z) && step_agrees(ch, 1, z));
                    assert(carries(z, scalar_bits@[i as int]));
                    assert(step_holds(ch, 0, z));
                    assert(step_holds(ch, 1, z));
                    assert forall|j: int| 0 <= j < ch.len() - 1 implies #[trigger] step_holds(ch, j, z) by {}
                }
                if no_zero_divisors() {
                    assert forall|z: Seq<int>|
                        admissible(z, t.num_vars()) && #[trigger] all_hold(t.added(c0), z) && is_bit(
                            z[self.is_infinity.var as int],
                        ) && bits_boolean_at(z, scalar_bits@) && scalar_mul_regular(
                            point_at(z, *self),
                            bits_at(z, scalar_bits@),
                            ca,
                        ) implies (point_at(z, acc2), point_at(z, p2)) == sm_complete(
                        sm_middle(point_at(z, *self), bits_at(z, scalar_bits@), split as nat, ca),
                        bits_at(z, scalar_bits@),
                        split as nat,
                        k + 1,
                        ca,
                    ) && is_bit(z[acc2.is_infinity.var as int]) && is_bit(z[p2.is_infinity.var as int]) by {
                        let bz = bits_at(z, scalar_bits@);
                        let start = sm_middle(point_at(z, *self), bz, split as nat, ca);
                        lemma_chain(ch, z);
                        assert(step_holds(ch, 0, z) && step_holds(ch, 1, z));
                        assert(is_bit(z[scalar_bits@[i as int].var as int]));
                        assert(bz[i as int] == z[bit.var as int]);
                        lemma_sm_complete_ok_prefix(start, bz, split as nat, k + 1, (len - split) as nat, ca);
                    }
                }
            }
            acc = acc2;
            p = p2;
            i = i + 1;
        }
        proof {
            if no_zero_divisors() && curve_a@ == 0 && point_val(*self) == infinity() {
                crate::gadgets::identity::lemma_identity_incomplete(bv, split as nat);
            }
        }
        acc
    }
}

} // verus!
