//! Elements of the Pallas scalar field `Fq`, held as their canonical
//! little-endian byte encoding, and the field operations the library uses.
//!
//! The arithmetic itself is done by `pasta_curves::Fq` through the `ff`
//! traits; each wrapper below states what that arithmetic computes on the
//! integer values of its arguments.
use ff::{Field, PrimeField};
use pasta_curves::Fq;
use vstd::arithmetic::div_mod::*;
use vstd::arithmetic::mul::*;
use vstd::arithmetic::power::*;
use vstd::arithmetic::power2::*;
use vstd::prelude::*;

verus! {

/// The modulus `q` of the Pallas scalar field.
pub open spec fn modulus() -> nat {
    0x40000000000000000000000000000000224698fc0994a8dd8c46eb2100000001nat
}

/// The canonical representative in `[0, q)` of an integer.
pub open spec fn fmod(x: int) -> nat {
    (x % (modulus() as int)) as nat
}

/// The value of a little-endian byte string.
pub open spec fn bytes_value(b: Seq<u8>) -> nat
    decreases b.len(),
{
    if b.len() == 0 {
        0
    } else {
        b[0] as nat + 256 * bytes_value(b.drop_first())
    }
}

/// The 2-adicity `S` of the field: `q - 1 = t * 2^S` with `t` odd.
pub open spec fn two_adicity() -> nat {
    32
}

/// The value of the field's fixed primitive `2^S`-th root of unity.
pub open spec fn root_of_unity_value() -> nat {
    0x2de6a9b8746d3f589e5c4dfd492ae26e9bb97ea3c106f049a70e2c1102b6d05fnat
}

/// A field element, stored as its little-endian 32-byte encoding.
#[derive(Clone, Copy, Debug, PartialEq, Eq)]
pub struct Fe {
    bytes: [u8; 32],
}

impl View for Fe {
    type V = nat;

    closed spec fn view(&self) -> nat {
        bytes_value(self.bytes@)
    }
}

impl Fe {
    /// The encoding is canonical: the value is below the modulus.
    pub open spec fn wf(&self) -> bool {
        self@ < modulus()
    }
}

impl Fe {
    /// The element with the given little-endian encoding, or `None` when the
    /// encoding is not canonical (its value is not below the modulus).
    pub fn from_bytes(bytes: [u8; 32]) -> (r: Option<Fe>)
        ensures
            r is Some <==> bytes_value(bytes@) < modulus(),
            r matches Some(f) ==> f@ == bytes_value(bytes@) && f.wf(),
    {
        fe_from_repr(bytes)
    }

    /// The little-endian encoding of the element.
    pub fn to_bytes(&self) -> (r: [u8; 32])
        ensures
            bytes_value(r@) == self@,
    {
        self.bytes
    }

    /// The element whose value is `n`.
    pub fn from_u64(n: u64) -> (r: Fe)
        ensures
            r@ == n,
            r.wf(),
    {
        fe_from_u64(n)
    }

    /// The additive identity.
    pub fn zero() -> (r: Fe)
        ensures
            r@ == 0,
            r.wf(),
    {
        fe_zero()
    }

    /// The multiplicative identity.
    pub fn one() -> (r: Fe)
        ensures
            r@ == 1,
            r.wf(),
    {
        fe_one()
    }
}

/// Every element of a sequence of field elements is canonical.
pub open spec fn all_wf(s: Seq<Fe>) -> bool {
    forall|i: int| 0 <= i < s.len() ==> (#[trigger] s[i]).wf()
}

/// The integer values of a sequence of field elements.
pub open spec fn int_values(s: Seq<Fe>) -> Seq<int> {
    Seq::new(s.len(), |i: int| s[i]@ as int)
}

/// `Fq::ZERO`, the additive identity.
#[verifier::external_body]
pub(crate) fn fe_zero() -> (r: Fe)
    ensures
        r@ == 0,
{
    Fe { bytes: Fq::ZERO.to_repr() }
}

/// `Fq::ONE`, the multiplicative identity.
#[verifier::external_body]
pub(crate) fn fe_one() -> (r: Fe)
    ensures
        r@ == 1,
{
    Fe { bytes: Fq::ONE.to_repr() }
}

/// `Fq::from(u64)`: the element whose value is `n` (every `u64` is below `q`).
#[verifier::external_body]
pub(crate) fn fe_from_u64(n: u64) -> (r: Fe)
    ensures
        r@ == n,
{
    Fe { bytes: Fq::from(n).to_repr() }
}

/// `Fq::from_repr`: accepts a little-endian encoding exactly when its value
/// is below the modulus, and then yields the element of that value.
#[verifier::external_body]
pub(crate) fn fe_from_repr(bytes: [u8; 32]) -> (r: Option<Fe>)
    ensures
        r is Some <==> bytes_value(bytes@) < modulus(),
        r matches Some(f) ==> f@ == bytes_value(bytes@),
{
    Option::from(Fq::from_repr(bytes)).map(|x: Fq| Fe { bytes: x.to_repr() })
}

/// `Fq` addition: the sum modulo `q`.
#[verifier::external_body]
pub(crate) fn fe_add(a: &Fe, b: &Fe) -> (r: Fe)
    requires
        a.wf(),
        b.wf(),
    ensures
        r@ == fmod(a@ + b@ as int),
{
    let x = Fq::from_repr(a.bytes).unwrap();
    let y = Fq::from_repr(b.bytes).unwrap();
    Fe { bytes: (x + y).to_repr() }
}

/// `Fq` subtraction: the difference modulo `q`.
#[verifier::external_body]
pub(crate) fn fe_sub(a: &Fe, b: &Fe) -> (r: Fe)
    requires
        a.wf(),
        b.wf(),
    ensures
        r@ == fmod(a@ - b@),
{
    let x = Fq::from_repr(a.bytes).unwrap();
    let y = Fq::from_repr(b.bytes).unwrap();
    Fe { bytes: (x - y).to_repr() }
}

/// `Fq` negation: the additive inverse modulo `q`.
#[verifier::external_body]
pub(crate) fn fe_neg(a: &Fe) -> (r: Fe)
    requires
        a.wf(),
    ensures
        r@ == fmod(0 - a@),
{
    let x = Fq::from_repr(a.bytes).unwrap();
    Fe { bytes: (-x).to_repr() }
}

/// `Fq` multiplication: the product modulo `q`.
#[verifier::external_body]
pub(crate) fn fe_mul(a: &Fe, b: &Fe) -> (r: Fe)
    requires
        a.wf(),
        b.wf(),
    ensures
        r@ == fmod(a@ as int * b@),
{
    let x = Fq::from_repr(a.bytes).unwrap();
    let y = Fq::from_repr(b.bytes).unwrap();
    Fe { bytes: (x * y).to_repr() }
}

/// `Field::double`: twice the argument modulo `q`.
#[verifier::external_body]
pub(crate) fn fe_double(a: &Fe) -> (r: Fe)
    requires
        a.wf(),
    ensures
        r@ == fmod(2 * a@ as int),
{
    let x = Fq::from_repr(a.bytes).unwrap();
    Fe { bytes: Field::double(&x).to_repr() }
}

/// `PartialEq` of `Fq`: two elements compare equal exactly when their values do.
#[verifier::external_body]
pub(crate) fn fe_eq(a: &Fe, b: &Fe) -> (r: bool)
    requires
        a.wf(),
        b.wf(),
    ensures
        r == (a@ == b@),
{
    let x = Fq::from_repr(a.bytes).unwrap();
    let y = Fq::from_repr(b.bytes).unwrap();
    x == y
}

/// `Field::invert`: fails exactly on zero; otherwise the result times the
/// argument is one modulo `q`.
#[verifier::external_body]
pub(crate) fn fe_invert(a: &Fe) -> (r: Option<Fe>)
    requires
        a.wf(),
    ensures
        r is Some <==> a@ != 0,
        r matches Some(x) ==> x.wf() && fmod(a@ as int * x@) == 1,
{
    let x = Fq::from_repr(a.bytes).unwrap();
    Option::from(x.invert()).map(|y: Fq| Fe { bytes: y.to_repr() })
}

/// `Field::pow_vartime` with a one-limb exponent: `a^e` modulo `q`.
#[verifier::external_body]
pub(crate) fn fe_pow(a: &Fe, e: u64) -> (r: Fe)
    requires
        a.wf(),
    ensures
        r@ == fmod(pow(a@ as int, e as nat)),
{
    let x = Fq::from_repr(a.bytes).unwrap();
    Fe { bytes: x.pow_vartime([e]).to_repr() }
}

/// `PrimeField::ROOT_OF_UNITY` of `Fq`, whose value the crate's source gives.
#[verifier::external_body]
pub(crate) fn fe_root_of_unity() -> (r: Fe)
    ensures
        r@ == root_of_unity_value(),
{
    Fe { bytes: Fq::ROOT_OF_UNITY.to_repr() }
}

/// `PrimeField::NUM_BITS` of `Fq`: the bit length of the modulus.
#[verifier::external_body]
pub(crate) fn fe_num_bits() -> (r: u32)
    ensures
        r == 255,
{
    Fq::NUM_BITS
}

/// `PrimeField::S` of `Fq`.
#[verifier::external_body]
pub(crate) fn fe_two_adicity() -> (r: u32)
    ensures
        r == two_adicity(),
{
    Fq::S
}

/// The 2-adicity of the field is 32.
pub proof fn lemma_two_adicity_value()
    ensures
        two_adicity() == 32,
{
}

/// Repeated squaring modulo `q`: `x^(2^i) mod q`.
pub open spec fn square_chain(x: nat, i: nat) -> nat
    decreases i,
{
    if i == 0 {
        x % modulus()
    } else {
        (square_chain(x, (i - 1) as nat) * square_chain(x, (i - 1) as nat)) % modulus()
    }
}

/// `i` repeated squarings of `x` give `x^(2^i)` modulo `q`.
pub proof fn lemma_square_chain(x: nat, i: nat)
    ensures
        square_chain(x, i) == fmod(pow(x as int, pow2(i))),
    decreases i,
{
    let m = modulus() as int;
    if i == 0 {
        lemma_pow1(x as int);
        lemma2_to64();
    } else {
        let h = pow2((i - 1) as nat);
        lemma_square_chain(x, (i - 1) as nat);
        lemma_pow2_unfold(i);
        lemma_pow_multiplies(x as int, h, 2);
        lemma_square_is_pow2(pow(x as int, h));
        assert(pow2(i) == h * 2) by {
            lemma_mul_is_commutative(2, h as int);
        }
        lemma_pow_positive_or_zero(x, h);
        lemma_mul_mod_noop(pow(x as int, h), pow(x as int, h), m);
    }
}

proof fn lemma_pow_positive_or_zero(x: nat, e: nat)
    ensures
        pow(x as int, e) >= 0,
{
    if x > 0 {
        lemma_pow_positive(x as int, e);
    } else {
        lemma0_pow_or_one(e);
    }
}

proof fn lemma0_pow_or_one(e: nat)
    ensures
        pow(0, e) >= 0,
{
    if e == 0 {
        lemma_pow0(0);
    } else {
        lemma0_pow(e);
    }
}

/// The fixed root of unity has multiplicative order exactly `2^S`: its
/// `2^(S-1)`-th power is `-1`.
pub proof fn lemma_root_of_unity_half_order()
    ensures
        fmod(pow(root_of_unity_value() as int, pow2((two_adicity() - 1) as nat))) == modulus() - 1,
{
        assert(square_chain(root_of_unity_value(), 0) == 0x2de6a9b8746d3f589e5c4dfd492ae26e9bb97ea3c106f049a70e2c1102b6d05fnat);
        assert((0x2de6a9b8746d3f589e5c4dfd492ae26e9bb97ea3c106f049a70e2c1102b6d05fnat * 0x2de6a9b8746d3f589e5c4dfd492ae26e9bb97ea3c106f049a70e2c1102b6d05fnat) % modulus() == 0x2454cd742eed7ef67537dcfa8861545dad889b9cbf75b98fa2e3cb0189b96940nat);
        assert(square_chain(root_of_unity_value(), 1) == 0x2454cd742eed7ef67537dcfa8861545dad889b9cbf75b98fa2e3cb0189b96940nat);
        assert((0x2454cd742eed7ef67537dcfa8861545dad889b9cbf75b98fa2e3cb0189b96940nat * 0x2454cd742eed7ef67537dcfa8861545dad889b9cbf75b98fa2e3cb0189b96940nat) % modulus() == 0x29839b52d5dcf6b3b46faf306087325a425f8ef6d5daf4fc666cd37450354bfdnat);
        assert(square_chain(root_of_unity_value(), 2) == 0x29839b52d5dcf6b3b46faf306087325a425f8ef6d5daf4fc666cd37450354bfdnat);
        assert((0x29839b52d5dcf6b3b46faf306087325a425f8ef6d5daf4fc666cd37450354bfdnat * 0x29839b52d5dcf6b3b46faf306087325a425f8ef6d5daf4fc666cd37450354bfdnat) % modulus() == 0x391c568ae730f9186fab3b892a14f4c2c54fa59855d303e08f56c7e2f7baea1fnat);
        assert(square_chain(root_of_unity_value(), 3) == 0x391c568ae730f9186fab3b892a14f4c2c54fa59855d303e08f56c7e2f7baea1fnat);
        assert((0x391c568ae730f9186fab3b892a14f4c2c54fa59855d303e08f56c7e2f7baea1fnat * 0x391c568ae730f9186fab3b892a14f4c2c54fa59855d303e08f56c7e2f7baea1fnat) % modulus() == 0x3259338dfd6b479b91721c69a97084189cf843b3fae516cae8316602c44f2989nat);
        assert(square_chain(root_of_unity_value(), 4) == 0x3259338dfd6b479b91721c69a97084189cf843b3fae516cae8316602c44f2989nat);
        assert((0x3259338dfd6b479b91721c69a97084189cf843b3fae516cae8316602c44f2989nat * 0x3259338dfd6b479b91721c69a97084189cf843b3fae516cae8316602c44f2989nat) % modulus() == 0x243373110039bf0838d3712a5c7d21d6ae7fcf04a0373d1b8232185f185ecc4enat);
        assert(square_chain(root_of_unity_value(), 5) == 0x243373110039bf0838d3712a5c7d21d6ae7fcf04a0373d1b8232185f185ecc4enat);
        assert((0x243373110039bf0838d3712a5c7d21d6ae7fcf04a0373d1b8232185f185ecc4enat * 0x243373110039bf0838d3712a5c7d21d6ae7fcf04a0373d1b8232185f185ecc4enat) % modulus() == 0xf769a6248dc291bfebb3fe0a98b24be3b1462bcca508eefde7fff0de2fef236nat);
        assert(square_chain(root_of_unity_value(), 6) == 0xf769a6248dc291bfebb3fe0a98b24be3b1462bcca508eefde7fff0de2fef236nat);
        assert((0xf769a6248dc291bfebb3fe0a98b24be3b1462bcca508eefde7fff0de2fef236nat * 0xf769a6248dc291bfebb3fe0a98b24be3b1462bcca508eefde7fff0de2fef236nat) % modulus() == 0x2d68745baaeb95e8f869d3029268c3aed8040159ef7b5d4413d61370c2c53be5nat);
        assert(square_chain(root_of_unity_value(), 7) == 0x2d68745baaeb95e8f869d3029268c3aed8040159ef7b5d4413d61370c2c53be5nat);
        assert((0x2d68745baaeb95e8f869d3029268c3aed8040159ef7b5d4413d61370c2c53be5nat * 0x2d68745baaeb95e8f869d3029268c3aed8040159ef7b5d4413d61370c2c53be5nat) % modulus() == 0x144e6eba6d684acf84e02261743f788b2ae72b37bffdb012102c8c2f7fa53afenat);
        assert(square_chain(root_of_unity_value(), 8) == 0x144e6eba6d684acf84e02261743f788b2ae72b37bffdb012102c8c2f7fa53afenat);
        assert((0x144e6eba6d684acf84e02261743f788b2ae72b37bffdb012102c8c2f7fa53afenat * 0x144e6eba6d684acf84e02261743f788b2ae72b37bffdb012102c8c2f7fa53afenat) % modulus() == 0x3d98188dbd8b6cf4a8efd19190dd6201e860361e5f94fcfd89d1db8020a4e9dnat);
        assert(square_chain(root_of_unity_value(), 9) == 0x3d98188dbd8b6cf4a8efd19190dd6201e860361e5f94fcfd89d1db8020a4e9dnat);
        assert((0x3d98188dbd8b6cf4a8efd19190dd6201e860361e5f94fcfd89d1db8020a4e9dnat * 0x3d98188dbd8b6cf4a8efd19190dd6201e860361e5f94fcfd89d1db8020a4e9dnat) % modulus() == 0x347db234f82ecdd103d137276806465f588fade0760e9fd69a9dd83047ee3450nat);
        assert(square_chain(root_of_unity_value(), 10) == 0x347db234f82ecdd103d137276806465f588fade0760e9fd69a9dd83047ee3450nat);
        assert((0x347db234f82ecdd103d137276806465f588fade0760e9fd69a9dd83047ee3450nat * 0x347db234f82ecdd103d137276806465f588fade0760e9fd69a9dd83047ee3450nat) % modulus() == 0x4a1bc274fdb738d084628c5e2a550aeb86bd32a2a7411da94e2302d3ecb4413nat);
        assert(square_chain(root_of_unity_value(), 11) == 0x4a1bc274fdb738d084628c5e2a550aeb86bd32a2a7411da94e2302d3ecb4413nat);
        assert((0x4a1bc274fdb738d084628c5e2a550aeb86bd32a2a7411da94e2302d3ecb4413nat * 0x4a1bc274fdb738d084628c5e2a550aeb86bd32a2a7411da94e2302d3ecb4413nat) % modulus() == 0x19e9df871f6c4b14a3615751d1f43923b5f9ce8d08f92d2629c2afb67fb34869nat);
        assert(square_chain(root_of_unity_value(), 12) == 0x19e9df871f6c4b14a3615751d1f43923b5f9ce8d08f92d2629c2afb67fb34869nat);
        assert((0x19e9df871f6c4b14a3615751d1f43923b5f9ce8d08f92d2629c2afb67fb34869nat * 0x19e9df871f6c4b14a3615751d1f43923b5f9ce8d08f92d2629c2afb67fb34869nat) % modulus() == 0x36c0b9b7293f1cd86391fec69fb965c54c0c9a15318bbb448c3a502501c9889cnat);
        assert(square_chain(root_of_unity_value(), 13) == 0x36c0b9b7293f1cd86391fec69fb965c54c0c9a15318bbb448c3a502501c9889cnat);
        assert((0x36c0b9b7293f1cd86391fec69fb965c54c0c9a15318bbb448c3a502501c9889cnat * 0x36c0b9b7293f1cd86391fec69fb965c54c0c9a15318bbb448c3a502501c9889cnat) % modulus() == 0x18c8fb7d71146b9efc57b4553b1d6ac967ed98779b8f28bf8d205918a75258f4nat);
        assert(square_chain(root_of_unity_value(), 14) == 0x18c8fb7d71146b9efc57b4553b1d6ac967ed98779b8f28bf8d205918a75258f4nat);
        assert((0x18c8fb7d71146b9efc57b4553b1d6ac967ed98779b8f28bf8d205918a75258f4nat * 0x18c8fb7d71146b9efc57b4553b1d6ac967ed98779b8f28bf8d205918a75258f4nat) % modulus() == 0xfd6d647f549f3c7a5ddc35793aaf9765a029f199cb10369f40dccdb3a487e07nat);
        assert(square_chain(root_of_unity_value(), 15) == 0xfd6d647f549f3c7a5ddc35793aaf9765a029f199cb10369f40dccdb3a487e07nat);
        assert((0xfd6d647f549f3c7a5ddc35793aaf9765a029f199cb10369f40dccdb3a487e07nat * 0xfd6d647f549f3c7a5ddc35793aaf9765a029f199cb10369f40dccdb3a487e07nat) % modulus() == 0x385e22fc1565ebd8a13142cc27b8876f05ec017404d761eff3a89df3fe315f99nat);
        assert(square_chain(root_of_unity_value(), 16) == 0x385e22fc1565ebd8a13142cc27b8876f05ec017404d761eff3a89df3fe315f99nat);
        assert((0x385e22fc1565ebd8a13142cc27b8876f05ec017404d761eff3a89df3fe315f99nat * 0x385e22fc1565ebd8a13142cc27b8876f05ec017404d761eff3a89df3fe315f99nat) % modulus() == 0x130d1d6482b9c33536e280ae674431f85f4a103ef6af12c7ac4cdf0ad3edb265nat);
        assert(square_chain(root_of_unity_value(), 17) == 0x130d1d6482b9c33536e280ae674431f85f4a103ef6af12c7ac4cdf0ad3edb265nat);
        assert((0x130d1d6482b9c33536e280ae674431f85f4a103ef6af12c7ac4cdf0ad3edb265nat * 0x130d1d6482b9c33536e280ae674431f85f4a103ef6af12c7ac4cdf0ad3edb265nat) % modulus() == 0x1e5587687024253bb079b38d9c5371594958e496c605d3bd898b34d068afbee7nat);
        assert(square_chain(root_of_unity_value(), 18) == 0x1e5587687024253bb079b38d9c5371594958e496c605d3bd898b34d068afbee7nat);
        assert((0x1e5587687024253bb079b38d9c5371594958e496c605d3bd898b34d068afbee7nat * 0x1e5587687024253bb079b38d9c5371594958e496c605d3bd898b34d068afbee7nat) % modulus() == 0xc4f5749d933a822edb1d70943daf2379fa2a51688418060e615350f17ecbd27nat);
        assert(square_chain(root_of_unity_value(), 19) == 0xc4f5749d933a822edb1d70943daf2379fa2a51688418060e615350f17ecbd27nat);
        assert((0xc4f5749d933a822edb1d70943daf2379fa2a51688418060e615350f17ecbd27nat * 0xc4f5749d933a822edb1d70943daf2379fa2a51688418060e615350f17ecbd27nat) % modulus() == 0xd22c941a0b04b71d4ce80179437306907072be91feb7c9acf2eecbb96072570nat);
        assert(square_chain(root_of_unity_value(), 20) == 0xd22c941a0b04b71d4ce80179437306907072be91feb7c9acf2eecbb96072570nat);
        assert((0xd22c941a0b04b71d4ce80179437306907072be91feb7c9acf2eecbb96072570nat * 0xd22c941a0b04b71d4ce80179437306907072be91feb7c9acf2eecbb96072570nat) % modulus() == 0x3a3b5103f6d0105d125b967f811966337bc1e694ef9d23f5fab7afba742345b6nat);
        assert(square_chain(root_of_unity_value(), 21) == 0x3a3b5103f6d0105d125b967f811966337bc1e694ef9d23f5fab7afba742345b6nat);
        assert((0x3a3b5103f6d0105d125b967f811966337bc1e694ef9d23f5fab7afba742345b6nat * 0x3a3b5103f6d0105d125b967f811966337bc1e694ef9d23f5fab7afba742345b6nat) % modulus() == 0xd54c4d29ccd1de47f696cf29c89c9412a5e63e992d309699776a573c157dc6anat);
        assert(square_chain(root_of_unity_value(), 22) == 0xd54c4d29ccd1de47f696cf29c89c9412a5e63e992d309699776a573c157dc6anat);
        assert((0xd54c4d29ccd1de47f696cf29c89c9412a5e63e992d309699776a573c157dc6anat * 0xd54c4d29ccd1de47f696cf29c89c9412a5e63e992d309699776a573c157dc6anat) % modulus() == 0xa76b3aee2746ca7248fbe7424b30fd0e56f60e1b61014b337c6cd0392662205nat);
        assert(square_chain(root_of_unity_value(), 23) == 0xa76b3aee2746ca7248fbe7424b30fd0e56f60e1b61014b337c6cd0392662205nat);
        assert((0xa76b3aee2746ca7248fbe7424b30fd0e56f60e1b61014b337c6cd0392662205nat * 0xa76b3aee2746ca7248fbe7424b30fd0e56f60e1b61014b337c6cd0392662205nat) % modulus() == 0xa81955d1b842bf9baa32f613be2e8a90afad96d7d4dabe3fb0d5b1b6b26f170nat);
        assert(square_chain(root_of_unity_value(), 24) == 0xa81955d1b842bf9baa32f613be2e8a90afad96d7d4dabe3fb0d5b1b6b26f170nat);
        assert((0xa81955d1b842bf9baa32f613be2e8a90afad96d7d4dabe3fb0d5b1b6b26f170nat * 0xa81955d1b842bf9baa32f613be2e8a90afad96d7d4dabe3fb0d5b1b6b26f170nat) % modulus() == 0xac2b27df9801aeeb00395097a12eba4f672421e7eec3017abae64af09e771c0nat);
        assert(square_chain(root_of_unity_value(), 25) == 0xac2b27df9801aeeb00395097a12eba4f672421e7eec3017abae64af09e771c0nat);
        assert((0xac2b27df9801aeeb00395097a12eba4f672421e7eec3017abae64af09e771c0nat * 0xac2b27df9801aeeb00395097a12eba4f672421e7eec3017abae64af09e771c0nat) % modulus() == 0x396578a156cd522a7133d40f77cca3c06bceb1fdb09aa3cf2e36062f68e08d79nat);
        assert(square_chain(root_of_unity_value(), 26) == 0x396578a156cd522a7133d40f77cca3c06bceb1fdb09aa3cf2e36062f68e08d79nat);
        assert((0x396578a156cd522a7133d40f77cca3c06bceb1fdb09aa3cf2e36062f68e08d79nat * 0x396578a156cd522a7133d40f77cca3c06bceb1fdb09aa3cf2e36062f68e08d79nat) % modulus() == 0x3ccd3ef9d021fce51160f869c45a2797f50c987af189da55a42622b9918303ecnat);
        assert(square_chain(root_of_unity_value(), 27) == 0x3ccd3ef9d021fce51160f869c45a2797f50c987af189da55a42622b9918303ecnat);
        assert((0x3ccd3ef9d021fce51160f869c45a2797f50c987af189da55a42622b9918303ecnat * 0x3ccd3ef9d021fce51160f869c45a2797f50c987af189da55a42622b9918303ecnat) % modulus() == 0x196249e6016990925bb6031a1cc6ac5dace79f8e05d27d7beb49261266c85a9bnat);
        assert(square_chain(root_of_unity_value(), 28) == 0x196249e6016990925bb6031a1cc6ac5dace79f8e05d27d7beb49261266c85a9bnat);
        assert((0x196249e6016990925bb6031a1cc6ac5dace79f8e05d27d7beb49261266c85a9bnat * 0x196249e6016990925bb6031a1cc6ac5dace79f8e05d27d7beb49261266c85a9bnat) % modulus() == 0x3a57bee9fb370430aa5f610ed09c17fe7e538bca7c94ad2b1ba3a33bc04980a4nat);
        assert(square_chain(root_of_unity_value(), 29) == 0x3a57bee9fb370430aa5f610ed09c17fe7e538bca7c94ad2b1ba3a33bc04980a4nat);
        assert((0x3a57bee9fb370430aa5f610ed09c17fe7e538bca7c94ad2b1ba3a33bc04980a4nat * 0x3a57bee9fb370430aa5f610ed09c17fe7e538bca7c94ad2b1ba3a33bc04980a4nat) % modulus() == 0x3691ce115adfa1187d65aa6313c354eb4a146505975fd3435d2f235b4abeb917nat);
        assert(square_chain(root_of_unity_value(), 30) == 0x3691ce115adfa1187d65aa6313c354eb4a146505975fd3435d2f235b4abeb917nat);
        assert((0x3691ce115adfa1187d65aa6313c354eb4a146505975fd3435d2f235b4abeb917nat * 0x3691ce115adfa1187d65aa6313c354eb4a146505975fd3435d2f235b4abeb917nat) % modulus() == 0x40000000000000000000000000000000224698fc0994a8dd8c46eb2100000000nat);
        assert(square_chain(root_of_unity_value(), 31) == 0x40000000000000000000000000000000224698fc0994a8dd8c46eb2100000000nat);
        lemma_square_chain(root_of_unity_value(), 31);
}

} // verus!
