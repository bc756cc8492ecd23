//! The scalar field of the BN254 pairing-friendly curve.
//!
//! A field element is held in canonical form as four 64-bit little-endian
//! limbs, so that its mathematical value is a plain function of the limbs.
//! The arithmetic itself (addition, multiplication, inversion, powering) is
//! done by the `ark_bn254` / `ark_ff` backend behind small trusted wrappers
//! whose contracts state the result as arithmetic modulo the field order.

use vstd::prelude::*;
use vstd::arithmetic::power::pow;
use vstd::arithmetic::power2::pow2;
use ark_ff::{Field, FftField, PrimeField};

verus! {

/// 2^64, the radix of the limb representation.
pub open spec fn limb_radix() -> nat {
    0x10000000000000000
}

/// The order of the BN254 scalar field, assembled from its four
/// little-endian 64-bit limbs:
/// 21888242871839275222246405745257275088548364400416034343698204186575808495617.
pub open spec fn fr_order() -> nat {
    4891460686036598785 + limb_radix() * (2896914383306846353 + limb_radix() * (
    13281191951274694749 + limb_radix() * 3486998266802970665))
}

/// The two-adicity of the field: the order minus one is 2^28 times an odd number.
pub const FR_TWO_ADICITY: u32 = 28;

/// `b` to the power `e`, reduced modulo the field order.
pub open spec fn pow_m(b: nat, e: nat) -> nat {
    (pow(b as int, e) % (fr_order() as int)) as nat
}

/// The field order is a (large) positive number.
pub proof fn lemma_fr_order_pos()
    ensures
        fr_order() > 2,
{
}

/// Congruence modulo the field order, over the unbounded integers.
pub open spec fn congruent(a: int, b: int) -> bool {
    a % (fr_order() as int) == b % (fr_order() as int)
}

/// Congruence is compatible with addition.
pub proof fn lemma_cong_add(a: int, b: int, c: int, d: int)
    requires
        congruent(a, b),
        congruent(c, d),
    ensures
        congruent(a + c, b + d),
{
    let m = fr_order() as int;
    vstd::arithmetic::div_mod::lemma_add_mod_noop(a, c, m);
    vstd::arithmetic::div_mod::lemma_add_mod_noop(b, d, m);
}

/// Congruence is compatible with multiplication.
pub proof fn lemma_cong_mul(a: int, b: int, c: int, d: int)
    requires
        congruent(a, b),
        congruent(c, d),
    ensures
        congruent(a * c, b * d),
{
    let m = fr_order() as int;
    vstd::arithmetic::div_mod::lemma_mul_mod_noop_general(a, c, m);
    vstd::arithmetic::div_mod::lemma_mul_mod_noop_general(b, d, m);
}

/// A number is congruent to its remainder.
pub proof fn lemma_cong_mod(a: int)
    ensures
        congruent(a, a % (fr_order() as int)),
        0 <= a % (fr_order() as int) < fr_order(),
{
    let m = fr_order() as int;
    vstd::arithmetic::div_mod::lemma_mod_twice(a, m);
    vstd::arithmetic::div_mod::lemma_mod_bound(a, m);
}

/// Adding the field order does not change the residue.
pub proof fn lemma_cong_shift(a: int)
    ensures
        congruent(a + fr_order(), a),
{
    let m = fr_order() as int;
    vstd::arithmetic::div_mod::lemma_mod_add_multiples_vanish(a, m);
}

/// A reduced value is its own remainder.
pub proof fn lemma_small_cong(a: nat)
    requires
        a < fr_order(),
    ensures
        (a as int) % (fr_order() as int) == a,
{
    vstd::arithmetic::div_mod::lemma_small_mod(a, fr_order());
}

/// Two reduced, congruent values are equal.
pub proof fn lemma_cong_reduced(a: nat, b: nat)
    requires
        a < fr_order(),
        b < fr_order(),
        congruent(a as int, b as int),
    ensures
        a == b,
{
    lemma_small_cong(a);
    lemma_small_cong(b);
}

/// A scalar-field element in canonical (fully reduced) form,
/// as four little-endian 64-bit limbs.
#[derive(Clone, Copy, Debug, PartialEq, Eq, Structural)]
pub struct Fr {
    pub l0: u64,
    pub l1: u64,
    pub l2: u64,
    pub l3: u64,
}

impl Fr {
    /// The integer value of the limbs.
    pub open spec fn val(self) -> nat {
        (self.l0 + limb_radix() * (self.l1 + limb_radix() * (self.l2 + limb_radix() * self.l3))) as nat
    }

    /// Canonical form: the value is fully reduced.
    pub open spec fn wf(self) -> bool {
        self.val() < fr_order()
    }
}

/// The zero element.
pub fn fr_zero() -> (r: Fr)
    ensures
        r.wf(),
        r.val() == 0,
{
    Fr { l0: 0, l1: 0, l2: 0, l3: 0 }
}

/// The one element.
pub fn fr_one() -> (r: Fr)
    ensures
        r.wf(),
        r.val() == 1,
{
    Fr { l0: 1, l1: 0, l2: 0, l3: 0 }
}

/// The field element standing for a 64-bit integer (every such integer
/// is already below the field order).
pub fn fr_from_u64(x: u64) -> (r: Fr)
    ensures
        r.wf(),
        r.val() == x,
{
    Fr { l0: x, l1: 0, l2: 0, l3: 0 }
}

/// The field element standing for an arbitrary four-limb little-endian
/// integer, reduced modulo the field order (a Horner pass over the limbs
/// in the verified wrappers).
pub fn fr_from_u64s(l0: u64, l1: u64, l2: u64, l3: u64) -> (r: Fr)
    ensures
        r.wf(),
        r.val() == ((l0 + limb_radix() * (l1 + limb_radix() * (l2 + limb_radix() * l3)))
            as nat) % fr_order(),
{
    proof {
        lemma_fr_order_pos();
    }
    let b32 = fr_from_u64(0x100000000);
    let radix = fr_mul(&b32, &b32);
    proof {
        vstd::arithmetic::div_mod::lemma_small_mod(limb_radix(), fr_order());
        assert(radix.val() == limb_radix());
    }
    let x3 = fr_from_u64(l3);
    let x2 = fr_add(&fr_mul(&x3, &radix), &fr_from_u64(l2));
    let x1 = fr_add(&fr_mul(&x2, &radix), &fr_from_u64(l1));
    let x0 = fr_add(&fr_mul(&x1, &radix), &fr_from_u64(l0));
    proof {
        let rx = limb_radix() as int;
        // each Horner step is congruent to the unreduced sum so far
        lemma_cong_mod((x3.val() * rx));
        lemma_cong_add((x3.val() * rx) % (fr_order() as int), x3.val() * rx,
            l2 as int, l2 as int);
        lemma_cong_mod(((x3.val() * rx) % (fr_order() as int)) + l2);
        assert(congruent(x2.val() as int, l3 * rx + l2));
        lemma_cong_mul(x2.val() as int, l3 * rx + l2, rx, rx);
        lemma_cong_mod((x2.val() * rx));
        lemma_cong_add((x2.val() * rx) % (fr_order() as int), (l3 * rx + l2) * rx,
            l1 as int, l1 as int);
        lemma_cong_mod(((x2.val() * rx) % (fr_order() as int)) + l1);
        assert(congruent(x1.val() as int, (l3 * rx + l2) * rx + l1));
        lemma_cong_mul(x1.val() as int, (l3 * rx + l2) * rx + l1, rx, rx);
        lemma_cong_mod((x1.val() * rx));
        lemma_cong_add((x1.val() * rx) % (fr_order() as int), ((l3 * rx + l2) * rx + l1) * rx,
            l0 as int, l0 as int);
        lemma_cong_mod(((x1.val() * rx) % (fr_order() as int)) + l0);
        assert(congruent(x0.val() as int, ((l3 * rx + l2) * rx + l1) * rx + l0));
        // regroup the Horner sum into the little-endian radix expansion
        assert(((l3 * rx + l2) * rx + l1) * rx + l0 ==
            l0 + rx * (l1 + rx * (l2 + rx * l3))) by (nonlinear_arith);
        lemma_cong_mod((l0 + rx * (l1 + rx * (l2 + rx * l3))));
        lemma_cong_reduced(x0.val(),
            (((l0 + limb_radix() * (l1 + limb_radix() * (l2 + limb_radix() * l3))) as nat)
                % fr_order()) as nat);
    }
    x0
}

/// A canonical element is zero exactly when all its limbs are zero.
pub proof fn lemma_fr_zero_limbs(a: Fr)
    ensures
        (a.val() == 0) <==> (a.l0 == 0 && a.l1 == 0 && a.l2 == 0 && a.l3 == 0),
{
}

/// Relies on `ark_ff` field addition for `ark_bn254::Fr`: the sum of the two
/// operands modulo the field order. `from_repr`/`into_repr` convert between
/// canonical limbs and the backend's representation; `from_repr` accepts
/// every canonical (reduced) value.
#[verifier::external_body]
pub(crate) fn fr_add(a: &Fr, b: &Fr) -> (r: Fr)
    requires
        a.wf(),
        b.wf(),
    ensures
        r.wf(),
        r.val() == (a.val() + b.val()) % fr_order(),
{
    let x = ark_bn254::Fr::from_repr(ark_ff::BigInteger256::new([a.l0, a.l1, a.l2, a.l3])).unwrap();
    let y = ark_bn254::Fr::from_repr(ark_ff::BigInteger256::new([b.l0, b.l1, b.l2, b.l3])).unwrap();
    let s = (x + y).into_repr().0;
    Fr { l0: s[0], l1: s[1], l2: s[2], l3: s[3] }
}

/// Relies on `ark_ff` field subtraction for `ark_bn254::Fr`: the difference
/// modulo the field order (stated as adding the order before subtracting,
/// which is the same residue).
#[verifier::external_body]
pub(crate) fn fr_sub(a: &Fr, b: &Fr) -> (r: Fr)
    requires
        a.wf(),
        b.wf(),
    ensures
        r.wf(),
        r.val() == ((a.val() + fr_order() - b.val()) as nat) % fr_order(),
{
    let x = ark_bn254::Fr::from_repr(ark_ff::BigInteger256::new([a.l0, a.l1, a.l2, a.l3])).unwrap();
    let y = ark_bn254::Fr::from_repr(ark_ff::BigInteger256::new([b.l0, b.l1, b.l2, b.l3])).unwrap();
    let s = (x - y).into_repr().0;
    Fr { l0: s[0], l1: s[1], l2: s[2], l3: s[3] }
}

/// Relies on `ark_ff` field multiplication for `ark_bn254::Fr`: the product
/// of the two operands modulo the field order.  The modulus is the order
/// of a prime field (`FpParameters` are the parameters of a prime field),
/// so the product of two nonzero elements is itself nonzero.
#[verifier::external_body]
pub(crate) fn fr_mul(a: &Fr, b: &Fr) -> (r: Fr)
    requires
        a.wf(),
        b.wf(),
    ensures
        r.wf(),
        r.val() == (a.val() * b.val()) % fr_order(),
        a.val() != 0 && b.val() != 0 ==> r.val() != 0,
{
    let x = ark_bn254::Fr::from_repr(ark_ff::BigInteger256::new([a.l0, a.l1, a.l2, a.l3])).unwrap();
    let y = ark_bn254::Fr::from_repr(ark_ff::BigInteger256::new([b.l0, b.l1, b.l2, b.l3])).unwrap();
    let s = (x * y).into_repr().0;
    Fr { l0: s[0], l1: s[1], l2: s[2], l3: s[3] }
}

/// Relies on `ark_ff::Field::inverse` for `ark_bn254::Fr`: for a nonzero
/// element it returns the multiplicative inverse (it returns `None` only
/// for zero, which the precondition rules out).
#[verifier::external_body]
pub(crate) fn fr_inverse(a: &Fr) -> (r: Fr)
    requires
        a.wf(),
        a.val() != 0,
    ensures
        r.wf(),
        (r.val() * a.val()) % fr_order() == 1,
{
    let x = ark_bn254::Fr::from_repr(ark_ff::BigInteger256::new([a.l0, a.l1, a.l2, a.l3])).unwrap();
    let s = x.inverse().unwrap().into_repr().0;
    Fr { l0: s[0], l1: s[1], l2: s[2], l3: s[3] }
}

/// Relies on `ark_ff::Field::pow` for `ark_bn254::Fr`: square-and-multiply
/// exponentiation by the little-endian limb exponent, here a single limb.
#[verifier::external_body]
pub(crate) fn fr_pow(a: &Fr, e: u64) -> (r: Fr)
    requires
        a.wf(),
    ensures
        r.wf(),
        r.val() == pow_m(a.val(), e as nat),
{
    let x = ark_bn254::Fr::from_repr(ark_ff::BigInteger256::new([a.l0, a.l1, a.l2, a.l3])).unwrap();
    let s = x.pow(&[e]).into_repr().0;
    Fr { l0: s[0], l1: s[1], l2: s[2], l3: s[3] }
}

/// The value of `ark_ff::FftField::two_adic_root_of_unity` for the BN254
/// scalar field: a fixed constant of the backend, the same in every run.
pub uninterp spec fn fr_root_val(two_adicity: nat) -> nat;

/// Relies on `ark_ff::FftField::two_adic_root_of_unity` for `ark_bn254::Fr`:
/// the generator of the multiplicative group raised to the odd cofactor `t`
/// (where the order minus one is 2^28 times `t`), hence an element of
/// multiplicative order exactly 2^28: its 2^28-th power is one and its
/// 2^27-th power is not.
#[verifier::external_body]
pub(crate) fn fr_two_adic_root() -> (r: Fr)
    ensures
        r.wf(),
        r.val() == fr_root_val(FR_TWO_ADICITY as nat),
        pow_m(r.val(), pow2(FR_TWO_ADICITY as nat)) == 1,
        pow_m(r.val(), pow2((FR_TWO_ADICITY - 1) as nat)) != 1,
{
    let s = ark_bn254::Fr::two_adic_root_of_unity().into_repr().0;
    Fr { l0: s[0], l1: s[1], l2: s[2], l3: s[3] }
}

/// Relies on `ark_ff::FftField::multiplicative_generator` for
/// `ark_bn254::Fr`, whose documented value for this field is 5.
#[verifier::external_body]
pub(crate) fn fr_multiplicative_generator() -> (r: Fr)
    ensures
        r.wf(),
        r.val() == 5,
{
    let s = ark_bn254::Fr::multiplicative_generator().into_repr().0;
    Fr { l0: s[0], l1: s[1], l2: s[2], l3: s[3] }
}

} // verus!
