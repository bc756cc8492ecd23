//! The KZG commitment scheme: structured-reference-string setup, the
//! prover's commit and witness operations, and the verifier's two checks.
//!
//! Group elements are carried as their canonical compressed serializations,
//! so that every element is a plain byte vector and equal points have equal
//! bytes.  The curve arithmetic itself (scalar multiplication, subtraction,
//! multi-scalar multiplication, the pairing) is done by `ark_bn254` /
//! `ark_ec` behind trusted wrappers; each such operation is named by an
//! uninterpreted function of the operands, which is sound because every one
//! of them is a pure function of its arguments.

use vstd::prelude::*;
use ark_ec::{AffineCurve, ProjectiveCurve};
use ark_ec::msm::VariableBaseMSM;
use ark_ec::PairingEngine;
use ark_ff::Zero;
use ark_serialize::{CanonicalSerialize, CanonicalDeserialize};
use crate::field::{Fr, fr_order};
use crate::polynomial::{Polynomial, all_below, fr_vals, eval_at, synth_quot, lemma_fr_vals_index};

verus! {

/// The scheme's error kinds.  All are surfaced to the caller; several are
/// reserved for operations (batch opening, explicit point validation) that
/// the scheme declares but does not reach today.
#[derive(Clone, Copy, Debug, PartialEq, Eq, Structural)]
pub enum KZGError {
    NoPolynomial,
    PointNotOnPolynomial,
    BatchOpeningZeroRemainder,
    PolynomialDegreeTooLarge,
}

/// An element of the pairing's first group, as its canonical compressed
/// serialization.
#[derive(Clone, Debug)]
pub struct G1Elem {
    pub bytes: Vec<u8>,
}

/// An element of the pairing's second group, as its canonical compressed
/// serialization.
#[derive(Clone, Debug)]
pub struct G2Elem {
    pub bytes: Vec<u8>,
}

impl View for G1Elem {
    type V = Seq<u8>;

    open spec fn view(&self) -> Seq<u8> {
        self.bytes@
    }
}

impl View for G2Elem {
    type V = Seq<u8>;

    open spec fn view(&self) -> Seq<u8> {
        self.bytes@
    }
}

/// The bytes of each element of a sequence of first-group elements.
pub open spec fn g1_bytes(s: Seq<G1Elem>) -> Seq<Seq<u8>> {
    Seq::new(s.len(), |i: int| s[i]@)
}

/// A commitment is a single first-group element.
pub type KZGCommitment = G1Elem;

/// A witness is a single first-group element.
pub type KZGWitness = G1Elem;

/// The canonical bytes of the first group's fixed generator.  The
/// parameter is immaterial — an uninterpreted function takes one, and
/// every argument denotes the same constant.
pub uninterp spec fn g1_gen_val(sel: nat) -> Seq<u8>;

/// The canonical bytes of the second group's fixed generator; the
/// parameter is immaterial as for the first group.
pub uninterp spec fn g2_gen_val(sel: nat) -> Seq<u8>;

/// What scalar multiplication in the first group returns, as a function of
/// the point's bytes and the scalar's value.
pub uninterp spec fn g1_scale_val(p: Seq<u8>, k: nat) -> Seq<u8>;

/// What scalar multiplication in the second group returns.
pub uninterp spec fn g2_scale_val(p: Seq<u8>, k: nat) -> Seq<u8>;

/// What subtraction in the first group returns.
pub uninterp spec fn g1_sub_val(a: Seq<u8>, b: Seq<u8>) -> Seq<u8>;

/// What subtraction in the second group returns.
pub uninterp spec fn g2_sub_val(a: Seq<u8>, b: Seq<u8>) -> Seq<u8>;

/// What the multi-scalar product of first-group points and scalar values
/// returns.
pub uninterp spec fn g1_msm_val(ps: Seq<Seq<u8>>, ks: Seq<nat>) -> Seq<u8>;

/// What the bilinear pairing of a first- and a second-group element
/// returns, as the canonical serialization of the target-group element.
pub uninterp spec fn pairing_val(p: Seq<u8>, q: Seq<u8>) -> Seq<u8>;

/// Relies on `ark_bn254::G1Affine::prime_subgroup_generator`: the fixed
/// generator of the first group, serialized canonically — a constant, the
/// same in every run.
#[verifier::external_body]
fn g1_generator() -> (r: G1Elem)
    ensures
        r@ == g1_gen_val(0),
{
    let g = ark_bn254::G1Affine::prime_subgroup_generator();
    let mut bytes: Vec<u8> = Vec::new();
    g.serialize(&mut bytes).unwrap();
    G1Elem { bytes }
}

/// Relies on `ark_bn254::G2Affine::prime_subgroup_generator`: the fixed
/// generator of the second group, serialized canonically — a constant, the
/// same in every run.
#[verifier::external_body]
fn g2_generator() -> (r: G2Elem)
    ensures
        r@ == g2_gen_val(0),
{
    let g = ark_bn254::G2Affine::prime_subgroup_generator();
    let mut bytes: Vec<u8> = Vec::new();
    g.serialize(&mut bytes).unwrap();
    G2Elem { bytes }
}

/// Relies on `ark_ec::ProjectiveCurve::mul` on `ark_bn254::G1Projective`:
/// multiplication of the deserialized point (the zero point for bytes that
/// decode to no point) by the scalar's little-endian limbs, a pure function
/// of the bytes and the scalar value.
#[verifier::external_body]
fn g1_scale(p: &G1Elem, k: &Fr) -> (r: G1Elem)
    ensures
        r@ == g1_scale_val(p@, k.val()),
{
    let a = ark_bn254::G1Affine::deserialize(&p.bytes[..])
        .unwrap_or(ark_bn254::G1Affine::zero());
    let s = a.into_projective().mul(&[k.l0, k.l1, k.l2, k.l3]);
    let mut bytes: Vec<u8> = Vec::new();
    s.into_affine().serialize(&mut bytes).unwrap();
    G1Elem { bytes }
}

/// Relies on `ark_ec::ProjectiveCurve::mul` on `ark_bn254::G2Projective`,
/// as for the first group.
#[verifier::external_body]
fn g2_scale(p: &G2Elem, k: &Fr) -> (r: G2Elem)
    ensures
        r@ == g2_scale_val(p@, k.val()),
{
    let a = ark_bn254::G2Affine::deserialize(&p.bytes[..])
        .unwrap_or(ark_bn254::G2Affine::zero());
    let s = a.into_projective().mul(&[k.l0, k.l1, k.l2, k.l3]);
    let mut bytes: Vec<u8> = Vec::new();
    s.into_affine().serialize(&mut bytes).unwrap();
    G2Elem { bytes }
}

/// Relies on group subtraction of `ark_bn254::G1Projective` points.
#[verifier::external_body]
fn g1_sub(a: &G1Elem, b: &G1Elem) -> (r: G1Elem)
    ensures
        r@ == g1_sub_val(a@, b@),
{
    let x = ark_bn254::G1Affine::deserialize(&a.bytes[..])
        .unwrap_or(ark_bn254::G1Affine::zero()).into_projective();
    let y = ark_bn254::G1Affine::deserialize(&b.bytes[..])
        .unwrap_or(ark_bn254::G1Affine::zero()).into_projective();
    let mut bytes: Vec<u8> = Vec::new();
    (x - y).into_affine().serialize(&mut bytes).unwrap();
    G1Elem { bytes }
}

/// Relies on group subtraction of `ark_bn254::G2Projective` points.
#[verifier::external_body]
fn g2_sub(a: &G2Elem, b: &G2Elem) -> (r: G2Elem)
    ensures
        r@ == g2_sub_val(a@, b@),
{
    let x = ark_bn254::G2Affine::deserialize(&a.bytes[..])
        .unwrap_or(ark_bn254::G2Affine::zero()).into_projective();
    let y = ark_bn254::G2Affine::deserialize(&b.bytes[..])
        .unwrap_or(ark_bn254::G2Affine::zero()).into_projective();
    let mut bytes: Vec<u8> = Vec::new();
    (x - y).into_affine().serialize(&mut bytes).unwrap();
    G2Elem { bytes }
}

/// Relies on `ark_ec::msm::VariableBaseMSM::multi_scalar_mul`: the sum of
/// each point scaled by the matching scalar value (extra entries of the
/// longer input are ignored), a pure function of the point bytes and the
/// scalar values.
#[verifier::external_body]
fn g1_msm(points: &Vec<G1Elem>, scalars: &Vec<Fr>) -> (r: G1Elem)
    ensures
        r@ == g1_msm_val(g1_bytes(points@), fr_vals(scalars@)),
{
    let mut bases: Vec<ark_bn254::G1Affine> = Vec::new();
    for p in points.iter() {
        bases.push(ark_bn254::G1Affine::deserialize(&p.bytes[..])
            .unwrap_or(ark_bn254::G1Affine::zero()));
    }
    let mut ks: Vec<ark_ff::BigInteger256> = Vec::new();
    for k in scalars.iter() {
        ks.push(ark_ff::BigInteger256::new([k.l0, k.l1, k.l2, k.l3]));
    }
    let c = VariableBaseMSM::multi_scalar_mul(&bases, &ks);
    let mut bytes: Vec<u8> = Vec::new();
    c.into_affine().serialize(&mut bytes).unwrap();
    G1Elem { bytes }
}

/// Relies on `ark_ec::PairingEngine::pairing` for `ark_bn254::Bn254`: the
/// bilinear pairing of the two deserialized points, returned as the
/// canonical serialization of the target-group element.
#[verifier::external_body]
fn pairing(p: &G1Elem, q: &G2Elem) -> (r: Vec<u8>)
    ensures
        r@ == pairing_val(p@, q@),
{
    let a = ark_bn254::G1Affine::deserialize(&p.bytes[..])
        .unwrap_or(ark_bn254::G1Affine::zero());
    let b = ark_bn254::G2Affine::deserialize(&q.bytes[..])
        .unwrap_or(ark_bn254::G2Affine::zero());
    let gt = ark_bn254::Bn254::pairing(a, b);
    let mut bytes: Vec<u8> = Vec::new();
    gt.serialize(&mut bytes).unwrap();
    bytes
}

/// Byte-vector equality.
fn bytes_eq(a: &Vec<u8>, b: &Vec<u8>) -> (r: bool)
    ensures
        r == (a@ == b@),
{
    if a.len() != b.len() {
        proof {
            assert(a@ != b@);
        }
        return false;
    }
    let n = a.len();
    let mut i: usize = 0;
    while i < n
        invariant
            n == a@.len(),
            n == b@.len(),
            i <= n,
            forall|j: int| 0 <= j < i ==> a@[j] == b@[j],
        decreases n - i,
    {
        if a[i] != b[i] {
            proof {
                assert(a@ != b@);
            }
            return false;
        }
        i += 1;
    }
    proof {
        assert(a@ =~= b@);
    }
    true
}

/// The public parameters: the generators of both groups raised to the
/// successive powers of the trapdoor scalar.
#[derive(Clone, Debug)]
pub struct KZGParams {
    /// g, g^s, g^(s^2), ...
    pub gs: Vec<G1Elem>,
    /// h, h^s, h^(s^2), ...
    pub hs: Vec<G2Elem>,
}

/// Builds the reference string from the trapdoor scalar: the first entries
/// are the fixed generators, and each later entry is the previous one
/// scaled by the trapdoor.  Pure and deterministic; the caller must obtain
/// and then discard the trapdoor, which makes this entry point suitable for
/// tests and demonstrations only.
pub fn setup(s: Fr, num_coeffs: usize) -> (r: KZGParams)
    requires
        s.wf(),
        num_coeffs >= 1,
    ensures
        r.gs@.len() == num_coeffs,
        r.hs@.len() == num_coeffs,
        r.gs@[0]@ == g1_gen_val(0),
        r.hs@[0]@ == g2_gen_val(0),
        forall|i: int| 1 <= i < num_coeffs ==>
            (#[trigger] r.gs@[i])@ == g1_scale_val(r.gs@[i - 1]@, s.val()),
        forall|i: int| 1 <= i < num_coeffs ==>
            (#[trigger] r.hs@[i])@ == g2_scale_val(r.hs@[i - 1]@, s.val()),
{
    let mut gs: Vec<G1Elem> = Vec::new();
    gs.push(g1_generator());
    let mut i: usize = 1;
    while i < num_coeffs
        invariant
            1 <= i <= num_coeffs,
            gs@.len() == i,
            gs@[0]@ == g1_gen_val(0),
            forall|j: int| 1 <= j < i ==>
                (#[trigger] gs@[j])@ == g1_scale_val(gs@[j - 1]@, s.val()),
        decreases num_coeffs - i,
    {
        let next = g1_scale(&gs[i - 1], &s);
        gs.push(next);
        i += 1;
    }
    let mut hs: Vec<G2Elem> = Vec::new();
    hs.push(g2_generator());
    let mut i: usize = 1;
    while i < num_coeffs
        invariant
            1 <= i <= num_coeffs,
            hs@.len() == i,
            hs@[0]@ == g2_gen_val(0),
            forall|j: int| 1 <= j < i ==>
                (#[trigger] hs@[j])@ == g2_scale_val(hs@[j - 1]@, s.val()),
        decreases num_coeffs - i,
    {
        let next = g2_scale(&hs[i - 1], &s);
        hs.push(next);
        i += 1;
    }
    KZGParams { gs, hs }
}

/// The value a commitment to the given coefficient values takes under the
/// given reference string.
pub open spec fn commit_value(gs: Seq<Seq<u8>>, coeffs: Seq<nat>) -> Seq<u8> {
    g1_msm_val(gs, coeffs)
}

/// Whether a claimed commitment matches a direct recomputation from the
/// polynomial's coefficients.
pub open spec fn verify_poly_value(c: Seq<u8>, gs: Seq<Seq<u8>>, coeffs: Seq<nat>) -> bool {
    c == commit_value(gs, coeffs)
}

/// Whether the pairing identity of an evaluation check holds: the witness
/// paired with `h^s - h^x` must equal the shifted commitment paired with
/// `h`.
pub open spec fn verify_eval_value(x: nat, y: nat, c: Seq<u8>, w: Seq<u8>,
    g0: Seq<u8>, h0: Seq<u8>, h1: Seq<u8>) -> bool {
    pairing_val(w, g2_sub_val(h1, g2_scale_val(h0, x)))
        == pairing_val(g1_sub_val(c, g1_scale_val(g0, y)), h0)
}

/// Commitment consistency: a commitment computed from a polynomial always
/// passes `verify_poly` against the same polynomial and parameters, since
/// the check recomputes the same multi-scalar product of the same inputs.
/// (That a commitment to a different polynomial is rejected holds only
/// statistically over the trapdoor and is outside what is proved here.)
pub proof fn lemma_verify_poly_of_commit(gs: Seq<Seq<u8>>, coeffs: Seq<nat>)
    ensures
        verify_poly_value(commit_value(gs, coeffs), gs, coeffs),
{
}

/// A stateless prover view of shared parameters.
#[derive(Debug)]
pub struct KZGProver<'params> {
    pub parameters: &'params KZGParams,
}

/// A stateless verifier view of shared parameters.
#[derive(Debug)]
pub struct KZGVerifier<'params> {
    pub parameters: &'params KZGParams,
}

impl<'params> KZGProver<'params> {
    /// A prover over the given parameters.
    pub fn new(parameters: &'params KZGParams) -> (r: Self)
        ensures
            r.parameters == parameters,
    {
        Self { parameters }
    }

    /// The shared parameters.
    pub fn parameters(&self) -> (r: &'params KZGParams)
        ensures
            r == self.parameters,
    {
        self.parameters
    }

    /// Commits to a polynomial: the multi-scalar product of the reference
    /// string with the coefficients up to the degree.
    pub fn commit(&self, polynomial: &Polynomial) -> (r: KZGCommitment)
        requires
            polynomial.wf(),
            polynomial.degree + 1 <= self.parameters.gs@.len(),
        ensures
            r@ == commit_value(g1_bytes(self.parameters.gs@), polynomial.active()),
    {
        let coeffs = polynomial.slice_coeffs();
        proof {
            assert(fr_vals(coeffs@) =~= polynomial.active());
        }
        g1_msm(&self.parameters.gs, &coeffs)
    }

    /// Produces the evaluation witness for a claimed point `(x, y)`: the
    /// commitment to the synthetic quotient of the polynomial by the
    /// linear factor with root `x`.  The claimed value `y` shifts only the
    /// division's remainder, never the quotient, so it does not enter the
    /// computation; a wrong claim yields a witness that fails the pairing
    /// check rather than an error here.
    pub fn create_witness(&self, polynomial: &Polynomial, point: (Fr, Fr))
        -> (r: Result<KZGWitness, KZGError>)
        requires
            polynomial.wf(),
            point.0.wf(),
            point.1.wf(),
            polynomial.degree >= 1,
            polynomial.degree + 1 <= self.parameters.gs@.len(),
        ensures
            r matches Ok(w) && w@ == ({
                let q = synth_quot(polynomial.active(), point.0.val());
                if polynomial.degree == 1 {
                    g1_scale_val(self.parameters.gs@[0]@, q[0])
                } else {
                    commit_value(g1_bytes(self.parameters.gs@), q)
                }
            }),
    {
        let ghost pv = polynomial.active();
        let ghost q = synth_quot(pv, point.0.val());
        let degree = polynomial.degree();
        let x = point.0;
        let mut remainder = polynomial.slice_coeffs();
        proof {
            assert(fr_vals(remainder@) =~= pv);
            assert(pv.subrange(degree as int, degree + 1).subrange(1, 1)
                =~= pv.subrange(degree + 1, degree + 1));
            assert(eval_at(pv.subrange(degree + 1, degree + 1), x.val()) == 0);
            crate::field::lemma_fr_order_pos();
            vstd::arithmetic::mul::lemma_mul_basics(x.val() as int);
            vstd::arithmetic::div_mod::lemma_small_mod(pv[degree as int], fr_order());
            assert(eval_at(pv.subrange(degree as int, degree + 1), x.val()) == pv[degree as int]);
        }
        let mut divpoly_coeffs: Vec<Fr> = Vec::new();
        let mut j: usize = 0;
        while j < degree
            invariant
                j <= degree,
                divpoly_coeffs@.len() == j,
                forall|t: int| 0 <= t < j ==> (#[trigger] divpoly_coeffs@[t]).val() == 0
                    && divpoly_coeffs@[t].wf(),
            decreases degree - j,
        {
            divpoly_coeffs.push(crate::field::fr_zero());
            j += 1;
        }
        let mut i = degree;
        while i >= 1
            invariant
                i <= degree,
                degree == polynomial.degree,
                polynomial.wf(),
                x == point.0,
                x.wf(),
                pv == polynomial.active(),
                pv.len() == degree + 1,
                q == synth_quot(pv, x.val()),
                remainder@.len() == degree + 1,
                divpoly_coeffs@.len() == degree,
                all_below(fr_vals(remainder@), fr_order()),
                all_below(fr_vals(divpoly_coeffs@), fr_order()),
                forall|t: int| i <= t <= degree ==> #[trigger] fr_vals(remainder@)[t]
                    == eval_at(pv.subrange(t, degree + 1), x.val()),
                forall|t: int| 0 <= t < i ==> #[trigger] fr_vals(remainder@)[t] == pv[t],
                forall|t: int| i < t <= degree ==>
                    #[trigger] fr_vals(divpoly_coeffs@)[t - 1] == q[t - 1],
            decreases i,
        {
            proof {
                lemma_fr_vals_index(remainder@, i as int);
                lemma_fr_vals_index(remainder@, i - 1);
                lemma_fr_vals_index(divpoly_coeffs@, i - 1);
            }
            let factor = remainder[i];
            let shifted = crate::field::fr_mul(&x, &factor);
            let lowered = crate::field::fr_add(&remainder[i - 1], &shifted);
            let ghost drem = remainder@;
            let ghost ddiv = divpoly_coeffs@;
            divpoly_coeffs.set(i - 1, factor);
            remainder.set(i - 1, lowered);
            proof {
                assert forall|t: int| 0 <= t < remainder@.len() implies fr_vals(remainder@)[t]
                    == (if t == i - 1 { lowered.val() } else { fr_vals(drem)[t] }) by {
                    lemma_fr_vals_index(remainder@, t);
                    lemma_fr_vals_index(drem, t);
                }
                assert forall|t: int| 0 <= t < divpoly_coeffs@.len() implies
                    fr_vals(divpoly_coeffs@)[t]
                    == (if t == i - 1 { factor.val() } else { fr_vals(ddiv)[t] }) by {
                    lemma_fr_vals_index(divpoly_coeffs@, t);
                    lemma_fr_vals_index(ddiv, t);
                }
                // the new quotient coefficient is the suffix evaluation
                assert(q[i - 1] == eval_at(pv.subrange(i as int, degree + 1), x.val()));
                assert(factor.val() == q[i - 1]);
                // the lowered remainder entry is the next suffix evaluation
                let srest = pv.subrange(i - 1, degree + 1);
                assert(srest.subrange(1, srest.len() as int) =~= pv.subrange(i as int, degree + 1));
                vstd::arithmetic::div_mod::lemma_add_mod_noop_right(
                    pv[i - 1] as int,
                    (x.val() * eval_at(pv.subrange(i as int, degree + 1), x.val())) as int,
                    fr_order() as int);
                assert(lowered.val() == eval_at(srest, x.val()));
            }
            i -= 1;
        }
        let ghost dvals = fr_vals(divpoly_coeffs@);
        proof {
            assert forall|j: int| 0 <= j < degree implies dvals[j] == q[j] by {
                let t = j + 1;
                assert(fr_vals(divpoly_coeffs@)[t - 1] == q[t - 1]);
            }
        }
        let divpoly = Polynomial::new_from_coeffs(divpoly_coeffs, degree - 1);
        proof {
            assert forall|j: int| 0 <= j < degree implies divpoly.vals()[j] == q[j] by {
                assert(divpoly.vals()[j] == divpoly.coeffs@[j].val());
                assert(dvals[j] == divpoly.coeffs@[j].val());
            }
            assert(divpoly.active() =~= q);
        }
        if divpoly.num_coeffs() == 1 {
            proof {
                lemma_fr_vals_index(divpoly.coeffs@, 0);
            }
            Ok(g1_scale(&self.parameters.gs[0], &divpoly.coeffs[0]))
        } else {
            Ok(self.commit(&divpoly))
        }
    }
}

impl<'params> KZGVerifier<'params> {
    /// A verifier over the given parameters.
    pub fn new(parameters: &'params KZGParams) -> (r: Self)
        ensures
            r.parameters == parameters,
    {
        KZGVerifier { parameters }
    }

    /// Recomputes the commitment from the full polynomial and compares.  A
    /// linear-time sanity check, not the scheme's succinct path.
    pub fn verify_poly(&self, commitment: &KZGCommitment, polynomial: &Polynomial) -> (r: bool)
        requires
            polynomial.wf(),
            polynomial.degree + 1 <= self.parameters.gs@.len(),
        ensures
            r == verify_poly_value(commitment@, g1_bytes(self.parameters.gs@),
                polynomial.active()),
    {
        let coeffs = polynomial.slice_coeffs();
        proof {
            assert(fr_vals(coeffs@) =~= polynomial.active());
        }
        let check = g1_msm(&self.parameters.gs, &coeffs);
        bytes_eq(&check.bytes, &commitment.bytes)
    }

    /// The succinct evaluation check: a single pairing identity comparing
    /// the witness against the commitment shifted by the claimed value,
    /// constant-time in the degree of the committed polynomial.
    pub fn verify_eval(&self, point: (Fr, Fr), commitment: &KZGCommitment,
        witness: &KZGWitness) -> (r: bool)
        requires
            self.parameters.gs@.len() >= 1,
            self.parameters.hs@.len() >= 2,
        ensures
            r == verify_eval_value(point.0.val(), point.1.val(), commitment@, witness@,
                self.parameters.gs@[0]@, self.parameters.hs@[0]@, self.parameters.hs@[1]@),
    {
        let shifted_h = g2_scale(&self.parameters.hs[0], &point.0);
        let lhs_g2 = g2_sub(&self.parameters.hs[1], &shifted_h);
        let lhs = pairing(witness, &lhs_g2);
        let shifted_g = g1_scale(&self.parameters.gs[0], &point.1);
        let rhs_g1 = g1_sub(commitment, &shifted_g);
        let rhs = pairing(&rhs_g1, &self.parameters.hs[0]);
        bytes_eq(&lhs, &rhs)
    }
}


} // verus!
