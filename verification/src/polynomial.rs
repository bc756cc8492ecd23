//! Dense polynomials over the BN254 scalar field.
//!
//! A polynomial is an ordered coefficient vector (index = power, low to
//! high) together with an explicit `degree` field.  The degree invariant is
//! soft: a trusted constructor may set a degree that does not point at a
//! nonzero coefficient, and `shrink_degree` restores it.  All contracts are
//! stated over the sequence of coefficient values modulo the field order.

use vstd::prelude::*;
use vstd::arithmetic::div_mod::{lemma_add_mod_noop, lemma_small_mod, lemma_mod_twice};
use vstd::arithmetic::mul::lemma_mul_basics;
use crate::field::{Fr, fr_order, fr_zero, fr_one, fr_add, fr_sub, fr_mul, fr_inverse,
    lemma_fr_zero_limbs, lemma_fr_order_pos, congruent, lemma_cong_add, lemma_cong_mul,
    lemma_cong_mod, lemma_cong_shift, lemma_small_cong, lemma_cong_reduced};

verus! {

/// Entry `i` of a coefficient sequence, reading zero beyond either end.
pub open spec fn coeff_at(s: Seq<nat>, i: int) -> nat {
    if 0 <= i < s.len() {
        s[i]
    } else {
        0
    }
}

/// Every entry is below `m`.
pub open spec fn all_below(s: Seq<nat>, m: nat) -> bool {
    forall|i: int| 0 <= i < s.len() ==> s[i] < m
}

/// Evaluation of a coefficient sequence at `x`, modulo the field order
/// (Horner's recurrence: constant term plus `x` times the rest).
pub open spec fn eval_at(s: Seq<nat>, x: nat) -> nat
    decreases s.len(),
{
    if s.len() == 0 {
        0
    } else {
        (s[0] + x * eval_at(s.subrange(1, s.len() as int), x)) % fr_order()
    }
}

/// The largest index at or below `ub` holding a nonzero entry, or zero if
/// there is none (the degree scan).
pub open spec fn top_nonzero(s: Seq<nat>, ub: int) -> int
    decreases ub,
{
    if ub <= 0 {
        0
    } else if s[ub] != 0 {
        ub
    } else {
        top_nonzero(s, ub - 1)
    }
}

/// Pointwise sum modulo the field order, at the length of the longer input.
pub open spec fn seq_add_full(a: Seq<nat>, b: Seq<nat>) -> Seq<nat> {
    Seq::new(if a.len() >= b.len() { a.len() } else { b.len() },
        |i: int| (coeff_at(a, i) + coeff_at(b, i)) % fr_order())
}

/// Every entry multiplied by `c`, modulo the field order.
pub open spec fn seq_scale(a: Seq<nat>, c: nat) -> Seq<nat> {
    Seq::new(a.len(), |i: int| (a[i] * c) % fr_order())
}

/// The sum of `a[i] * b[k - i]` over `0 <= i < n` (out-of-range entries
/// read as zero): the convolution sum at index `k`, truncated at `n`.
pub open spec fn conv_sum(a: Seq<nat>, b: Seq<nat>, k: int, n: int) -> nat
    decreases n,
{
    if n <= 0 {
        0
    } else {
        conv_sum(a, b, k, n - 1) + coeff_at(a, n - 1) * coeff_at(b, k - (n - 1))
    }
}

/// The convolution (polynomial product) of two coefficient sequences,
/// modulo the field order.
pub open spec fn seq_conv(a: Seq<nat>, b: Seq<nat>) -> Seq<nat> {
    Seq::new((a.len() + b.len() - 1) as nat, |k: int| conv_sum(a, b, k, a.len() as int) % fr_order())
}

/// Reading the value sequence at an index reads the coefficient there, and
/// a well-formed polynomial has well-formed coefficients.
pub proof fn lemma_coeff_val(p: Polynomial, i: int)
    requires
        0 <= i < p.coeffs@.len(),
    ensures
        p.coeffs@[i].val() == p.vals()[i],
        p.wf() ==> p.coeffs@[i].wf(),
{
    assert(p.vals()[i] == p.coeffs@[i].val());
    if p.wf() {
        assert(p.vals()[i] < fr_order());
    }
}

/// `host` with the entries up to index `k` replaced by their sum with the
/// corresponding entry of `addend`, modulo the field order.
pub open spec fn add_into(host: Seq<nat>, addend: Seq<nat>, k: int) -> Seq<nat> {
    Seq::new(host.len(), |i: int|
        if i <= k {
            (host[i] + coeff_at(addend, i)) % fr_order()
        } else {
            host[i]
        })
}

/// The coefficient values after subtraction: the minuend, padded or cut to
/// the subtrahend's width when the subtrahend is wider, with the
/// subtrahend's entries taken away modulo the field order.
pub open spec fn sub_vals(a: Polynomial, b: Polynomial) -> Seq<nat> {
    let base = if b.degree > a.degree {
        Seq::new((b.degree + 1) as nat, |i: int| coeff_at(a.vals(), i))
    } else {
        a.vals()
    };
    Seq::new(base.len(), |i: int|
        if i <= b.degree {
            ((base[i] + fr_order() - coeff_at(b.vals(), i)) as nat) % fr_order()
        } else {
            base[i]
        })
}

/// The degree recorded before the subtraction result is shrunk.
pub open spec fn sub_pre_degree(a: Polynomial, b: Polynomial) -> int {
    if b.degree > a.degree {
        b.degree as int
    } else {
        a.degree as int
    }
}

/// A dense polynomial: coefficient vector plus explicit degree.
#[derive(Clone, Debug)]
pub struct Polynomial {
    pub degree: usize,
    pub coeffs: Vec<Fr>,
}

impl Polynomial {
    /// The values of the whole coefficient vector.
    pub open spec fn vals(self) -> Seq<nat> {
        Seq::new(self.coeffs@.len(), |i: int| self.coeffs@[i].val())
    }

    /// The values of the coefficients up to and including the degree:
    /// the part every algorithm reads.
    pub open spec fn active(self) -> Seq<nat> {
        self.vals().take(self.degree + 1)
    }

    /// Structural well-formedness: at least one coefficient, the degree in
    /// range, every coefficient in canonical form.
    pub open spec fn wf(self) -> bool {
        &&& self.coeffs@.len() >= 1
        &&& (self.degree as int) < self.coeffs@.len()
        &&& all_below(self.vals(), fr_order())
    }

    /// The soft degree invariant: the degree points at a nonzero
    /// coefficient unless it is zero.
    pub open spec fn degree_ok(self) -> bool {
        self.degree == 0 || self.vals()[self.degree as int] != 0
    }

    /// Whether this is the canonical zero polynomial of its length.
    pub fn is_zero(&self) -> (r: bool)
        requires
            self.wf(),
        ensures
            r == (self.degree == 0 && self.vals()[0] == 0),
    {
        proof {
            lemma_fr_zero_limbs(self.coeffs@[0]);
        }
        self.degree == 0 && self.coeffs[0] == fr_zero()
    }

    /// The canonical zero polynomial: degree zero, a single zero coefficient.
    pub fn new_zero() -> (r: Polynomial)
        ensures
            r.wf(),
            r.degree == 0,
            r.vals() =~= seq![0nat],
    {
        let coeffs = vec![fr_zero()];
        Polynomial { degree: 0, coeffs }
    }

    /// The constant polynomial holding one scalar.
    pub fn from_scalar(scalar: Fr) -> (r: Polynomial)
        requires
            scalar.wf(),
        ensures
            r.wf(),
            r.degree == 0,
            r.vals() =~= seq![scalar.val()],
    {
        let coeffs = vec![scalar];
        Polynomial { degree: 0, coeffs }
    }

    /// A polynomial of the given degree with every coefficient one.
    pub fn new_monic_of_degree(degree: usize) -> (r: Polynomial)
        requires
            degree < usize::MAX,
        ensures
            r.wf(),
            r.degree == degree,
            r.vals() =~= Seq::new((degree + 1) as nat, |i: int| 1nat),
    {
        let mut coeffs: Vec<Fr> = Vec::new();
        let mut i: usize = 0;
        while i < degree + 1
            invariant
                i <= degree + 1,
                degree < usize::MAX,
                coeffs@.len() == i,
                forall|j: int| 0 <= j < i ==> coeffs@[j].val() == 1,
            decreases degree + 1 - i,
        {
            coeffs.push(fr_one());
            i += 1;
        }
        Polynomial { degree, coeffs }
    }

    /// A degree-zero polynomial backed by a buffer of `cap` zeros.
    pub fn new_zero_with_size(cap: usize) -> (r: Polynomial)
        requires
            cap >= 1,
        ensures
            r.wf(),
            r.degree == 0,
            r.vals() =~= Seq::new(cap as nat, |i: int| 0nat),
    {
        let mut coeffs: Vec<Fr> = Vec::new();
        let mut i: usize = 0;
        while i < cap
            invariant
                i <= cap,
                coeffs@.len() == i,
                forall|j: int| 0 <= j < i ==> coeffs@[j].val() == 0,
            decreases cap - i,
        {
            coeffs.push(fr_zero());
            i += 1;
        }
        Polynomial { degree: 0, coeffs }
    }

    /// Builds a polynomial from its coefficients, scanning for the degree.
    pub fn new(coeffs: Vec<Fr>) -> (r: Polynomial)
        requires
            coeffs@.len() >= 1,
            all_below(Seq::new(coeffs@.len(), |i: int| coeffs@[i].val()), fr_order()),
        ensures
            r.wf(),
            r.degree_ok(),
            r.coeffs@ == coeffs@,
            r.degree == top_nonzero(r.vals(), coeffs@.len() - 1),
    {
        let degree = Self::compute_degree(&coeffs, coeffs.len() - 1);
        Polynomial { degree, coeffs }
    }

    /// Builds a polynomial trusting the caller's degree.  The degree
    /// invariant may be violated until `shrink_degree` restores it.
    pub fn new_from_coeffs(coeffs: Vec<Fr>, degree: usize) -> (r: Polynomial)
        requires
            (degree as int) < coeffs@.len(),
            all_below(Seq::new(coeffs@.len(), |i: int| coeffs@[i].val()), fr_order()),
        ensures
            r.wf(),
            r.coeffs@ == coeffs@,
            r.degree == degree,
    {
        Polynomial { degree, coeffs }
    }

    /// Scans downward from `upper_bound` for the first nonzero coefficient.
    pub fn compute_degree(coeffs: &Vec<Fr>, upper_bound: usize) -> (r: usize)
        requires
            (upper_bound as int) < coeffs@.len(),
        ensures
            r == top_nonzero(Seq::new(coeffs@.len(), |i: int| coeffs@[i].val()), upper_bound as int),
            r <= upper_bound,
            r == 0 || coeffs@[r as int].val() != 0,
    {
        let ghost s = Seq::new(coeffs@.len(), |i: int| coeffs@[i].val());
        let mut i = upper_bound;
        while i > 0 && coeffs[i] == fr_zero()
            invariant
                i <= upper_bound,
                (upper_bound as int) < coeffs@.len(),
                s == Seq::new(coeffs@.len(), |j: int| coeffs@[j].val()),
                top_nonzero(s, upper_bound as int) == top_nonzero(s, i as int),
            decreases i,
        {
            proof {
                lemma_fr_zero_limbs(coeffs@[i as int]);
                assert(s[i as int] == 0);
            }
            i -= 1;
        }
        proof {
            lemma_fr_zero_limbs(coeffs@[i as int]);
            if i != 0 {
                assert(s[i as int] != 0);
            }
        }
        i
    }

    /// Recomputes the degree in place, restoring the degree invariant.
    pub fn shrink_degree(&mut self)
        requires
            old(self).wf(),
        ensures
            final(self).wf(),
            final(self).degree_ok(),
            final(self).coeffs@ == old(self).coeffs@,
            final(self).degree == top_nonzero(old(self).vals(), old(self).degree as int),
    {
        let degree = Self::compute_degree(&self.coeffs, self.degree);
        self.degree = degree;
    }

    /// The coefficient at the degree.
    pub fn lead(&self) -> (r: Fr)
        requires
            self.wf(),
        ensures
            r.wf(),
            r.val() == self.vals()[self.degree as int],
    {
        proof {
            assert(self.vals()[self.degree as int] == self.coeffs@[self.degree as int].val());
            assert(self.vals()[self.degree as int] < fr_order());
        }
        self.coeffs[self.degree]
    }

    /// The number of coefficients the degree accounts for.
    pub fn num_coeffs(&self) -> (r: usize)
        requires
            self.wf(),
        ensures
            r == self.degree + 1,
    {
        let n = self.coeffs.len();
        assert(self.degree < n);
        self.degree + 1
    }

    /// The degree field.
    pub fn degree(&self) -> (r: usize)
        ensures
            r == self.degree,
    {
        self.degree
    }

    /// Consumes the polynomial, returning the coefficients up to the degree.
    pub fn coeffs(self) -> (r: Vec<Fr>)
        requires
            self.wf(),
        ensures
            r@.len() == self.degree + 1,
            Seq::new(r@.len(), |i: int| r@[i].val()) =~= self.active(),
    {
        let n = self.num_coeffs();
        let mut coeffs = self.coeffs;
        coeffs.truncate(n);
        coeffs
    }

    /// A copy of the coefficients up to the degree.
    pub fn slice_coeffs(&self) -> (r: Vec<Fr>)
        requires
            self.wf(),
        ensures
            r@.len() == self.degree + 1,
            Seq::new(r@.len(), |i: int| r@[i].val()) =~= self.active(),
            forall|i: int| 0 <= i < r@.len() ==> r@[i] == self.coeffs@[i],
    {
        let n = self.num_coeffs();
        let mut out: Vec<Fr> = Vec::new();
        let mut i: usize = 0;
        while i < n
            invariant
                i <= n,
                n == self.degree + 1,
                self.wf(),
                out@.len() == i,
                forall|j: int| 0 <= j < i ==> out@[j] == self.coeffs@[j],
            decreases n - i,
        {
            out.push(self.coeffs[i]);
            i += 1;
        }
        out
    }

    /// The coefficients up to the degree, in order (the iteration order of
    /// the coefficient sequence).
    pub fn iter_coeffs(&self) -> (r: Vec<Fr>)
        requires
            self.wf(),
        ensures
            r@.len() == self.degree + 1,
            Seq::new(r@.len(), |i: int| r@[i].val()) =~= self.active(),
    {
        self.slice_coeffs()
    }

    /// Lagrange interpolation: the unique minimal-degree polynomial through
    /// the given points.  `poly` always interpolates the points seen so
    /// far, and `base` vanishes on all of them; each new point adds a
    /// correcting multiple of `base` and extends `base` by one more linear
    /// factor.
    pub fn lagrange_interpolation(xs: &Vec<Fr>, ys: &Vec<Fr>) -> (r: Polynomial)
        requires
            xs@.len() == ys@.len(),
            xs@.len() >= 1,
            xs@.len() + 2 <= usize::MAX,
            all_below(fr_vals(xs@), fr_order()),
            all_below(fr_vals(ys@), fr_order()),
            forall|i: int, j: int| 0 <= i < j < xs@.len() ==> xs@[i].val() != xs@[j].val(),
        ensures
            r.wf(),
            r.degree < xs@.len(),
            forall|j: int| 0 <= j < xs@.len() ==>
                eval_at(r.active(), #[trigger] xs@[j].val()) == ys@[j].val(),
    {
        let ghost xv = fr_vals(xs@);
        let ghost yv = fr_vals(ys@);
        let len = xs.len();
        proof {
            lemma_fr_order_pos();
            assert(xv[0] == xs@[0].val());
            assert(yv[0] == ys@[0].val());
            assert forall|i: int, j: int| 0 <= i < j < xv.len() implies xv[i] != xv[j] by {
                assert(xv[i] == xs@[i].val());
                assert(xv[j] == xs@[j].val());
            }
        }
        let mut poly = Polynomial::from_scalar(ys[0]);
        let c0 = fr_sub(&fr_zero(), &xs[0]);
        let mut bc: Vec<Fr> = Vec::new();
        bc.push(c0);
        bc.push(fr_one());
        let mut base = Polynomial::new_from_coeffs(bc, 1);
        proof {
            // the initial polynomial interpolates the first point
            assert(poly.active() =~= seq![ys@[0].val()]);
            assert(poly.active().subrange(1, 1).len() == 0);
            assert(eval_at(poly.active().subrange(1, 1), xv[0]) == 0);
            lemma_mul_basics(xv[0] as int);
            lemma_small_mod(yv[0], fr_order());
            assert(eval_at(poly.active(), xv[0]) == yv[0]);
            // the initial base is the first linear factor
            assert(base.active() =~= lin_vals(xv[0]));
            assert(base.active() == vanishing(xv, 1));
        }
        let mut k: usize = 1;
        while k < len
            invariant
                len == xs@.len(),
                xs@.len() == ys@.len(),
                xs@.len() + 2 <= usize::MAX,
                xv == fr_vals(xs@),
                yv == fr_vals(ys@),
                all_below(xv, fr_order()),
                all_below(yv, fr_order()),
                forall|i: int, j: int| 0 <= i < j < xv.len() ==> xv[i] != xv[j],
                1 <= k <= len,
                poly.wf(),
                poly.degree < k,
                base.wf(),
                base.degree == k,
                base.coeffs@.len() == k + 1,
                base.active() == vanishing(xv, k as int),
                forall|j: int| 0 <= j < k ==>
                    eval_at(poly.active(), #[trigger] xv[j]) == yv[j],
            decreases len - k,
        {
            let ghost xkv = xv[k as int];
            let ghost ykv = yv[k as int];
            proof {
                assert(xs@[k as int].val() == xv[k as int]);
                assert(ys@[k as int].val() == yv[k as int]);
                lemma_vanishing_props(xv, k as int);
            }
            let x = xs[k];
            let y = ys[k];
            // the base's value at the new point is the product of its
            // differences from the earlier points; recomputing it factor by
            // factor shows it nonzero (distinct points give nonzero factors,
            // and a product of nonzero field elements is nonzero), which
            // licenses the inversion below
            let mut acc = fr_one();
            let mut t: usize = 0;
            while t < k
                invariant
                    t <= k,
                    k < len,
                    len == xs@.len(),
                    xv == fr_vals(xs@),
                    all_below(xv, fr_order()),
                    forall|i: int, j: int| 0 <= i < j < xv.len() ==> xv[i] != xv[j],
                    x == xs@[k as int],
                    xkv == xv[k as int],
                    acc.wf(),
                    acc.val() == diff_prod(xv, t as int, xkv),
                    acc.val() != 0,
                decreases k - t,
            {
                proof {
                    lemma_fr_vals_index(xs@, t as int);
                    lemma_fr_vals_index(xs@, k as int);
                    lemma_diff_nonzero(xkv, xv[t as int]);
                }
                let f = fr_sub(&x, &xs[t]);
                acc = fr_mul(&acc, &f);
                t += 1;
            }
            let bx = base.eval(x);
            proof {
                assert(bx.val() == eval_at(vanishing(xv, k as int), xkv));
                lemma_vanishing_eval_product(xv, k as int, xkv);
                assert(bx.val() == acc.val());
                assert(bx.val() != 0);
            }
            let binv = fr_inverse(&bx);
            let px = poly.eval(x);
            let diff = fr_mul(&fr_sub(&y, &px), &binv);
            let ghost oldpoly = poly;
            let scaled = base.mul_scalar(&diff);
            proof {
                // the scaled base evaluates to diff times the base evaluation
                if diff.val() != 0 {
                    assert forall|i: int| 0 <= i < scaled.active().len() implies
                        scaled.active()[i] == seq_scale(base.active(), diff.val())[i] by {
                        assert(scaled.active()[i] == scaled.vals()[i]);
                        assert(scaled.vals()[i] == (base.vals()[i] * diff.val()) % fr_order());
                        assert(base.active()[i] == base.vals()[i]);
                        assert(base.vals()[i] * diff.val() == diff.val() * base.vals()[i])
                            by (nonlinear_arith);
                    }
                    assert(scaled.active() =~= seq_scale(base.active(), diff.val()));
                }
            }
            poly = poly.add(scaled);
            proof {
                lemma_active_below(oldpoly);
                lemma_active_below(scaled);
                lemma_active_below(base);
                // evaluation of the scaled base at any reduced point
                assert forall|z: nat| z < fr_order() implies
                    eval_at(scaled.active(), z) ==
                        (diff.val() * eval_at(base.active(), z)) % fr_order() by {
                    if diff.val() == 0 {
                        assert(scaled.active() =~= seq![0nat]);
                        assert(scaled.active().subrange(1, 1).len() == 0);
                        assert(eval_at(scaled.active().subrange(1, 1), z) == 0);
                        lemma_mul_basics(z as int);
                        lemma_small_mod(0, fr_order());
                        assert(eval_at(scaled.active(), z) == 0);
                        lemma_mul_basics(eval_at(base.active(), z) as int);
                    } else {
                        lemma_eval_scale(base.active(), diff.val(), z);
                    }
                }
                // the old sample points keep their values
                assert forall|j: int| 0 <= j < k implies
                    eval_at(poly.active(), #[trigger] xv[j]) == yv[j] by {
                    lemma_eval_add(oldpoly.active(), scaled.active(), xv[j]);
                    assert(eval_at(base.active(), xv[j]) == 0);
                    lemma_mul_basics(diff.val() as int);
                    lemma_small_mod(0, fr_order());
                    assert(eval_at(scaled.active(), xv[j]) == 0);
                    lemma_small_mod(yv[j], fr_order());
                    assert(eval_at(poly.active(), xv[j]) == (yv[j] + 0) % fr_order());
                }
                // and the new sample point gains its value
                lemma_eval_add(oldpoly.active(), scaled.active(), xkv);
                let pxv = px.val();
                let bxv = bx.val();
                let biv = binv.val();
                let a = (ykv + fr_order() - pxv) as int;
                // diff is congruent to (y - p(x)) / base(x)
                lemma_cong_mod(a);
                lemma_cong_mul((a % (fr_order() as int)), a, biv as int, biv as int);
                lemma_cong_mod(((a % (fr_order() as int)) * biv) as int);
                assert(congruent(diff.val() as int, a * biv));
                // multiplying by base(x) cancels the inverse
                lemma_cong_mul(diff.val() as int, a * biv, bxv as int, bxv as int);
                assert((a * biv) * bxv == a * (biv * bxv)) by (nonlinear_arith);
                lemma_cong_mod((biv * bxv) as int);
                lemma_small_cong(1);
                assert(congruent((biv * bxv) as int, 1));
                lemma_cong_mul(a, a, (biv * bxv) as int, 1);
                assert(a * 1 == a) by (nonlinear_arith);
                assert(congruent((diff.val() * bxv) as int, a));
                // so the correction adds exactly y - p(x)
                lemma_cong_mod((diff.val() * bxv) as int);
                assert(eval_at(scaled.active(), xkv) == (diff.val() * bxv) % fr_order());
                lemma_cong_add(pxv as int, pxv as int,
                    eval_at(scaled.active(), xkv) as int, a);
                assert(pxv + a == (ykv + fr_order()) as int);
                lemma_cong_shift(ykv as int);
                assert(congruent((pxv + eval_at(scaled.active(), xkv)) as int, ykv as int));
                lemma_eval_bound(poly.active(), xkv);
                lemma_cong_mod((pxv + eval_at(scaled.active(), xkv)) as int);
                lemma_cong_reduced(eval_at(poly.active(), xkv), ykv);
                assert(eval_at(poly.active(), xkv) == ykv);
            }
            let nc = fr_sub(&fr_zero(), &x);
            let mut lc: Vec<Fr> = Vec::new();
            lc.push(nc);
            lc.push(fr_one());
            let lin = Polynomial::new_from_coeffs(lc, 1);
            let ghost oldbase = base;
            base = base.mul(&lin);
            proof {
                assert(lin.active() =~= lin_vals(xkv));
                assert(base.vals() =~= seq_conv(oldbase.active(), lin_vals(xkv)));
                assert(base.coeffs@.len() == k + 2);
                assert(base.active() =~= base.vals());
                assert(base.active() =~= vanishing(xv, k + 1));
            }
            k += 1;
        }
        proof {
            assert forall|j: int| 0 <= j < xs@.len() implies
                eval_at(poly.active(), #[trigger] xs@[j].val()) == ys@[j].val() by {
                assert(xs@[j].val() == xv[j]);
                assert(ys@[j].val() == yv[j]);
            }
        }
        poly
    }

    /// Horner's method from the leading coefficient down.
    pub fn eval(&self, x: Fr) -> (r: Fr)
        requires
            self.wf(),
            x.wf(),
        ensures
            r.wf(),
            r.val() == eval_at(self.active(), x.val()),
    {
        let d = self.degree;
        let ghost a = self.active();
        let mut res = self.coeffs[d];
        proof {
            lemma_coeff_val(*self, d as int);
            let s0 = a.subrange(d as int, d + 1);
            assert(s0.len() == 1);
            assert(s0.subrange(1, s0.len() as int).len() == 0);
            assert(eval_at(s0.subrange(1, s0.len() as int), x.val()) == 0);
            assert(eval_at(s0, x.val()) == (s0[0] + x.val() * 0) % fr_order());
            assert(s0[0] == self.vals()[d as int]);
            lemma_small_mod(self.vals()[d as int], fr_order());
        }
        let mut i = d;
        while i > 0
            invariant
                self.wf(),
                x.wf(),
                res.wf(),
                i <= d,
                d == self.degree,
                a == self.active(),
                res.val() == eval_at(a.subrange(i as int, d + 1), x.val()),
            decreases i,
        {
            i -= 1;
            proof {
                lemma_coeff_val(*self, i as int);
            }
            let t = fr_mul(&res, &x);
            let c = self.coeffs[i];
            let ghost prev = res.val();
            res = fr_add(&t, &c);
            proof {
                let s = a.subrange(i as int, d + 1);
                assert(s.subrange(1, s.len() as int) =~= a.subrange(i + 1, d + 1));
                assert(s[0] == self.vals()[i as int]);
                lemma_small_mod(self.vals()[i as int], fr_order());
                lemma_add_mod_noop((x.val() * prev) as int, self.vals()[i as int] as int, fr_order() as int);
            }
        }
        proof {
            assert(a.subrange(0, d + 1) =~= a);
        }
        res
    }

    /// Adds `addend`'s coefficients up to its degree into `host`, which
    /// must be at least as wide; the degree is never shrunk.
    fn add_prefix(host: Polynomial, addend: &Polynomial) -> (r: Polynomial)
        requires
            host.wf(),
            addend.wf(),
            addend.degree <= host.degree,
        ensures
            r.wf(),
            r.degree == host.degree,
            r.vals() =~= add_into(host.vals(), addend.vals(), addend.degree as int),
    {
        let mut res = host;
        let ghost h = res.vals();
        let ghost hdeg = res.degree;
        let n = addend.num_coeffs();
        let mut i: usize = 0;
        while i < n
            invariant
                res.wf(),
                all_below(h, fr_order()),
                addend.wf(),
                n == addend.degree + 1,
                addend.degree <= res.degree,
                i <= n,
                res.coeffs@.len() == h.len(),
                h == Seq::new(h.len(), |j: int| h[j]),
                forall|j: int| 0 <= j < i ==> res.vals()[j] == (h[j] + addend.vals()[j]) % fr_order(),
                forall|j: int| i <= j < h.len() ==> res.vals()[j] == h[j],
                res.degree == hdeg,
            decreases n - i,
        {
            proof {
                lemma_coeff_val(res, i as int);
                lemma_coeff_val(*addend, i as int);
                assert(res.coeffs@[i as int].val() == h[i as int]);
            }
            let sum = fr_add(&res.coeffs[i], &addend.coeffs[i]);
            let ghost prev = res;
            res.coeffs[i] = sum;
            proof {
                assert forall|j: int| 0 <= j < res.coeffs@.len() implies res.vals()[j] == (
                    if j == i as int { sum.val() } else { prev.vals()[j] }) by {
                    lemma_coeff_val(res, j);
                    lemma_coeff_val(prev, j);
                }
            }
            i += 1;
        }
        res
    }

    /// Addition: the result takes the higher degree; cancellation is never
    /// shrunk away.
    pub fn add(self, rhs: Polynomial) -> (r: Polynomial)
        requires
            self.wf(),
            rhs.wf(),
        ensures
            r.wf(),
            r.degree == if rhs.degree > self.degree { rhs.degree as int } else { self.degree as int },
            r.vals() =~= if rhs.degree > self.degree {
                add_into(rhs.vals(), self.vals(), self.degree as int)
            } else {
                add_into(self.vals(), rhs.vals(), rhs.degree as int)
            },
            r.active() =~= seq_add_full(self.active(), rhs.active()),
    {
        let ghost gself = self;
        let ghost grhs = rhs;
        let r = if rhs.degree() > self.degree() {
            Self::add_prefix(rhs, &self)
        } else {
            Self::add_prefix(self, &rhs)
        };
        proof {
            lemma_add_into_active(gself, grhs, r);
        }
        r
    }

    /// Subtraction; unlike addition, the result's degree is recomputed, so
    /// cancellation is reflected at once.
    pub fn sub(&self, rhs: &Polynomial) -> (r: Polynomial)
        requires
            self.wf(),
            rhs.wf(),
        ensures
            r.wf(),
            r.degree_ok(),
            r.vals() =~= sub_vals(*self, *rhs),
            r.degree == top_nonzero(sub_vals(*self, *rhs), sub_pre_degree(*self, *rhs)),
    {
        let mut coeffs = copy_coeffs(&self.coeffs);
        let mut degree = self.degree;
        let nb = rhs.num_coeffs();
        let sd = self.num_coeffs();
        if nb > sd {
            coeffs.truncate(nb);
            proof {
                assert forall|j: int| 0 <= j < coeffs@.len() implies
                    coeffs@[j].val() == coeff_at(self.vals(), j) by {
                    lemma_coeff_val(*self, j);
                }
            }
            while coeffs.len() < nb
                invariant
                    coeffs@.len() <= nb,
                    coeffs@.len() >= nb || coeffs@.len() >= self.coeffs@.len(),
                    forall|j: int| 0 <= j < coeffs@.len() ==>
                        coeffs@[j].val() == coeff_at(self.vals(), j),
                decreases nb - coeffs@.len(),
            {
                coeffs.push(fr_zero());
            }
            degree = rhs.degree;
        }
        let ghost base = Seq::new(coeffs@.len(), |i: int| coeffs@[i].val());
        proof {
            if nb > sd {
                assert(base =~= Seq::new((rhs.degree + 1) as nat, |i: int| coeff_at(self.vals(), i)));
            } else {
                assert(coeffs@ == self.coeffs@);
                assert(base =~= self.vals());
            }
            assert forall|j: int| 0 <= j < base.len() implies base[j] < fr_order() by {
                if 0 <= j < self.coeffs@.len() {
                    lemma_coeff_val(*self, j);
                }
            }
        }
        let mut i: usize = 0;
        while i < nb
            invariant
                rhs.wf(),
                nb == rhs.degree + 1,
                nb <= coeffs@.len(),
                i <= nb,
                coeffs@.len() == base.len(),
                forall|j: int| 0 <= j < i ==>
                    coeffs@[j].val() == ((base[j] + fr_order() - rhs.vals()[j]) as nat) % fr_order(),
                forall|j: int| i <= j < base.len() ==> coeffs@[j].val() == base[j],
                all_below(base, fr_order()),
            decreases nb - i,
        {
            proof {
                lemma_coeff_val(*rhs, i as int);
                assert(coeffs@[i as int].val() == base[i as int]);
            }
            let dif = fr_sub(&coeffs[i], &rhs.coeffs[i]);
            coeffs[i] = dif;
            i += 1;
        }
        let mut res = Polynomial { degree, coeffs };
        proof {
            assert(res.vals() =~= sub_vals(*self, *rhs));
        }
        res.shrink_degree();
        res
    }

    /// Scalar multiplication; a zero scalar short-circuits to the canonical
    /// zero polynomial.
    pub fn mul_scalar(&self, rhs: &Fr) -> (r: Polynomial)
        requires
            self.wf(),
            rhs.wf(),
        ensures
            r.wf(),
            rhs.val() == 0 ==> r.degree == 0 && r.vals() =~= seq![0nat],
            rhs.val() != 0 ==> r.degree == self.degree
                && r.vals() =~= seq_scale(self.vals(), rhs.val()),
    {
        proof {
            lemma_fr_zero_limbs(*rhs);
        }
        if *rhs == fr_zero() {
            return Self::new_zero();
        }
        let mut coeffs: Vec<Fr> = Vec::new();
        let len = self.coeffs.len();
        let mut i: usize = 0;
        while i < len
            invariant
                self.wf(),
                rhs.wf(),
                len == self.coeffs@.len(),
                i <= len,
                coeffs@.len() == i,
                forall|j: int| 0 <= j < i ==>
                    coeffs@[j].val() == (self.vals()[j] * rhs.val()) % fr_order(),
                forall|j: int| 0 <= j < i ==> coeffs@[j].wf(),
            decreases len - i,
        {
            proof {
                lemma_coeff_val(*self, i as int);
            }
            coeffs.push(fr_mul(&self.coeffs[i], rhs));
            i += 1;
        }
        let r = Polynomial { degree: self.degree, coeffs };
        proof {
            assert(r.vals() =~= seq_scale(self.vals(), rhs.val()));
        }
        r
    }

    /// Full naive convolution into a freshly sized zero buffer; the degree
    /// is the sum of the operands' degrees, not shrunk.
    pub fn mul(&self, rhs: &Polynomial) -> (r: Polynomial)
        requires
            self.wf(),
            rhs.wf(),
            self.degree + rhs.degree < usize::MAX,
        ensures
            r.wf(),
            r.degree == self.degree + rhs.degree,
            r.vals() =~= seq_conv(self.active(), rhs.active()),
    {
        let ghost av = self.active();
        let ghost bv = rhs.active();
        let d = self.degree + rhs.degree;
        let buf = Self::new_zero_with_size(d + 1);
        let mut coeffs = buf.coeffs;
        let n1 = self.num_coeffs();
        let n2 = rhs.num_coeffs();
        proof {
            assert forall|k: int| 0 <= k <= d implies
                coeffs@[k].val() == conv_sum(av, bv, k, 0) % fr_order() by {
                lemma_coeff_val(buf, k);
                assert(buf.vals()[k] == 0);
                assert(conv_sum(av, bv, k, 0) == 0);
            }
        }
        let mut i: usize = 0;
        while i < n1
            invariant
                self.wf(),
                rhs.wf(),
                av == self.active(),
                bv == rhs.active(),
                n1 == self.degree + 1,
                n2 == rhs.degree + 1,
                d == self.degree + rhs.degree,
                d < usize::MAX,
                i <= n1,
                coeffs@.len() == d + 1,
                forall|k: int| 0 <= k <= d ==>
                    coeffs@[k].val() == conv_sum(av, bv, k, i as int) % fr_order(),
                forall|k: int| 0 <= k <= d ==> coeffs@[k].wf(),
            decreases n1 - i,
        {
            let mut j: usize = 0;
            while j < n2
                invariant
                    self.wf(),
                    rhs.wf(),
                    av == self.active(),
                    bv == rhs.active(),
                    n1 == self.degree + 1,
                    n2 == rhs.degree + 1,
                    d == self.degree + rhs.degree,
                    d < usize::MAX,
                    i < n1,
                    j <= n2,
                    coeffs@.len() == d + 1,
                    forall|k: int| 0 <= k <= d ==> coeffs@[k].val() == (
                        if i <= k < i + j {
                            (conv_sum(av, bv, k, i as int) + av[i as int] * bv[k - i]) % fr_order()
                        } else {
                            conv_sum(av, bv, k, i as int) % fr_order()
                        }),
                    forall|k: int| 0 <= k <= d ==> coeffs@[k].wf(),
                decreases n2 - j,
            {
                let k = i + j;
                proof {
                    lemma_coeff_val(*self, i as int);
                    lemma_coeff_val(*rhs, j as int);
                }
                let t = fr_mul(&self.coeffs[i], &rhs.coeffs[j]);
                let sum = fr_add(&coeffs[k], &t);
                proof {
                    lemma_add_mod_noop(
                        conv_sum(av, bv, k as int, i as int) as int,
                        (av[i as int] * bv[j as int]) as int,
                        fr_order() as int,
                    );
                    assert(av[i as int] == self.vals()[i as int]);
                    assert(bv[j as int] == rhs.vals()[j as int]);
                }
                coeffs[k] = sum;
                j += 1;
            }
            proof {
                assert(av.len() == n1);
                assert(bv.len() == n2);
                assert forall|k: int| 0 <= k <= d implies
                    coeffs@[k].val() == conv_sum(av, bv, k, i + 1) % fr_order() by {
                    assert(conv_sum(av, bv, k, i + 1) ==
                        conv_sum(av, bv, k, i as int) + coeff_at(av, i as int) * coeff_at(bv, k - i));
                    assert(coeff_at(av, i as int) == av[i as int]);
                    if i <= k < i + n2 {
                        assert(coeff_at(bv, k - i) == bv[k - i]);
                        assert(coeffs@[k].val() ==
                            (conv_sum(av, bv, k, i as int) + av[i as int] * bv[k - i]) % fr_order());
                        assert(conv_sum(av, bv, k, i + 1) ==
                            conv_sum(av, bv, k, i as int) + av[i as int] * bv[k - i]);
                        assert(coeffs@[k].val() == conv_sum(av, bv, k, i + 1) % fr_order());
                    } else {
                        assert(coeff_at(bv, k - i) == 0);
                        lemma_mul_basics(coeff_at(av, i as int) as int);
                        assert(coeff_at(av, i as int) * coeff_at(bv, k - i) == 0);
                        assert(conv_sum(av, bv, k, i + 1) == conv_sum(av, bv, k, i as int));
                        assert(coeffs@[k].val() == conv_sum(av, bv, k, i as int) % fr_order());
                        assert(coeffs@[k].val() == conv_sum(av, bv, k, i + 1) % fr_order());
                    }
                }
            }
            i += 1;
        }
        let r = Polynomial { degree: d, coeffs };
        proof {
            assert(r.vals() =~= seq_conv(av, bv));
        }
        r
    }
}

/// Copies a coefficient vector element by element.
fn copy_coeffs(v: &Vec<Fr>) -> (r: Vec<Fr>)
    ensures
        r@ == v@,
{
    let mut out: Vec<Fr> = Vec::new();
    let len = v.len();
    let mut i: usize = 0;
    while i < len
        invariant
            len == v@.len(),
            i <= len,
            out@.len() == i,
            forall|j: int| 0 <= j < i ==> out@[j] == v@[j],
        decreases len - i,
    {
        out.push(v[i]);
        i += 1;
    }
    proof {
        assert(out@ =~= v@);
    }
    out
}

/// The prefix sum picture of `add`: up to the shorter degree both actives
/// contribute, above it the longer active stands alone.
proof fn lemma_add_into_active(a: Polynomial, b: Polynomial, r: Polynomial)
    requires
        a.wf(),
        b.wf(),
        r.degree == if b.degree > a.degree { b.degree as int } else { a.degree as int },
        r.vals() =~= if b.degree > a.degree {
            add_into(b.vals(), a.vals(), a.degree as int)
        } else {
            add_into(a.vals(), b.vals(), b.degree as int)
        },
    ensures
        r.active() =~= seq_add_full(a.active(), b.active()),
{
    let lhs = r.active();
    let rhs = seq_add_full(a.active(), b.active());
    assert(lhs.len() == rhs.len());
    assert forall|i: int| 0 <= i < lhs.len() implies lhs[i] == rhs[i] by {
        let lo = if b.degree > a.degree { a.degree as int } else { b.degree as int };
        if i <= lo {
            assert(coeff_at(a.active(), i) == a.vals()[i]);
            assert(coeff_at(b.active(), i) == b.vals()[i]);
        } else {
            if b.degree > a.degree {
                assert(coeff_at(a.active(), i) == 0);
                assert(coeff_at(b.active(), i) == b.vals()[i]);
                lemma_small_mod(b.vals()[i], fr_order());
            } else {
                assert(coeff_at(b.active(), i) == 0);
                assert(coeff_at(a.active(), i) == a.vals()[i]);
                lemma_small_mod(a.vals()[i], fr_order());
            }
        }
    }
}

/// The evaluation of any coefficient sequence is reduced.
pub proof fn lemma_eval_bound(s: Seq<nat>, x: nat)
    ensures
        eval_at(s, x) < fr_order(),
{
    lemma_fr_order_pos();
    if s.len() == 0 {
    } else {
        lemma_cong_mod((s[0] + x * eval_at(s.subrange(1, s.len() as int), x)) as int);
    }
}

/// The entries of a polynomial's active part are reduced.
pub proof fn lemma_active_below(p: Polynomial)
    requires
        p.wf(),
    ensures
        all_below(p.active(), fr_order()),
        p.active().len() == p.degree + 1,
{
    assert forall|i: int| 0 <= i < p.active().len() implies p.active()[i] < fr_order() by {
        assert(p.active()[i] == p.vals()[i]);
    }
}

/// Evaluation distributes over pointwise addition.
pub proof fn lemma_eval_add(a: Seq<nat>, b: Seq<nat>, x: nat)
    requires
        all_below(a, fr_order()),
        all_below(b, fr_order()),
    ensures
        eval_at(seq_add_full(a, b), x) == (eval_at(a, x) + eval_at(b, x)) % fr_order(),
    decreases a.len() + b.len(),
{
    lemma_fr_order_pos();
    let m = fr_order() as int;
    let s = seq_add_full(a, b);
    if a.len() == 0 && b.len() == 0 {
        assert(s.len() == 0);
        lemma_small_cong(0);
    } else if b.len() == 0 {
        assert forall|i: int| 0 <= i < s.len() implies s[i] == a[i] by {
            assert(coeff_at(b, i) == 0);
            lemma_small_mod(a[i], fr_order());
        }
        assert(s =~= a);
        lemma_eval_bound(a, x);
        lemma_small_cong(eval_at(a, x));
    } else if a.len() == 0 {
        assert forall|i: int| 0 <= i < s.len() implies s[i] == b[i] by {
            assert(coeff_at(a, i) == 0);
            lemma_small_mod(b[i], fr_order());
        }
        assert(s =~= b);
        lemma_eval_bound(b, x);
        lemma_small_cong(eval_at(b, x));
    } else {
        let ta = a.subrange(1, a.len() as int);
        let tb = b.subrange(1, b.len() as int);
        lemma_eval_add(ta, tb, x);
        assert(s.subrange(1, s.len() as int) =~= seq_add_full(ta, tb));
        let ea = eval_at(a, x);
        let eb = eval_at(b, x);
        let eta = eval_at(ta, x);
        let etb = eval_at(tb, x);
        // the head of s is (a[0] + b[0]) % m and its tail evaluates to (eta + etb) % m
        assert(eval_at(s, x) ==
            ((a[0] + b[0]) % fr_order() + x * ((eta + etb) % fr_order())) % fr_order());
        let inner = (a[0] + b[0]) % fr_order() + x * ((eta + etb) % fr_order());
        // inner is congruent to a[0] + b[0] + x * (eta + etb)
        lemma_cong_mod((a[0] + b[0]) as int);
        lemma_cong_mod((eta + etb) as int);
        lemma_cong_mul(x as int, x as int, ((eta + etb) % fr_order()) as int, (eta + etb) as int);
        lemma_cong_add(((a[0] + b[0]) % fr_order()) as int, (a[0] + b[0]) as int,
            (x * ((eta + etb) % fr_order())) as int, (x * (eta + etb)) as int);
        assert(congruent(inner as int, (a[0] + b[0] + x * (eta + etb)) as int));
        // regroup into the two Horner sums
        assert(a[0] + b[0] + x * (eta + etb) == (a[0] + x * eta) + (b[0] + x * etb))
            by (nonlinear_arith);
        // each Horner sum is congruent to its reduced evaluation
        lemma_cong_mod((a[0] + x * eta) as int);
        lemma_cong_mod((b[0] + x * etb) as int);
        lemma_cong_add((a[0] + x * eta) as int, ea as int, (b[0] + x * etb) as int, eb as int);
        assert(congruent(inner as int, (ea + eb) as int));
        lemma_mod_twice(inner as int, m);
        assert(eval_at(s, x) == inner % fr_order());
    }
}

/// Evaluation commutes with scaling by a constant.
pub proof fn lemma_eval_scale(a: Seq<nat>, c: nat, x: nat)
    requires
        all_below(a, fr_order()),
    ensures
        eval_at(seq_scale(a, c), x) == (c * eval_at(a, x)) % fr_order(),
    decreases a.len(),
{
    lemma_fr_order_pos();
    let s = seq_scale(a, c);
    if a.len() == 0 {
        lemma_mul_basics(c as int);
        lemma_small_cong(0);
    } else {
        let ta = a.subrange(1, a.len() as int);
        lemma_eval_scale(ta, c, x);
        assert(s.subrange(1, s.len() as int) =~= seq_scale(ta, c));
        let ea = eval_at(a, x);
        let eta = eval_at(ta, x);
        assert(eval_at(s, x) ==
            ((a[0] * c) % fr_order() + x * ((c * eta) % fr_order())) % fr_order());
        let inner = (a[0] * c) % fr_order() + x * ((c * eta) % fr_order());
        lemma_cong_mod((a[0] * c) as int);
        lemma_cong_mod((c * eta) as int);
        lemma_cong_mul(x as int, x as int, ((c * eta) % fr_order()) as int, (c * eta) as int);
        lemma_cong_add(((a[0] * c) % fr_order()) as int, (a[0] * c) as int,
            (x * ((c * eta) % fr_order())) as int, (x * (c * eta)) as int);
        assert(congruent(inner as int, (a[0] * c + x * (c * eta)) as int));
        assert(a[0] * c + x * (c * eta) == c * (a[0] + x * eta)) by (nonlinear_arith);
        lemma_cong_mod((a[0] + x * eta) as int);
        lemma_cong_mul(c as int, c as int, (a[0] + x * eta) as int, ea as int);
        assert(congruent(inner as int, (c * ea) as int));
        lemma_mod_twice(inner as int, fr_order() as int);
        assert(eval_at(s, x) == inner % fr_order());
    }
}

/// A convolution sum at a negative index is zero.
pub proof fn lemma_conv_sum_neg(a: Seq<nat>, b: Seq<nat>, k: int, n: int)
    requires
        k < 0,
    ensures
        conv_sum(a, b, k, n) == 0,
    decreases n,
{
    if n > 0 {
        lemma_conv_sum_neg(a, b, k, n - 1);
        assert(coeff_at(b, k - (n - 1)) == 0);
        lemma_mul_basics(coeff_at(a, n - 1) as int);
    }
}

/// Peeling the constant coefficient off the left factor of a convolution.
pub proof fn lemma_conv_sum_cons(a: Seq<nat>, b: Seq<nat>, k: int, n: int)
    requires
        a.len() >= 1,
        1 <= n,
    ensures
        conv_sum(a, b, k, n) ==
            coeff_at(a, 0) * coeff_at(b, k)
            + conv_sum(a.subrange(1, a.len() as int), b, k - 1, n - 1),
    decreases n,
{
    let ta = a.subrange(1, a.len() as int);
    if n == 1 {
        assert(conv_sum(a, b, k, 0) == 0);
        assert(conv_sum(ta, b, k - 1, 0) == 0);
    } else {
        lemma_conv_sum_cons(a, b, k, n - 1);
        assert(coeff_at(a, n - 1) == coeff_at(ta, n - 2));
        assert(conv_sum(ta, b, k - 1, n - 1) ==
            conv_sum(ta, b, k - 1, n - 2) + coeff_at(ta, n - 2) * coeff_at(b, (k - 1) - (n - 2)));
    }
}

/// Evaluation turns convolution into multiplication.
pub proof fn lemma_eval_conv(a: Seq<nat>, b: Seq<nat>, x: nat)
    requires
        a.len() >= 1,
        b.len() >= 1,
        all_below(a, fr_order()),
        all_below(b, fr_order()),
    ensures
        eval_at(seq_conv(a, b), x) == (eval_at(a, x) * eval_at(b, x)) % fr_order(),
    decreases a.len(),
{
    lemma_fr_order_pos();
    let m = fr_order() as int;
    let s = seq_conv(a, b);
    let eb = eval_at(b, x);
    if a.len() == 1 {
        assert forall|k: int| 0 <= k < s.len() implies s[k] == seq_scale(b, a[0])[k] by {
            assert(conv_sum(a, b, k, 1) == conv_sum(a, b, k, 0) + coeff_at(a, 0) * coeff_at(b, k));
            assert(coeff_at(b, k) == b[k]);
            assert(a[0] * b[k] == b[k] * a[0]) by (nonlinear_arith);
        }
        assert(s =~= seq_scale(b, a[0]));
        lemma_eval_scale(b, a[0], x);
        // the evaluation of the single-entry a is its constant
        assert(a.subrange(1, 1).len() == 0);
        lemma_mul_basics(x as int);
        assert(eval_at(a, x) == (a[0] + x * 0) % fr_order());
        lemma_small_mod(a[0], fr_order());
        assert(eval_at(a, x) == a[0]);
    } else {
        let ta = a.subrange(1, a.len() as int);
        lemma_eval_conv(ta, b, x);
        let sc = seq_scale(b, a[0]);
        let tconv = seq_conv(ta, b);
        let shifted = seq![0nat] + tconv;
        assert(shifted.len() == s.len());
        assert forall|k: int| 0 <= k < s.len() implies s[k] == seq_add_full(sc, shifted)[k] by {
            lemma_conv_sum_cons(a, b, k, a.len() as int);
            assert(conv_sum(a, b, k, a.len() as int) ==
                a[0] * coeff_at(b, k) + conv_sum(ta, b, k - 1, ta.len() as int));
            if k == 0 {
                lemma_conv_sum_neg(ta, b, k - 1, ta.len() as int);
                assert(coeff_at(shifted, 0) == 0);
                lemma_mod_twice((a[0] * b[0]) as int, m);
                lemma_small_mod(0, fr_order());
            } else {
                assert(coeff_at(shifted, k) == conv_sum(ta, b, k - 1, ta.len() as int) % fr_order());
                if k < b.len() {
                    assert(coeff_at(b, k) == b[k]);
                    assert(a[0] * b[k] == b[k] * a[0]) by (nonlinear_arith);
                    assert(coeff_at(sc, k) == (a[0] * coeff_at(b, k)) % fr_order());
                } else {
                    assert(coeff_at(b, k) == 0);
                    lemma_mul_basics(a[0] as int);
                    assert(coeff_at(sc, k) == 0);
                    lemma_small_mod(0, fr_order());
                    assert(coeff_at(sc, k) == (a[0] * coeff_at(b, k)) % fr_order());
                }
                lemma_add_mod_noop((a[0] * coeff_at(b, k)) as int,
                    conv_sum(ta, b, k - 1, ta.len() as int) as int, m);
            }
        }
        assert(s =~= seq_add_full(sc, shifted));
        assert(all_below(sc, fr_order()));
        assert forall|i: int| 0 <= i < shifted.len() implies shifted[i] < fr_order() by {
            if i > 0 {
                assert(shifted[i] == tconv[i - 1]);
            }
        }
        lemma_eval_add(sc, shifted, x);
        lemma_eval_scale(b, a[0], x);
        // the shifted sequence evaluates to x times the tail convolution
        assert(shifted.subrange(1, shifted.len() as int) =~= tconv);
        assert(eval_at(shifted, x) == (0 + x * eval_at(tconv, x)) % fr_order());
        let ea = eval_at(a, x);
        let eta = eval_at(ta, x);
        // assemble the congruence chain
        let esc = eval_at(sc, x);
        let esh = eval_at(shifted, x);
        assert(eval_at(s, x) == (esc + esh) % fr_order());
        lemma_cong_mod((a[0] * eb) as int);
        lemma_cong_mod((x * eval_at(tconv, x)) as int);
        lemma_cong_mod((eta * eb) as int);
        lemma_cong_mul(x as int, x as int, eval_at(tconv, x) as int, (eta * eb) as int);
        assert(congruent(esh as int, (x * (eta * eb)) as int));
        lemma_cong_add(esc as int, (a[0] * eb) as int, esh as int, (x * (eta * eb)) as int);
        assert(congruent((esc + esh) as int, (a[0] * eb + x * (eta * eb)) as int));
        assert(a[0] * eb + x * (eta * eb) == (a[0] + x * eta) * eb) by (nonlinear_arith);
        lemma_cong_mod((a[0] + x * eta) as int);
        lemma_cong_mul((a[0] + x * eta) as int, ea as int, eb as int, eb as int);
        assert(congruent((esc + esh) as int, (ea * eb) as int));
        lemma_mod_twice((esc + esh) as int, m);
    }
}

/// The values of a sequence of field elements.
pub open spec fn fr_vals(s: Seq<Fr>) -> Seq<nat> {
    Seq::new(s.len(), |i: int| s[i].val())
}


/// Reading the value sequence of a coefficient vector at an index reads the
/// coefficient there; under the bound on the values, that coefficient is in
/// canonical form.
pub proof fn lemma_fr_vals_index(s: Seq<Fr>, i: int)
    requires
        0 <= i < s.len(),
    ensures
        fr_vals(s)[i] == s[i].val(),
        all_below(fr_vals(s), fr_order()) ==> s[i].wf(),
{
    assert(fr_vals(s)[i] == s[i].val());
    if all_below(fr_vals(s), fr_order()) {
        assert(fr_vals(s)[i] < fr_order());
    }
}

/// The product of the reduced differences `z - xs[t]` over `t < k`, modulo
/// the field order: the value the vanishing polynomial of the first `k`
/// points takes at `z`.
pub open spec fn diff_prod(xs: Seq<nat>, k: int, z: nat) -> nat
    decreases k,
{
    if k <= 0 {
        1
    } else {
        (diff_prod(xs, k - 1, z) * (((z + fr_order() - xs[k - 1]) as nat) % fr_order()))
            % fr_order()
    }
}

/// Two distinct reduced values have a nonzero reduced difference.
pub proof fn lemma_diff_nonzero(a: nat, b: nat)
    requires
        a < fr_order(),
        b < fr_order(),
        a != b,
    ensures
        ((a + fr_order() - b) as nat) % fr_order() != 0,
{
    lemma_fr_order_pos();
    if a > b {
        vstd::arithmetic::div_mod::lemma_mod_add_multiples_vanish((a - b) as int,
            fr_order() as int);
        lemma_small_mod((a - b) as nat, fr_order());
    } else {
        lemma_small_mod((a + fr_order() - b) as nat, fr_order());
    }
}

/// The coefficient values of the monic linear polynomial with root `x`.
pub open spec fn lin_vals(x: nat) -> Seq<nat> {
    seq![((fr_order() - x) as nat) % fr_order(), 1nat]
}

/// The monic polynomial vanishing exactly on the first `k` sample points:
/// the product of the linear factors of their roots.
pub open spec fn vanishing(xs: Seq<nat>, k: int) -> Seq<nat>
    decreases k,
{
    if k <= 1 {
        lin_vals(xs[0])
    } else {
        seq_conv(vanishing(xs, k - 1), lin_vals(xs[k - 1]))
    }
}

/// A monic linear polynomial evaluates to the (reduced) difference from
/// its root; at the root itself it vanishes.
pub proof fn lemma_lin_eval(x: nat, z: nat)
    requires
        x < fr_order(),
        z < fr_order(),
    ensures
        eval_at(lin_vals(x), z) == ((z + fr_order() - x) as nat) % fr_order(),
        all_below(lin_vals(x), fr_order()),
        z == x ==> eval_at(lin_vals(x), z) == 0,
{
    lemma_fr_order_pos();
    let m = fr_order() as int;
    let s = lin_vals(x);
    let c0 = ((fr_order() - x) as nat) % fr_order();
    // the tail [1] evaluates to 1
    let t = s.subrange(1, 2);
    assert(t.len() == 1);
    assert(t[0] == 1);
    assert(t.subrange(1, 1).len() == 0);
    assert(eval_at(t.subrange(1, 1), z) == 0);
    lemma_mul_basics(z as int);
    assert(eval_at(t, z) == (t[0] + z * eval_at(t.subrange(1, t.len() as int), z)) % fr_order());
    assert(t.subrange(1, t.len() as int) =~= t.subrange(1, 1));
    assert(eval_at(t, z) == (1 + z * 0) % fr_order());
    lemma_small_mod(1, fr_order());
    assert(eval_at(t, z) == 1);
    assert(eval_at(s, z) == (c0 + z * 1) % fr_order());
    assert(z * 1 == z) by (nonlinear_arith);
    // c0 + z is congruent to z + order - x
    lemma_cong_mod((fr_order() - x) as int);
    lemma_cong_add(c0 as int, (fr_order() - x) as int, z as int, z as int);
    lemma_cong_mod((c0 + z) as int);
    lemma_cong_mod((z + fr_order() - x) as int);
    assert(congruent((c0 + z) as int, (z + fr_order() - x) as int));
    lemma_mod_twice((c0 + z) as int, m);
    lemma_mod_twice((z + fr_order() - x) as int, m);
    if z == x {
        lemma_cong_shift(0);
        assert(congruent((z + fr_order() - x) as int, 0));
        lemma_small_cong(0);
    }
    assert(0 <= c0 < fr_order());
    lemma_small_mod(1, fr_order());
}

/// The vanishing polynomial of the first `k` points: it is `k + 1` wide,
/// reduced, and evaluates to zero at each of those points.
pub proof fn lemma_vanishing_props(xs: Seq<nat>, k: int)
    requires
        1 <= k <= xs.len(),
        all_below(xs, fr_order()),
    ensures
        vanishing(xs, k).len() == k + 1,
        all_below(vanishing(xs, k), fr_order()),
        forall|j: int| 0 <= j < k ==> eval_at(vanishing(xs, k), xs[j]) == 0,
    decreases k,
{
    lemma_fr_order_pos();
    if k == 1 {
        lemma_lin_eval(xs[0], xs[0]);
    } else {
        lemma_vanishing_props(xs, k - 1);
        let v = vanishing(xs, k - 1);
        let l = lin_vals(xs[k - 1]);
        lemma_lin_eval(xs[k - 1], xs[k - 1]);
        assert(vanishing(xs, k) == seq_conv(v, l));
        assert(seq_conv(v, l).len() == k + 1);
        assert forall|i: int| 0 <= i < seq_conv(v, l).len() implies
            seq_conv(v, l)[i] < fr_order() by {
            lemma_cong_mod(conv_sum(v, l, i, v.len() as int) as int);
        }
        assert forall|j: int| 0 <= j < k implies eval_at(vanishing(xs, k), xs[j]) == 0 by {
            lemma_lin_eval(xs[k - 1], xs[j]);
            lemma_eval_conv(v, l, xs[j]);
            if j < k - 1 {
                assert(eval_at(v, xs[j]) == 0);
                lemma_mul_basics(eval_at(l, xs[j]) as int);
                assert(eval_at(v, xs[j]) * eval_at(l, xs[j]) == 0);
            } else {
                assert(eval_at(l, xs[j]) == 0);
                lemma_mul_basics(eval_at(v, xs[j]) as int);
                assert(eval_at(v, xs[j]) * eval_at(l, xs[j]) == 0);
            }
            lemma_small_mod(0, fr_order());
        }
    }
}

/// The vanishing polynomial of the first `k` points evaluates everywhere
/// to the product of the differences from those points.
pub proof fn lemma_vanishing_eval_product(xs: Seq<nat>, k: int, z: nat)
    requires
        1 <= k <= xs.len(),
        all_below(xs, fr_order()),
        z < fr_order(),
    ensures
        eval_at(vanishing(xs, k), z) == diff_prod(xs, k, z),
    decreases k,
{
    lemma_fr_order_pos();
    lemma_lin_eval(xs[k - 1], z);
    let f = ((z + fr_order() - xs[k - 1]) as nat) % fr_order();
    if k == 1 {
        assert(diff_prod(xs, 0, z) == 1);
        lemma_cong_mod((z + fr_order() - xs[0]) as int);
        lemma_small_mod(f, fr_order());
        assert(diff_prod(xs, 1, z) == (1 * f) % fr_order());
        assert(1 * f == f) by (nonlinear_arith);
    } else {
        lemma_vanishing_eval_product(xs, k - 1, z);
        lemma_vanishing_props(xs, k - 1);
        lemma_eval_conv(vanishing(xs, k - 1), lin_vals(xs[k - 1]), z);
        assert(eval_at(vanishing(xs, k), z) ==
            (diff_prod(xs, k - 1, z) * f) % fr_order());
    }
}

/// The quotient of dividing `p` by the monic linear factor with root `x`:
/// coefficient `i` of the quotient is the Horner evaluation at `x` of the
/// coefficients of `p` above position `i`.
pub open spec fn synth_quot(p: Seq<nat>, x: nat) -> Seq<nat> {
    Seq::new((p.len() - 1) as nat, |i: int| eval_at(p.subrange(i + 1, p.len() as int), x))
}

/// The division identity behind evaluation witnesses: for every point `z`,
/// `p(z) = q(z) * (z - x) + p(x)` modulo the field order, where `q` is the
/// synthetic quotient of `p` by the linear factor with root `x`.  With
/// `y = p(x)` this is exactly `p(z) - y = q(z) * (z - x)`.
pub proof fn lemma_synthetic_division(p: Seq<nat>, x: nat, z: nat)
    requires
        p.len() >= 2,
        all_below(p, fr_order()),
        x < fr_order(),
        z < fr_order(),
    ensures
        eval_at(p, z) == (eval_at(synth_quot(p, x), z)
            * (((z + fr_order() - x) as nat) % fr_order()) + eval_at(p, x)) % fr_order(),
    decreases p.len(),
{
    lemma_fr_order_pos();
    let m = fr_order() as int;
    let tp = p.subrange(1, p.len() as int);
    let q = synth_quot(p, x);
    let qt = synth_quot(tp, x);
    assert(q[0] == eval_at(tp, x));
    assert forall|i: int| 0 <= i < q.len() - 1 implies q.subrange(1, q.len() as int)[i] == qt[i] by {
        assert(tp.subrange(i + 1, tp.len() as int) =~= p.subrange(i + 2, p.len() as int));
    }
    assert(q.subrange(1, q.len() as int) =~= qt);
    let ept = eval_at(tp, z);
    let ext = eval_at(tp, x);
    let eqt = eval_at(qt, z);
    let d = ((z + fr_order() - x) as nat) % fr_order();
    // the divisor value is congruent to the plain difference z - x
    lemma_cong_mod((z + fr_order() - x) as int);
    lemma_cong_shift(z - x);
    assert(congruent(d as int, z - x));
    // claim: the tail evaluation satisfies the same division identity
    if p.len() == 2 {
        assert(tp.len() == 1);
        assert(qt.len() == 0);
        assert(eqt == 0);
        assert(tp.subrange(1, 1).len() == 0);
        assert(eval_at(tp.subrange(1, 1), z) == 0);
        assert(eval_at(tp.subrange(1, 1), x) == 0);
        lemma_mul_basics(z as int);
        lemma_mul_basics(x as int);
        lemma_small_mod(tp[0], fr_order());
        assert(ept == tp[0]);
        assert(ext == tp[0]);
        lemma_mul_basics((z - x) as int);
        assert(eqt * (z - x) + ext == ext as int);
        assert(congruent(ept as int, eqt * (z - x) + ext));
    } else {
        lemma_synthetic_division(tp, x, z);
        assert(ept == (eqt * d + ext) % fr_order());
        lemma_cong_mod((eqt * d + ext) as int);
        lemma_cong_mul(eqt as int, eqt as int, d as int, z - x);
        lemma_cong_add((eqt * d) as int, eqt * (z - x), ext as int, ext as int);
        assert(congruent(ept as int, eqt * (z - x) + ext));
    }
    // the quotient evaluates to its head plus z times its tail evaluation
    let eq = eval_at(q, z);
    assert(eq == (ext + z * eqt) % fr_order());
    lemma_cong_mod((ext + z * eqt) as int);
    // assemble: q(z) * d + p(x) is congruent to p(z)
    let ep = eval_at(p, z);
    let ex = eval_at(p, x);
    assert(ep == (p[0] + z * ept) % fr_order());
    assert(ex == (p[0] + x * ext) % fr_order());
    lemma_cong_mul(eq as int, (ext + z * eqt) as int, d as int, z - x);
    lemma_cong_mod((p[0] + x * ext) as int);
    lemma_cong_add((eq * d) as int, (ext + z * eqt) * (z - x), ex as int, (p[0] + x * ext) as int);
    assert((ext + z * eqt) * (z - x) + (p[0] + x * ext) ==
        z * (eqt * (z - x) + ext) + p[0]) by (nonlinear_arith);
    lemma_cong_mul(z as int, z as int, eqt * (z - x) + ext, ept as int);
    lemma_cong_add((z * (eqt * (z - x) + ext)), (z * ept) as int, p[0] as int, p[0] as int);
    assert(congruent((eq * d + ex) as int, (p[0] + z * ept) as int));
    lemma_cong_mod((p[0] + z * ept) as int);
    assert(congruent((eq * d + ex) as int, ep as int));
    lemma_eval_bound(p, z);
    lemma_small_cong(ep);
}

impl PartialEq for Polynomial {
    /// Equality compares the recorded degrees and then the coefficient
    /// vectors pointwise up to the shorter one; trailing buffer slack
    /// beyond both vectors is ignored.
    fn eq(&self, other: &Polynomial) -> (r: bool) {
        if self.degree != other.degree {
            return false;
        }
        let n = if self.coeffs.len() <= other.coeffs.len() {
            self.coeffs.len()
        } else {
            other.coeffs.len()
        };
        let mut i: usize = 0;
        while i < n
            invariant
                i <= n,
                n <= self.coeffs@.len(),
                n <= other.coeffs@.len(),
                n == if self.coeffs@.len() <= other.coeffs@.len() {
                    self.coeffs@.len() as int
                } else {
                    other.coeffs@.len() as int
                },
                forall|j: int| 0 <= j < i ==> self.coeffs@[j] == other.coeffs@[j],
            decreases n - i,
        {
            if !(self.coeffs[i] == other.coeffs[i]) {
                return false;
            }
            i += 1;
        }
        true
    }
}

impl Eq for Polynomial {

}

impl vstd::std_specs::cmp::PartialEqSpecImpl for Polynomial {
    open spec fn obeys_eq_spec() -> bool {
        true
    }

    open spec fn eq_spec(&self, other: &Polynomial) -> bool {
        let n = if self.coeffs@.len() <= other.coeffs@.len() {
            self.coeffs@.len() as int
        } else {
            other.coeffs@.len() as int
        };
        &&& self.degree == other.degree
        &&& forall|j: int| 0 <= j < n ==> self.coeffs@[j] == other.coeffs@[j]
    }
}

} // verus!
