//! The evaluation-domain representation of a polynomial and the iterative
//! radix-2 transform over the scalar field's 2-adic roots of unity.
//!
//! The transform's contract pins its result exactly: a bit-reversal
//! permutation followed by the staged butterfly passes, all stated over
//! the coefficient value sequence.

use vstd::prelude::*;
use vstd::pervasive::VecAdditionalExecFns;
use vstd::arithmetic::power2::{pow2, lemma_pow2_adds, lemma_pow2_pos, lemma_pow2_unfold,
    lemma_pow2_strictly_increases, lemma2_to64};
use vstd::arithmetic::power::{pow, lemma_pow_multiplies, lemma_pow_mod_noop, lemma0_pow};
use vstd::arithmetic::div_mod::{lemma_breakdown, lemma_div_denominator, lemma_small_mod,
    lemma_fundamental_div_mod, lemma_mod_bound};
use vstd::arithmetic::mul::lemma_mul_basics;
use crate::field::{Fr, fr_order, fr_zero, fr_one, fr_from_u64, fr_add, fr_sub, fr_mul,
    fr_inverse, fr_pow, fr_two_adic_root, fr_multiplicative_generator, fr_root_val, pow_m,
    FR_TWO_ADICITY, lemma_fr_order_pos};
use crate::polynomial::{Polynomial, all_below, coeff_at, fr_vals, seq_scale, lemma_fr_vals_index};
use crate::kzg::KZGError;

verus! {

/// The reversal of the low `l` bits of `n`: the lowest bit becomes the
/// highest of the `l`, and so on.
pub open spec fn brev(n: nat, l: nat) -> nat
    decreases l,
{
    if l == 0 {
        0
    } else {
        brev(n / 2, (l - 1) as nat) + (n % 2) * pow2((l - 1) as nat)
    }
}

/// A bit reversal stays below `2^l`.
pub proof fn lemma_brev_bound(n: nat, l: nat)
    ensures
        brev(n, l) < pow2(l),
    decreases l,
{
    if l == 0 {
        lemma2_to64();
    } else {
        lemma_brev_bound(n / 2, (l - 1) as nat);
        lemma_pow2_unfold(l);
        if n % 2 == 0 {
            lemma_mul_basics(pow2((l - 1) as nat) as int);
        } else {
            assert(n % 2 == 1);
            lemma_mul_basics(pow2((l - 1) as nat) as int);
            assert((n % 2) * pow2((l - 1) as nat) == pow2((l - 1) as nat));
        }
    }
}

/// Reversing a number split into a low part and a top bit: the top bit
/// moves to the bottom and the low part's reversal shifts up by one.
pub proof fn lemma_brev_high(a: nat, b: nat, l: nat)
    requires
        l >= 1,
        a < pow2((l - 1) as nat),
        b < 2,
    ensures
        brev(a + b * pow2((l - 1) as nat), l) == b + 2 * brev(a, (l - 1) as nat),
    decreases l,
{
    let p = pow2((l - 1) as nat);
    let n = a + b * p;
    if l == 1 {
        lemma2_to64();
        assert(p == 1);
        assert(a == 0);
        lemma_mul_basics(b as int);
        assert(n == b);
        assert(brev(b, 1) == brev(b / 2, 0) + (b % 2) * pow2(0));
        lemma_small_mod(b, 2);
        lemma_mul_basics((b % 2) as int);
        assert(pow2(0) == 1);
        assert((b % 2) * 1 == b % 2) by (nonlinear_arith);
        assert(brev(b, 1) == b);
    } else {
        let p2 = pow2((l - 2) as nat);
        lemma_pow2_unfold((l - 1) as nat);
        assert(p == 2 * p2);
        // the split halves: n / 2 recombines the same way one bit lower
        assert(b * (2 * p2) == (b * p2) * 2) by (nonlinear_arith);
        assert(n == a + (b * p2) * 2);
        assert((a + (b * p2) * 2) / 2 == a / 2 + b * p2) by {
            vstd::arithmetic::div_mod::lemma_hoist_over_denominator(a as int, (b * p2) as int, 2);
        }
        assert((a + (b * p2) * 2) % 2 == a % 2) by {
            vstd::arithmetic::div_mod::lemma_mod_multiples_vanish((b * p2) as int, a as int, 2);
            assert((b * p2) * 2 == 2 * (b * p2)) by (nonlinear_arith);
        }
        assert(a / 2 < p2) by {
            if a / 2 >= p2 {
                assert(a >= 2 * p2) by {
                    lemma_fundamental_div_mod(a as int, 2);
                }
            }
        }
        lemma_brev_high(a / 2, b, (l - 1) as nat);
        assert(brev(n, l) == brev(a / 2 + b * p2, (l - 1) as nat) + (a % 2) * p);
        assert(brev(a / 2 + b * p2, (l - 1) as nat) == b + 2 * brev(a / 2, (l - 2) as nat));
        assert(brev(a, (l - 1) as nat) == brev(a / 2, (l - 2) as nat) + (a % 2) * p2);
        assert((a % 2) * (2 * p2) == 2 * ((a % 2) * p2)) by (nonlinear_arith);
    }
}

/// Bit reversal on `l` bits is an involution.
pub proof fn lemma_brev_involution(n: nat, l: nat)
    requires
        n < pow2(l),
    ensures
        brev(brev(n, l), l) == n,
    decreases l,
{
    if l == 0 {
        lemma2_to64();
    } else {
        let a = brev(n / 2, (l - 1) as nat);
        let b = n % 2;
        lemma_brev_bound(n / 2, (l - 1) as nat);
        assert(brev(n, l) == a + b * pow2((l - 1) as nat));
        lemma_brev_high(a, b, l);
        assert(n / 2 < pow2((l - 1) as nat)) by {
            lemma_pow2_unfold(l);
            if n / 2 >= pow2((l - 1) as nat) {
                lemma_fundamental_div_mod(n as int, 2);
            }
        }
        lemma_brev_involution(n / 2, (l - 1) as nat);
        lemma_fundamental_div_mod(n as int, 2);
    }
}

/// Reverses the low `l` bits of `n` by repeated halving.
fn bitreverse(n: u32, l: u32) -> (r: u32)
    requires
        l <= 27,
        (n as nat) < pow2(l as nat),
    ensures
        r as nat == brev(n as nat, l as nat),
        (r as nat) < pow2(l as nat),
{
    let ghost n0 = n as nat;
    let mut x = n;
    let mut r: u32 = 0;
    let mut i: u32 = 0;
    proof {
        lemma2_to64();
        assert(pow2(0) == 1);
        lemma_small_mod(0, pow2(0));
    }
    while i < l
        invariant
            i <= l,
            l <= 27,
            n0 < pow2(l as nat),
            x as nat == n0 / pow2(i as nat),
            r as nat == brev(n0 % pow2(i as nat), i as nat),
            (r as nat) < pow2(i as nat),
        decreases l - i,
    {
        proof {
            lemma_pow2_pos(i as nat);
            lemma_pow2_pos((i + 1) as nat);
            lemma_pow2_unfold((i + 1) as nat);
            // splitting off the next bit of the source
            lemma_breakdown(n0 as int, pow2(i as nat) as int, 2);
            assert(pow2(i as nat) * 2 == pow2((i + 1) as nat)) by {
                lemma_pow2_adds(i as nat, 1);
                lemma2_to64();
            }
            assert(n0 % pow2((i + 1) as nat) ==
                pow2(i as nat) * ((n0 / pow2(i as nat)) % 2) + n0 % pow2(i as nat));
            // the reversal gains that bit at the bottom
            lemma_mod_bound(n0 as int, pow2(i as nat) as int);
            assert(((n0 / pow2(i as nat)) % 2) * pow2(i as nat)
                == pow2(i as nat) * ((n0 / pow2(i as nat)) % 2)) by (nonlinear_arith);
            lemma_brev_high((n0 % pow2(i as nat)) as nat, (n0 / pow2(i as nat)) % 2, (i + 1) as nat);
            // the source shifts down by one bit
            lemma_div_denominator(n0 as int, pow2(i as nat) as int, 2);
            assert(pow2(i as nat) <= pow2(26)) by {
                if (i as nat) < 26 {
                    lemma_pow2_strictly_increases(i as nat, 26);
                }
            }
            lemma2_to64();
            assert(r < 0x4000000);
        }
        let bit = x % 2;
        x = x / 2;
        r = r * 2 + bit;
        i += 1;
    }
    proof {
        lemma_small_mod(n0, pow2(l as nat));
    }
    r
}

/// `2^k` as a 64-bit integer.
fn pow2_u64(k: u32) -> (r: u64)
    requires
        k <= 63,
    ensures
        r as nat == pow2(k as nat),
{
    let mut r: u64 = 1;
    let mut i: u32 = 0;
    proof {
        lemma2_to64();
    }
    while i < k
        invariant
            i <= k,
            k <= 63,
            r as nat == pow2(i as nat),
        decreases k - i,
    {
        proof {
            lemma_pow2_unfold((i + 1) as nat);
            lemma2_to64();
            vstd::arithmetic::power2::lemma2_to64_rest();
            assert(pow2(i as nat) <= pow2(62)) by {
                if (i as nat) < 62 {
                    lemma_pow2_strictly_increases(i as nat, 62);
                }
            }
        }
        r = r * 2;
        i += 1;
    }
    r
}

/// One butterfly pass: within each block of `2 * m` entries, entry `r < m`
/// is paired with entry `r + m`, the upper one is scaled by the `r`-th
/// power of the stage twiddle `wm`, and the pair is replaced by sum and
/// difference.
pub open spec fn butterfly(a: Seq<nat>, wm: nat, m: nat) -> Seq<nat> {
    Seq::new(a.len(), |i: int| {
        let r = i % (2 * m as int);
        if r < m {
            (a[i] + a[i + m] * pow_m(wm, r as nat)) % fr_order()
        } else {
            ((a[i - m] + fr_order() - (a[i] * pow_m(wm, (r - m) as nat)) % fr_order()) as nat)
                % fr_order()
        }
    })
}

/// The twiddle of stage `s`: the transform root raised to `2^(log_n - s - 1)`.
pub open spec fn stage_twiddle(w: nat, log_n: nat, s: nat) -> nat {
    pow_m(w, pow2((log_n - s - 1) as nat))
}

/// The first `s` butterfly stages applied to `a`, with half-block sizes
/// `1, 2, 4, ...`.
pub open spec fn fft_rounds(a: Seq<nat>, w: nat, log_n: nat, s: nat) -> Seq<nat>
    decreases s,
{
    if s == 0 {
        a
    } else {
        butterfly(fft_rounds(a, w, log_n, (s - 1) as nat),
            stage_twiddle(w, log_n, (s - 1) as nat), pow2((s - 1) as nat))
    }
}

/// The bit-reversal permutation on `2^l` entries.
pub open spec fn bitrev_perm(a: Seq<nat>, l: nat) -> Seq<nat> {
    Seq::new(a.len(), |i: int| a[brev(i as nat, l) as int])
}

/// The whole iterative radix-2 transform: bit-reversal permutation, then
/// all `log_n` butterfly stages at the root `w`.
pub open spec fn fft_spec(a: Seq<nat>, w: nat, log_n: nat) -> Seq<nat> {
    fft_rounds(bitrev_perm(a, log_n), w, log_n, log_n)
}

/// The in-place iterative radix-2 transform of `a` at the root `omega`.
fn serial_fft(a: &mut Vec<Fr>, omega: &Fr, log_n: u32)
    requires
        omega.wf(),
        log_n <= 27,
        old(a)@.len() == pow2(log_n as nat),
        all_below(fr_vals(old(a)@), fr_order()),
    ensures
        final(a)@.len() == old(a)@.len(),
        all_below(fr_vals(final(a)@), fr_order()),
        fr_vals(final(a)@) == fft_spec(fr_vals(old(a)@), omega.val(), log_n as nat),
{
    let ghost orig = fr_vals(old(a)@);
    let ghost l = log_n as nat;
    proof {
        lemma_fr_order_pos();
        lemma2_to64();
        assert(pow2(l) <= pow2(27)) by {
            if l < 27 {
                lemma_pow2_strictly_increases(l, 27);
            }
        }
    }
    let n = a.len() as u32;
    // ---- bit-reversal permutation pass ----
    let mut k: u32 = 0;
    while k < n
        invariant
            n == pow2(l),
            n <= 0x8000000,
            l == log_n as nat,
            log_n <= 27,
            k <= n,
            a@.len() == n,
            orig.len() == n,
            all_below(fr_vals(a@), fr_order()),
            all_below(orig, fr_order()),
            forall|i: int| 0 <= i < n ==> fr_vals(a@)[i] == (
                if i < k || brev(i as nat, l) < k {
                    orig[brev(i as nat, l) as int]
                } else {
                    orig[i]
                }),
        decreases n - k,
    {
        proof {
            lemma_brev_bound(k as nat, l);
            lemma_brev_involution(k as nat, l);
        }
        let rk = bitreverse(k, log_n);
        let ghost before = fr_vals(a@);
        if k < rk {
            let tmp = a[k as usize];
            let tmp2 = a[rk as usize];
            a.set(k as usize, tmp2);
            a.set(rk as usize, tmp);
            proof {
                assert forall|i: int| 0 <= i < n implies fr_vals(a@)[i] == (
                    if i == k { before[rk as int] }
                    else if i == rk { before[k as int] }
                    else { before[i] }) by {
                    lemma_fr_vals_index(a@, i);
                }
            }
        }
        proof {
            assert forall|i: int| 0 <= i < n implies fr_vals(a@)[i] == (
                if i < k + 1 || brev(i as nat, l) < k + 1 {
                    orig[brev(i as nat, l) as int]
                } else {
                    orig[i]
                }) by {
                lemma_brev_bound(i as nat, l);
                lemma_brev_involution(i as nat, l);
            }
        }
        k += 1;
    }
    proof {
        assert forall|i: int| 0 <= i < n implies fr_vals(a@)[i] == bitrev_perm(orig, l)[i] by {
            lemma_brev_bound(i as nat, l);
        }
        assert(fr_vals(a@) =~= bitrev_perm(orig, l));
    }
    let ghost base = fr_vals(a@);
    // ---- butterfly stages ----
    let mut m: u32 = 1;
    let mut s: u32 = 0;
    proof {
        assert(pow2(0) == 1);
    }
    while s < log_n
        invariant
            n == pow2(l),
            n <= 0x8000000,
            l == log_n as nat,
            log_n <= 27,
            s <= log_n,
            m == pow2(s as nat),
            a@.len() == n,
            base.len() == n,
            omega.wf(),
            all_below(fr_vals(a@), fr_order()),
            fr_vals(a@) == fft_rounds(base, omega.val(), l, s as nat),
        decreases log_n - s,
    {
        proof {
            lemma_pow2_pos(s as nat);
            assert(m >= 1);
            assert(2 * m <= n) by {
                lemma_pow2_unfold((s + 1) as nat);
                if ((s + 1) as nat) < l {
                    lemma_pow2_strictly_increases((s + 1) as nat, l);
                }
            }
            assert(m <= 0x4000000) by {
                assert(pow2(s as nat) <= pow2(26)) by {
                    if (s as nat) < 26 {
                        lemma_pow2_strictly_increases(s as nat, 26);
                    }
                }
                lemma2_to64();
            }
            // n / (2 m) is the power gap of this stage
            lemma_pow2_unfold((s + 1) as nat);
            vstd::arithmetic::power2::lemma_pow2_subtracts((s + 1) as nat, l);
            assert(n as int / (2 * (m as int)) == pow2((l - s - 1) as nat));
            // 2 m divides n
            lemma_pow2_adds((s + 1) as nat, (l - s - 1) as nat);
            assert(pow2((l - s - 1) as nat) * pow2((s + 1) as nat) ==
                pow2((s + 1) as nat) * pow2((l - s - 1) as nat)) by (nonlinear_arith);
            vstd::arithmetic::div_mod::lemma_mod_multiples_basic(
                pow2((l - s - 1) as nat) as int, 2 * (m as int));
            assert((n as int) % (2 * (m as int)) == 0);
            assert(pow2((l - s - 1) as nat) <= 0x8000000000000000) by {
                vstd::arithmetic::power2::lemma2_to64_rest();
                if ((l - s - 1) as nat) < 63 {
                    lemma_pow2_strictly_increases((l - s - 1) as nat, 63);
                }
            }
        }
        let w_m = fr_pow(omega, (n / (2 * m)) as u64);
        let ghost wmv = w_m.val();
        let ghost prev = fr_vals(a@);
        proof {
            assert(wmv == stage_twiddle(omega.val(), l, s as nat));
        }
        let mut k: u32 = 0;
        while k < n
            invariant
                n == pow2(l),
                n <= 0x8000000,
                l == log_n as nat,
                log_n <= 27,
                s < log_n,
                m == pow2(s as nat),
                m >= 1,
                2 * m <= n,
                k <= n,
                (k as int) % (2 * (m as int)) == 0,
                (n as int) % (2 * (m as int)) == 0,
                a@.len() == n,
                prev.len() == n,
                omega.wf(),
                w_m.wf(),
                wmv == w_m.val(),
                all_below(prev, fr_order()),
                all_below(fr_vals(a@), fr_order()),
                forall|i: int| 0 <= i < n ==> fr_vals(a@)[i] == (
                    if i < k { butterfly(prev, wmv, m as nat)[i] } else { prev[i] }),
            decreases n - k,
        {
            proof {
                // a full block remains: n - k is a positive multiple of 2 m
                vstd::arithmetic::div_mod::lemma_sub_mod_noop(n as int, k as int, 2 * (m as int));
                lemma_small_mod(0, (2 * m) as nat);
                if k + 2 * m > n {
                    lemma_small_mod((n - k) as nat, (2 * m) as nat);
                }
                assert(k + 2 * m <= n);
            }
            let mut w = fr_one();
            let mut j: u32 = 0;
            proof {
                vstd::arithmetic::power::lemma_pow0(wmv as int);
                lemma_small_mod(1, fr_order());
                assert(w.val() == pow_m(wmv, 0));
            }
            while j < m
                invariant
                    n == pow2(l),
                    m == pow2(s as nat),
                    m >= 1,
                    k + 2 * m <= n,
                    (k as int) % (2 * (m as int)) == 0,
                    j <= m,
                    a@.len() == n,
                    prev.len() == n,
                    w.wf(),
                    w_m.wf(),
                    wmv == w_m.val(),
                    w.val() == pow_m(wmv, j as nat),
                    all_below(prev, fr_order()),
                    all_below(fr_vals(a@), fr_order()),
                    forall|i: int| 0 <= i < n ==> fr_vals(a@)[i] == (
                        if i < k { butterfly(prev, wmv, m as nat)[i] }
                        else if k <= i < k + j { butterfly(prev, wmv, m as nat)[i] }
                        else if k + m <= i < k + m + j { butterfly(prev, wmv, m as nat)[i] }
                        else { prev[i] }),
                decreases m - j,
            {
                let lo_i = (k + j) as usize;
                let hi_i = (k + j + m) as usize;
                proof {
                    lemma_fr_vals_index(a@, hi_i as int);
                    lemma_fr_vals_index(a@, lo_i as int);
                }
                let t = fr_mul(&a[hi_i], &w);
                let lo = a[lo_i];
                let ghost before = fr_vals(a@);
                let hi_new = fr_sub(&lo, &t);
                let lo_new = fr_add(&lo, &t);
                a.set(hi_i, hi_new);
                a.set(lo_i, lo_new);
                proof {
                    assert forall|i: int| 0 <= i < n implies fr_vals(a@)[i] == (
                        if i == lo_i { lo_new.val() }
                        else if i == hi_i { hi_new.val() }
                        else { before[i] }) by {
                        lemma_fr_vals_index(a@, i);
                    }
                    // the two updated entries match the butterfly formula
                    let t2 = 2 * (m as int);
                    assert((k + j) % t2 == j && (k + j + m) % t2 == j + m) by {
                        lemma_fundamental_div_mod(k as int, t2);
                        let q = k as int / t2;
                        vstd::arithmetic::div_mod::lemma_mod_multiples_vanish(
                            q, j as int, t2);
                        vstd::arithmetic::div_mod::lemma_mod_multiples_vanish(
                            q, (j + m) as int, t2);
                        lemma_small_mod(j as nat, t2 as nat);
                        lemma_small_mod((j + m) as nat, t2 as nat);
                    }
                    assert(before[lo_i as int] == prev[lo_i as int]);
                    assert(before[hi_i as int] == prev[hi_i as int]);
                    assert(butterfly(prev, wmv, m as nat)[lo_i as int] ==
                        (prev[lo_i as int] + prev[hi_i as int] * pow_m(wmv, j as nat))
                            % fr_order());
                    assert(t.val() == (prev[hi_i as int] * pow_m(wmv, j as nat)) % fr_order());
                    vstd::arithmetic::div_mod::lemma_add_mod_noop_right(
                        prev[lo_i as int] as int,
                        (prev[hi_i as int] * pow_m(wmv, j as nat)) as int,
                        fr_order() as int);
                    assert(lo_new.val() == butterfly(prev, wmv, m as nat)[lo_i as int]);
                    assert(butterfly(prev, wmv, m as nat)[hi_i as int] ==
                        ((prev[lo_i as int] + fr_order()
                            - (prev[hi_i as int] * pow_m(wmv, j as nat)) % fr_order()) as nat)
                            % fr_order());
                    assert(hi_new.val() == butterfly(prev, wmv, m as nat)[hi_i as int]);
                    // the running twiddle advances one power
                    vstd::arithmetic::power::lemma_pow_adds(wmv as int, j as nat, 1);
                    vstd::arithmetic::power::lemma_pow1(wmv as int);
                    vstd::arithmetic::div_mod::lemma_mul_mod_noop_left(
                        pow(wmv as int, j as nat), wmv as int, fr_order() as int);
                }
                w = fr_mul(&w, &w_m);
                j += 1;
            }
            proof {
                assert forall|i: int| 0 <= i < n implies fr_vals(a@)[i] == (
                    if i < k + 2 * m { butterfly(prev, wmv, m as nat)[i] } else { prev[i] }) by {
                }
                vstd::arithmetic::div_mod::lemma_mod_add_multiples_vanish(
                    k as int, 2 * (m as int));
            }
            k += 2 * m;
        }
        proof {
            assert forall|i: int| 0 <= i < n implies
                fr_vals(a@)[i] == butterfly(prev, wmv, m as nat)[i] by {
            }
            assert(fr_vals(a@) =~= butterfly(prev, wmv, m as nat));
            assert(fft_rounds(base, omega.val(), l, (s + 1) as nat) ==
                butterfly(fft_rounds(base, omega.val(), l, s as nat),
                    stage_twiddle(omega.val(), l, s as nat), pow2(s as nat)));
            lemma_pow2_unfold((s + 1) as nat);
        }
        m *= 2;
        s += 1;
    }
}


/// An evaluation-domain view of a polynomial: its coefficients padded to a
/// power-of-two length `d = 2^exp`, with the matching `2^exp`-th root of
/// unity, that root's inverse, the field generator's inverse, and the
/// inverse of `d`.
#[derive(Clone, Debug, PartialEq, Eq)]
pub struct EvaluationDomain {
    pub coeffs: Vec<Fr>,
    pub d: usize,
    pub exp: u32,
    pub omega: Fr,
    pub omegainv: Fr,
    pub geninv: Fr,
    pub minv: Fr,
}

/// The canonical root of the domain of size `2^e`: the field's 2-adic root
/// raised to `2^(28 - e)`.
pub open spec fn domain_root(e: nat) -> nat {
    pow_m(fr_root_val(FR_TWO_ADICITY as nat), pow2((FR_TWO_ADICITY - e) as nat))
}

/// `x` is the (reduced) multiplicative inverse of `v`.
pub open spec fn inverse_of(x: nat, v: nat) -> bool {
    x < fr_order() && (x * v) % fr_order() == 1
}

/// A value has at most one reduced inverse, so a contract that describes a
/// result through an inverse pins that result.
pub proof fn lemma_inverse_unique(x1: nat, x2: nat, v: nat)
    requires
        inverse_of(x1, v),
        inverse_of(x2, v),
    ensures
        x1 == x2,
{
    lemma_fr_order_pos();
    crate::field::lemma_small_cong(1);
    crate::field::lemma_cong_mod((x2 * v) as int);
    assert(crate::field::congruent((x2 * v) as int, 1));
    crate::field::lemma_cong_mul(x1 as int, x1 as int, (x2 * v) as int, 1);
    assert(x1 * (x2 * v) == (x1 * v) * x2) by (nonlinear_arith);
    crate::field::lemma_cong_mod((x1 * v) as int);
    assert(crate::field::congruent((x1 * v) as int, 1));
    crate::field::lemma_cong_mul((x1 * v) as int, 1, x2 as int, x2 as int);
    assert(x1 * 1 == x1 && 1 * x2 == x2) by (nonlinear_arith);
    assert(crate::field::congruent(x1 as int, x2 as int));
    crate::field::lemma_cong_reduced(x1, x2);
}

impl EvaluationDomain {
    /// The values of the held coefficients.
    pub open spec fn vals(self) -> Seq<nat> {
        fr_vals(self.coeffs@)
    }

    /// The domain invariant: the size is a power of two the field's 2-adic
    /// structure supports, the root has that order, and the stored
    /// inverses invert the root and the size.
    pub open spec fn wf(self) -> bool {
        &&& self.d == self.coeffs@.len()
        &&& self.d == pow2(self.exp as nat)
        &&& self.exp < FR_TWO_ADICITY
        &&& all_below(self.vals(), fr_order())
        &&& self.omega.wf()
        &&& self.omegainv.wf()
        &&& self.geninv.wf()
        &&& self.minv.wf()
        &&& pow_m(self.omega.val(), pow2(self.exp as nat)) == 1
        &&& inverse_of(self.omegainv.val(), self.omega.val())
        &&& inverse_of(self.geninv.val(), 5)
        &&& inverse_of(self.minv.val(), self.d as nat)
    }

    /// The domain size and root for `d` coefficients: the smallest power
    /// of two at least `d`, its exponent, and a primitive root of unity of
    /// that order.  Fails exactly when the field's 2-adic subgroup is too
    /// small for that size.
    pub fn compute_omega(d: usize) -> (r: Result<(usize, u32, Fr), KZGError>)
        ensures
            match r {
                Ok(t) => {
                    &&& t.0 == pow2(t.1 as nat)
                    &&& d <= t.0
                    &&& (t.1 == 0 || pow2((t.1 - 1) as nat) < d)
                    &&& t.1 < FR_TWO_ADICITY
                    &&& t.2.wf()
                    &&& t.2.val() != 0
                    &&& t.2.val() == domain_root(t.1 as nat)
                    &&& pow_m(t.2.val(), pow2(t.1 as nat)) == 1
                    &&& (t.1 >= 1 ==> pow_m(t.2.val(), pow2((t.1 - 1) as nat)) != 1)
                },
                Err(e) => {
                    &&& e == KZGError::PolynomialDegreeTooLarge
                    &&& d > pow2((FR_TWO_ADICITY - 1) as nat)
                },
            },
    {
        let mut m: usize = 1;
        let mut exp: u32 = 0;
        proof {
            lemma2_to64();
        }
        while m < d
            invariant
                m == pow2(exp as nat),
                exp < FR_TWO_ADICITY,
                exp == 0 || pow2((exp - 1) as nat) < d,
            decreases FR_TWO_ADICITY - exp,
        {
            proof {
                lemma_pow2_unfold((exp + 1) as nat);
                lemma2_to64();
                assert(pow2(exp as nat) <= pow2(27)) by {
                    if (exp as nat) < 27 {
                        lemma_pow2_strictly_increases(exp as nat, 27);
                    }
                }
            }
            m *= 2;
            exp += 1;

            if exp >= FR_TWO_ADICITY {
                proof {
                    assert(pow2((FR_TWO_ADICITY - 1) as nat) < d);
                }
                return Err(KZGError::PolynomialDegreeTooLarge);
            }
        }
        let root = fr_two_adic_root();
        let gap = pow2_u64(FR_TWO_ADICITY - exp);
        let omega = fr_pow(&root, gap);
        proof {
            lemma_fr_order_pos();
            let rv = root.val() as int;
            let m0 = fr_order() as int;
            let g = pow2((FR_TWO_ADICITY - exp) as nat);
            // omega to the power 2^exp is the root to the power 2^28
            lemma_pow_mod_noop(pow(rv, g), pow2(exp as nat), m0);
            lemma_pow_multiplies(rv, g, pow2(exp as nat));
            lemma_pow2_adds((FR_TWO_ADICITY - exp) as nat, exp as nat);
            assert(pow_m(omega.val(), pow2(exp as nat)) ==
                pow_m(root.val(), pow2(FR_TWO_ADICITY as nat)));
            // and its power 2^(exp - 1), when it exists, is the root's 2^27
            if exp >= 1 {
                lemma_pow_mod_noop(pow(rv, g), pow2((exp - 1) as nat), m0);
                lemma_pow_multiplies(rv, g, pow2((exp - 1) as nat));
                lemma_pow2_adds((FR_TWO_ADICITY - exp) as nat, (exp - 1) as nat);
                assert(pow_m(omega.val(), pow2((exp - 1) as nat)) ==
                    pow_m(root.val(), pow2((FR_TWO_ADICITY - 1) as nat)));
            }
            // a zero omega would make that power zero, not one
            if omega.val() == 0 {
                lemma_pow2_pos(exp as nat);
                lemma0_pow(pow2(exp as nat));
                lemma_small_mod(0, fr_order());
                assert(pow_m(0, pow2(exp as nat)) == 0);
            }
        }
        Ok((m, exp, omega))
    }

    /// Builds a domain from caller-supplied parts, deriving the stored
    /// inverses of the root, the field generator and the size.  Like the
    /// untrusted polynomial constructor, it does not check that the parts
    /// are consistent; the domain invariant holds exactly when they are.
    pub fn new(coeffs: Vec<Fr>, d: usize, exp: u32, omega: Fr) -> (r: EvaluationDomain)
        requires
            omega.wf(),
            omega.val() != 0,
            d >= 1,
        ensures
            r.coeffs@ == coeffs@,
            r.d == d,
            r.exp == exp,
            r.omega == omega,
            inverse_of(r.omegainv.val(), omega.val()),
            inverse_of(r.geninv.val(), 5),
            inverse_of(r.minv.val(), d as nat),
            (d == coeffs@.len() && d == pow2(exp as nat) && exp < FR_TWO_ADICITY
                && all_below(fr_vals(coeffs@), fr_order())
                && pow_m(omega.val(), pow2(exp as nat)) == 1) ==> r.wf(),
    {
        let omegainv = fr_inverse(&omega);
        let generator = fr_multiplicative_generator();
        let geninv = fr_inverse(&generator);
        let size = fr_from_u64(d as u64);
        let minv = fr_inverse(&size);
        EvaluationDomain { coeffs, d, exp, omega, omegainv, geninv, minv }
    }

    /// Builds the domain of the smallest power-of-two size holding the
    /// given coefficients, padding them with zeros.
    pub fn from_coeffs(coeffs: Vec<Fr>) -> (r: Result<EvaluationDomain, KZGError>)
        requires
            all_below(fr_vals(coeffs@), fr_order()),
        ensures
            match r {
                Ok(dom) => {
                    &&& dom.wf()
                    &&& coeffs@.len() <= dom.d
                    &&& (dom.exp == 0 || pow2((dom.exp - 1) as nat) < coeffs@.len())
                    &&& dom.vals() == Seq::new(dom.d as nat, |i: int| coeff_at(fr_vals(coeffs@), i))
                    &&& dom.omega.val() == domain_root(dom.exp as nat)
                    &&& (dom.exp >= 1 ==> pow_m(dom.omega.val(), pow2((dom.exp - 1) as nat)) != 1)
                },
                Err(e) => {
                    &&& e == KZGError::PolynomialDegreeTooLarge
                    &&& coeffs@.len() > pow2((FR_TWO_ADICITY - 1) as nat)
                },
            },
    {
        let ghost orig = fr_vals(coeffs@);
        let parts = match Self::compute_omega(coeffs.len()) {
            Ok(t) => t,
            Err(e) => {
                return Err(e);
            },
        };
        let (m, exp, omega) = parts;
        let mut coeffs = coeffs;
        while coeffs.len() < m
            invariant
                orig.len() <= coeffs@.len() <= m,
                orig =~= fr_vals(coeffs@).take(orig.len() as int),
                forall|i: int| orig.len() <= i < coeffs@.len() ==> fr_vals(coeffs@)[i] == 0,
                all_below(fr_vals(coeffs@), fr_order()),
            decreases m - coeffs@.len(),
        {
            let ghost before = coeffs@;
            coeffs.push(fr_zero());
            proof {
                assert forall|i: int| 0 <= i < coeffs@.len() implies
                    fr_vals(coeffs@)[i] == (if i < before.len() { fr_vals(before)[i] } else { 0nat }) by {
                    lemma_fr_vals_index(coeffs@, i);
                    if i < before.len() {
                        lemma_fr_vals_index(before, i);
                    }
                }
                assert(orig =~= fr_vals(coeffs@).take(orig.len() as int));
                lemma_fr_order_pos();
            }
        }
        proof {
            lemma_pow2_pos(exp as nat);
        }
        let dom = Self::new(coeffs, m, exp, omega);
        proof {
            assert(dom.vals() =~= Seq::new(dom.d as nat, |i: int| coeff_at(orig, i)));
        }
        Ok(dom)
    }

    /// The forward transform, in place at the domain's root.
    pub fn fft(&mut self)
        requires
            old(self).wf(),
        ensures
            final(self).wf(),
            final(self).vals() == fft_spec(old(self).vals(), old(self).omega.val(),
                old(self).exp as nat),
            final(self).d == old(self).d,
            final(self).exp == old(self).exp,
            final(self).omega == old(self).omega,
            final(self).omegainv == old(self).omegainv,
            final(self).geninv == old(self).geninv,
            final(self).minv == old(self).minv,
    {
        serial_fft(&mut self.coeffs, &self.omega, self.exp);
    }

    /// The inverse transform: the forward pass at the inverse root, then
    /// every entry scaled by the inverse of the domain size.
    pub fn ifft(&mut self)
        requires
            old(self).wf(),
        ensures
            final(self).wf(),
            final(self).vals() == seq_scale(fft_spec(old(self).vals(),
                old(self).omegainv.val(), old(self).exp as nat), old(self).minv.val()),
            final(self).d == old(self).d,
            final(self).exp == old(self).exp,
            final(self).omega == old(self).omega,
            final(self).omegainv == old(self).omegainv,
            final(self).geninv == old(self).geninv,
            final(self).minv == old(self).minv,
    {
        serial_fft(&mut self.coeffs, &self.omegainv, self.exp);
        let ghost mid = fr_vals(self.coeffs@);
        let minv = self.minv;
        let len = self.coeffs.len();
        let mut i: usize = 0;
        while i < len
            invariant
                len == self.coeffs@.len(),
                i <= len,
                minv.wf(),
                mid.len() == len,
                all_below(mid, fr_order()),
                forall|j: int| 0 <= j < i ==>
                    fr_vals(self.coeffs@)[j] == (mid[j] * minv.val()) % fr_order(),
                forall|j: int| i <= j < len ==> fr_vals(self.coeffs@)[j] == mid[j],
                self.d == old(self).d,
                self.exp == old(self).exp,
                self.omega == old(self).omega,
                self.omegainv == old(self).omegainv,
                self.geninv == old(self).geninv,
                self.minv == old(self).minv,
                minv == self.minv,
            decreases len - i,
        {
            proof {
                lemma_fr_vals_index(self.coeffs@, i as int);
                assert(fr_vals(self.coeffs@)[i as int] == mid[i as int]);
                assert(self.coeffs@[i as int].val() < fr_order());
            }
            let scaled = fr_mul(&self.coeffs[i], &minv);
            let ghost before = fr_vals(self.coeffs@);
            self.coeffs.set(i, scaled);
            proof {
                assert forall|j: int| 0 <= j < len implies fr_vals(self.coeffs@)[j] == (
                    if j == i as int { scaled.val() } else { before[j] }) by {
                    lemma_fr_vals_index(self.coeffs@, j);
                }
            }
            i += 1;
        }
        proof {
            assert(fr_vals(self.coeffs@) =~= seq_scale(mid, minv.val()));
            assert forall|j: int| 0 <= j < len implies fr_vals(self.coeffs@)[j] < fr_order() by {
                lemma_fr_order_pos();
                vstd::arithmetic::div_mod::lemma_mod_bound(
                    (mid[j] * minv.val()) as int, fr_order() as int);
            }
        }
    }

    /// Pointwise multiplication of two equal-size domains.
    pub fn mul_assign(&mut self, other: &EvaluationDomain)
        requires
            old(self).wf(),
            other.wf(),
            old(self).coeffs@.len() == other.coeffs@.len(),
        ensures
            final(self).wf(),
            final(self).vals() == Seq::new(old(self).coeffs@.len() as nat,
                |i: int| (old(self).vals()[i] * other.vals()[i]) % fr_order()),
            final(self).d == old(self).d,
            final(self).exp == old(self).exp,
            final(self).omega == old(self).omega,
            final(self).omegainv == old(self).omegainv,
            final(self).geninv == old(self).geninv,
            final(self).minv == old(self).minv,
    {
        let ghost av = old(self).vals();
        let ghost bv = other.vals();
        let len = self.coeffs.len();
        let mut i: usize = 0;
        while i < len
            invariant
                len == self.coeffs@.len(),
                len == other.coeffs@.len(),
                i <= len,
                av.len() == len,
                bv == other.vals(),
                bv.len() == len,
                all_below(av, fr_order()),
                all_below(bv, fr_order()),
                forall|j: int| 0 <= j < i ==>
                    fr_vals(self.coeffs@)[j] == (av[j] * bv[j]) % fr_order(),
                forall|j: int| i <= j < len ==> fr_vals(self.coeffs@)[j] == av[j],
                self.d == old(self).d,
                self.exp == old(self).exp,
                self.omega == old(self).omega,
                self.omegainv == old(self).omegainv,
                self.geninv == old(self).geninv,
                self.minv == old(self).minv,
            decreases len - i,
        {
            proof {
                lemma_fr_vals_index(self.coeffs@, i as int);
                lemma_fr_vals_index(other.coeffs@, i as int);
                assert(fr_vals(self.coeffs@)[i as int] == av[i as int]);
                assert(self.coeffs@[i as int].val() < fr_order());
                assert(other.coeffs@[i as int].val() == bv[i as int]);
                assert(other.coeffs@[i as int].val() < fr_order());
            }
            let scaled = fr_mul(&self.coeffs[i], &other.coeffs[i]);
            let ghost before = fr_vals(self.coeffs@);
            self.coeffs.set(i, scaled);
            proof {
                assert forall|j: int| 0 <= j < len implies fr_vals(self.coeffs@)[j] == (
                    if j == i as int { scaled.val() } else { before[j] }) by {
                    lemma_fr_vals_index(self.coeffs@, j);
                }
            }
            i += 1;
        }
        proof {
            assert(fr_vals(self.coeffs@) =~= Seq::new(len as nat,
                |i: int| (av[i] * bv[i]) % fr_order()));
            assert forall|j: int| 0 <= j < len implies fr_vals(self.coeffs@)[j] < fr_order() by {
                lemma_fr_order_pos();
                vstd::arithmetic::div_mod::lemma_mod_bound(
                    (av[j] * bv[j]) as int, fr_order() as int);
            }
        }
    }

    /// Reads the domain back as a polynomial, scanning for the degree as
    /// the dense constructor does.
    pub fn into_polynomial(self) -> (r: Polynomial)
        requires
            self.wf(),
        ensures
            r.wf(),
            r.degree_ok(),
            r.coeffs@ == self.coeffs@,
    {
        proof {
            lemma_pow2_pos(self.exp as nat);
        }
        Polynomial::new(self.coeffs)
    }
}

/// `a` padded with zeros to length `m`.
pub open spec fn padded(a: Seq<nat>, m: nat) -> Seq<nat> {
    Seq::new(m, |i: int| coeff_at(a, i))
}

/// Pointwise product modulo the field order.
pub open spec fn pointwise_mul(a: Seq<nat>, b: Seq<nat>) -> Seq<nat> {
    Seq::new(a.len(), |i: int| (a[i] * b[i]) % fr_order())
}

/// What the fast multiplication pipeline returns for operand coefficient
/// sequences `a` and `b`: both padded to the smallest fitting power-of-two
/// size `2^e`, transformed at the canonical root of that size, multiplied
/// pointwise, transformed back at an inverse `wi` of the root, and scaled
/// by an inverse `mi` of the size.  Inverses are unique
/// (`lemma_inverse_unique`), so this relation determines the output.
pub open spec fn fft_mul_result(out: Seq<nat>, a: Seq<nat>, b: Seq<nat>,
    e: nat, wi: nat, mi: nat) -> bool {
    let t = (a.len() + b.len() - 1) as nat;
    let m = pow2(e);
    let w = domain_root(e);
    &&& t <= m
    &&& (e == 0 || pow2((e - 1) as nat) < t)
    &&& e < FR_TWO_ADICITY
    &&& inverse_of(wi, w)
    &&& inverse_of(mi, m)
    &&& out == seq_scale(fft_spec(pointwise_mul(fft_spec(padded(a, m), w, e),
            fft_spec(padded(b, m), w, e)), wi, e), mi)
}

/// The fitting power-of-two size is determined by its bounds.
proof fn lemma_exp_unique(d: nat, e1: nat, e2: nat)
    requires
        d <= pow2(e1),
        d <= pow2(e2),
        e1 == 0 || pow2((e1 - 1) as nat) < d,
        e2 == 0 || pow2((e2 - 1) as nat) < d,
    ensures
        e1 == e2,
{
    if e1 < e2 {
        if e1 < (e2 - 1) as nat {
            lemma_pow2_strictly_increases(e1, (e2 - 1) as nat);
        }
        assert(pow2(e1) <= pow2((e2 - 1) as nat));
    }
    if e2 < e1 {
        if e2 < (e1 - 1) as nat {
            lemma_pow2_strictly_increases(e2, (e1 - 1) as nat);
        }
        assert(pow2(e2) <= pow2((e1 - 1) as nat));
    }
}

impl Polynomial {
    /// Fast multiplication: both operands are lifted to a common
    /// evaluation domain wide enough for the product, multiplied there
    /// pointwise, and transformed back.  As with the naive product, the
    /// result's degree is the sum of the operands' degrees, not shrunk.
    pub fn fft_mul(&self, rhs: &Polynomial) -> (r: Polynomial)
        requires
            self.wf(),
            rhs.wf(),
            self.degree + rhs.degree + 2 <= pow2((FR_TWO_ADICITY - 1) as nat),
        ensures
            r.wf(),
            r.degree == self.degree + rhs.degree,
            exists|e: nat, wi: nat, mi: nat|
                fft_mul_result(r.vals(), self.active(), rhs.active(), e, wi, mi),
    {
        let ghost av = self.active();
        let ghost bv = rhs.active();
        proof {
            lemma2_to64();
            vstd::arithmetic::power2::lemma2_to64_rest();
            assert(pow2((FR_TWO_ADICITY - 1) as nat) == 0x8000000);
        }
        let target = self.degree + rhs.degree + 1;
        let mut ca = self.slice_coeffs();
        while ca.len() < target
            invariant
                target <= 0x8000000,
                av.len() <= ca@.len() <= target,
                forall|i: int| 0 <= i < ca@.len() ==> fr_vals(ca@)[i] == coeff_at(av, i),
            decreases target - ca@.len(),
        {
            let ghost before = ca@;
            ca.push(fr_zero());
            proof {
                assert forall|i: int| 0 <= i < ca@.len() implies
                    fr_vals(ca@)[i] == coeff_at(av, i) by {
                    lemma_fr_vals_index(ca@, i);
                    if i < before.len() {
                        lemma_fr_vals_index(before, i);
                    }
                }
            }
        }
        let mut cb = rhs.slice_coeffs();
        while cb.len() < target
            invariant
                target <= 0x8000000,
                bv.len() <= cb@.len() <= target,
                forall|i: int| 0 <= i < cb@.len() ==> fr_vals(cb@)[i] == coeff_at(bv, i),
            decreases target - cb@.len(),
        {
            let ghost before = cb@;
            cb.push(fr_zero());
            proof {
                assert forall|i: int| 0 <= i < cb@.len() implies
                    fr_vals(cb@)[i] == coeff_at(bv, i) by {
                    lemma_fr_vals_index(cb@, i);
                    if i < before.len() {
                        lemma_fr_vals_index(before, i);
                    }
                }
            }
        }
        proof {
            lemma_fr_order_pos();
            assert forall|i: int| 0 <= i < ca@.len() implies fr_vals(ca@)[i] < fr_order() by {
                if 0 <= i < av.len() {
                    assert(coeff_at(av, i) == av[i]);
                    assert(av[i] == self.vals()[i]);
                } else {
                    assert(coeff_at(av, i) == 0);
                }
            }
            assert forall|i: int| 0 <= i < cb@.len() implies fr_vals(cb@)[i] < fr_order() by {
                if 0 <= i < bv.len() {
                    assert(coeff_at(bv, i) == bv[i]);
                    assert(bv[i] == rhs.vals()[i]);
                } else {
                    assert(coeff_at(bv, i) == 0);
                }
            }
        }
        let mut da = match EvaluationDomain::from_coeffs(ca) {
            Ok(d) => d,
            Err(_) => {
                proof {
                    assert(false);
                }
                return Polynomial::new_zero();
            },
        };
        let mut db = match EvaluationDomain::from_coeffs(cb) {
            Ok(d) => d,
            Err(_) => {
                proof {
                    assert(false);
                }
                return Polynomial::new_zero();
            },
        };
        proof {
            lemma_exp_unique(target as nat, da.exp as nat, db.exp as nat);
            assert(da.exp == db.exp);
            assert(da.d == db.d);
            let e = da.exp as nat;
            let m = da.d as nat;
            assert(da.vals() =~= padded(av, m)) by {
                assert forall|i: int| 0 <= i < m implies
                    da.vals()[i] == coeff_at(av, i) by {
                    if i < target {
                        assert(coeff_at(fr_vals(ca@), i) == fr_vals(ca@)[i]);
                    } else {
                        assert(coeff_at(fr_vals(ca@), i) == 0);
                        assert(coeff_at(av, i) == 0);
                    }
                }
            }
            assert(db.vals() =~= padded(bv, m));
        }
        let ghost e = da.exp as nat;
        let ghost m = da.d as nat;
        let ghost w = da.omega.val();
        da.fft();
        db.fft();
        da.mul_assign(&db);
        da.ifft();
        let ghost wi = da.omegainv.val();
        let ghost mi = da.minv.val();
        proof {
            assert(da.vals() == seq_scale(fft_spec(pointwise_mul(fft_spec(padded(av, m), w, e),
                fft_spec(padded(bv, m), w, e)), wi, e), mi)) by {
                assert(pointwise_mul(fft_spec(padded(av, m), w, e), fft_spec(padded(bv, m), w, e))
                    =~= Seq::new(m, |i: int| (fft_spec(padded(av, m), w, e)[i]
                        * fft_spec(padded(bv, m), w, e)[i]) % fr_order()));
            }
        }
        let degree = self.degree + rhs.degree;
        let r = Polynomial { degree, coeffs: da.coeffs };
        proof {
            assert(r.vals() == da.vals());
            assert(target <= r.coeffs@.len());
            assert(inverse_of(wi, w)) by {
                assert(da.omegainv.val() * da.omega.val() == da.omega.val() * da.omegainv.val())
                    by (nonlinear_arith);
            }
            assert(inverse_of(mi, m)) by {
                assert(da.minv.val() * (da.d as nat) == (da.d as nat) * da.minv.val())
                    by (nonlinear_arith);
            }
            assert(av.len() + bv.len() - 1 == target);
            assert(fft_mul_result(r.vals(), av, bv, e, wi, mi));
        }
        r
    }
}

} // verus!
