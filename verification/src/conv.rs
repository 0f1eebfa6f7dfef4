//! Powers of the radix, and multiplication of a number by `radix^e`:
//! the engine behind parsing and formatting in bases other than two.
//! A nonnegative radix exponent multiplies exactly and rounds once; a
//! negative one divides the widened mantissa by the exact power, with a
//! sticky bit for the remainder, and rounds once.

use vstd::prelude::*;
use vstd::arithmetic::power::{pow, lemma_pow_adds, lemma_pow_positive, lemma_pow_multiplies, lemma_pow0, lemma_pow1};
use vstd::arithmetic::power2::{pow2, lemma_pow2_adds, lemma_pow2_pos, lemma_pow2_strictly_increases, lemma2_to64};
use vstd::arithmetic::mul::{lemma_mul_inequality, lemma_mul_basics, lemma_mul_is_commutative, lemma_mul_strictly_positive, lemma_mul_strict_inequality};
use crate::bits::{limbs_val, lemma_limbs_val_push, lemma_limbs_val_bound, lemma_limbs_val_zero, lemma_limbs_val_singleton, lemma_limbs_val_split, lemma_norm_val_range};
use crate::dyadic::{dyadic_eq, bit_length, lemma_bit_length_bounds, lemma_bit_length_unique};
use crate::limb_ops::{mp_mul_basecase, mp_shl, mp_add_ui, lemma_clz_range};
use crate::div::mp_divrem_bits;
use crate::num::{bf_t, bf_wf, bf_mant, bf_e2, bf_is_zero, bf_is_inf, bf_is_nan, bf_is_finite, bf_is_fin_nonzero, bf_mag_eq, bf_set_zero, bf_set_inf, bf_set_nan, spec_rnd_mode, flags_wf, lemma_wf_bit_length, BF_ST_INVALID_OP, BF_ST_MEM_ERROR, BF_EXP_ZERO, BF_EXP_INF, BF_EXP_NAN, BF_PREC_INF, BF_LIMBS_MAX, BF_FLAG_RADPNT_PREC};
use crate::round::{Rounded, spec_round, spec_round_status, bf_normalize_and_round};
use crate::ops::{round_args_wf, rounded_to};

verus! {

// Largest radix exponent magnitude the conversion materialises exactly.
pub const BF_POW_RADIX_MAX: u64 = 0x10_0000;

/// Powers of a smaller base never exceed powers of a larger one.
proof fn lemma_pow_le_base(a: int, b: int, k: nat)
    requires
        0 <= a <= b,
        1 <= b,
    ensures
        pow(a, k) <= pow(b, k),
    decreases k,
{
    if k == 0 {
        lemma_pow0(a);
        lemma_pow0(b);
    } else if a == 0 {
        vstd::arithmetic::power::lemma0_pow(k);
        lemma_pow_positive(b, k);
    } else {
        lemma_pow_le_base(a, b, (k - 1) as nat);
        lemma_pow_positive(b, (k - 1) as nat);
        lemma_pow_positive(a, (k - 1) as nat);
        assert(pow(a, k) == a * pow(a, (k - 1) as nat)) by {
            lemma_pow1(a);
            lemma_pow_adds(a, 1, (k - 1) as nat);
        }
        assert(pow(b, k) == b * pow(b, (k - 1) as nat)) by {
            lemma_pow1(b);
            lemma_pow_adds(b, 1, (k - 1) as nat);
        }
        if a >= 0 {
            assert(a * pow(a, (k - 1) as nat) <= b * pow(b, (k - 1) as nat)) by (nonlinear_arith)
                requires
                    0 <= a <= b,
                    0 <= pow(a, (k - 1) as nat) <= pow(b, (k - 1) as nat),
            ;
        }
    }
}

/// `radix^k` fits in `6k + 1` bits for any radix up to 36.
proof fn lemma_pow_radix_bits(radix: u64, k: nat)
    requires
        2 <= radix <= 36,
    ensures
        pow(radix as int, k) <= pow2(6 * k),
        pow(radix as int, k) >= 1,
{
    lemma_pow_le_base(radix as int, 64, k);
    vstd::arithmetic::power2::lemma_pow2(6 * k);
    vstd::arithmetic::power2::lemma_pow2(6);
    lemma2_to64();
    lemma_pow_multiplies(2, 6, k);
    assert(pow(64, k) == pow2(6 * k)) by {
        assert(pow(2, 6) == 64);
    }
    lemma_pow_positive(radix as int, k);
}

/// Value-based length bound for a trimmed array.
proof fn lemma_trimmed_len(s: Seq<u64>, bound: nat)
    requires
        s.len() >= 1,
        s[s.len() - 1] != 0,
        limbs_val(s) <= pow2(bound),
    ensures
        64 * (s.len() - 1) <= bound,
{
    crate::bits::lemma_limbs_val_split3(s, s.len() - 1);
    lemma_pow2_pos(64 * (s.len() - 1) as nat);
    lemma_mul_inequality(1, s[s.len() - 1] as int, pow2(64 * (s.len() - 1) as nat) as int);
    lemma_mul_basics(pow2(64 * (s.len() - 1) as nat) as int);
    vstd::arithmetic::mul::lemma_mul_nonnegative(
        (limbs_val(s.subrange(s.len() as int, s.len() as int)) * pow2(64)) as int,
        pow2(64 * (s.len() - 1) as nat) as int,
    );
    assert(limbs_val(s) >= pow2(64 * (s.len() - 1) as nat));
    if 64 * (s.len() - 1) > bound {
        lemma_pow2_strictly_increases(bound, 64 * (s.len() - 1) as nat);
        assert(false);
    }
}

/// The exact power `radix^k` as a limb array, by binary powering.
#[verifier::rlimit(100)]
#[verifier::spinoff_prover]
pub fn mp_pow_radix(radix: u64, k: u64) -> (r: Vec<u64>)
    requires
        2 <= radix <= 36,
        k <= BF_POW_RADIX_MAX,
    ensures
        limbs_val(r@) == pow(radix as int, k as nat),
        r.len() >= 1,
        64 * (r.len() - 1) <= 6 * k,
        r@[r.len() - 1] != 0,
{
    let mut acc: Vec<u64> = Vec::new();
    acc.push(1u64);
    proof {
        lemma_limbs_val_singleton(acc@);
        lemma_pow0(radix as int);
    }
    if k == 0 {
        return acc;
    }
    let mut base: Vec<u64> = Vec::new();
    base.push(radix);
    let mut e: u64 = k;
    proof {
        lemma_limbs_val_singleton(base@);
        lemma_pow1(radix as int);
        lemma_mul_basics(pow(radix as int, k as nat));
        assert(1 * pow(radix as int, k as nat) == pow(radix as int, k as nat));
        lemma_pow_radix_bits(radix, k as nat);
        lemma2_to64();
        assert(pow2(6) == 64);
        if 6 < 6 * k {
            lemma_pow2_strictly_increases(6, (6 * k) as nat);
        }
    }
    while e > 0
        invariant
            2 <= radix <= 36,
            k <= BF_POW_RADIX_MAX,
            e <= k,
            limbs_val(acc@) * pow(limbs_val(base@) as int, e as nat) == pow(radix as int, k as nat),
            1 <= limbs_val(acc@) <= pow2((6 * k) as nat),
            1 <= limbs_val(base@) <= pow2((6 * k) as nat),
            pow(radix as int, k as nat) <= pow2((6 * k) as nat),
            acc.len() >= 1,
            base.len() >= 1,
            acc@[acc.len() - 1] != 0,
            64 * (acc.len() - 1) <= 6 * k,
            64 * (base.len() - 1) <= 6 * k,
        decreases e,
    {
        let ghost av = limbs_val(acc@);
        let ghost bv = limbs_val(base@);
        if e % 2 == 1 {
            let prod = mp_mul_basecase(&acc, &base);
            acc = mp_trim_top(prod);
            proof {
                assert(limbs_val(acc@) == av * bv);
                assert(pow(bv as int, e as nat) == bv * pow(bv as int, (e - 1) as nat)) by {
                    lemma_pow1(bv as int);
                    lemma_pow_adds(bv as int, 1, (e - 1) as nat);
                }
                lemma_pow_positive(bv as int, (e - 1) as nat);
                assert((av * bv) * pow(bv as int, (e - 1) as nat) == pow(radix as int, k as nat))
                    by (nonlinear_arith)
                    requires
                        av * pow(bv as int, e as nat) == pow(radix as int, k as nat),
                        pow(bv as int, e as nat) == bv * pow(bv as int, (e - 1) as nat),
                ;
                lemma_mul_strictly_positive(av as int, bv as int);
                // size: acc*base divides radix^k, so it is bounded too
                assert(av * bv <= pow2((6 * k) as nat)) by (nonlinear_arith)
                    requires
                        (av * bv) * pow(bv as int, (e - 1) as nat) == pow(radix as int, k as nat),
                        pow(bv as int, (e - 1) as nat) >= 1,
                        av * bv >= 1,
                        pow(radix as int, k as nat) <= pow2((6 * k) as nat),
                ;
                assert(acc@[acc.len() - 1] != 0);
                lemma_trimmed_len(acc@, (6 * k) as nat);
            }
            e = e - 1;
        } else {
            let sq = mp_mul_basecase(&base, &base);
            base = mp_trim_top(sq);
            proof {
                assert(limbs_val(base@) == bv * bv);
                // pow(b*b, e/2) == pow(b, e) for even e
                vstd::arithmetic::power::lemma_square_is_pow2(bv as int);
                lemma_pow_multiplies(bv as int, 2, (e / 2) as nat);
                assert(2 * ((e / 2) as nat) == e as nat);
                assert(pow((bv * bv) as int, (e / 2) as nat) == pow(bv as int, e as nat));
                lemma_mul_strictly_positive(bv as int, bv as int);
                lemma_pow_positive((bv * bv) as int, (e / 2) as nat);
                // pow(x, j) >= x for j >= 1 and x >= 1
                assert(e >= 2);
                assert(bv * bv >= 1);
                assert(pow((bv * bv) as int, (e / 2) as nat) >= bv * bv) by {
                    assert(1nat <= (e / 2) as nat);
                    vstd::arithmetic::power::lemma_pow_increases(
                        (bv * bv) as nat,
                        1nat,
                        (e / 2) as nat,
                    );
                    lemma_pow1((bv * bv) as int);
                }
                // size: b*b <= pow(b*b, e/2) <= radix^k / acc <= 2^(6k)
                assert(bv * bv <= pow2((6 * k) as nat)) by (nonlinear_arith)
                    requires
                        av * pow((bv * bv) as int, (e / 2) as nat) == pow(radix as int, k as nat),
                        pow((bv * bv) as int, (e / 2) as nat) >= bv * bv,
                        av >= 1,
                        bv * bv >= 1,
                        pow(radix as int, k as nat) <= pow2((6 * k) as nat),
                ;
                assert(base@[base.len() - 1] != 0);
                lemma_trimmed_len(base@, (6 * k) as nat);
            }
            e = e / 2;
        }
    }
    proof {
        lemma_pow0(limbs_val(base@) as int);
        lemma_mul_basics(limbs_val(acc@) as int);
    }
    acc
}

/// Drop top zero limbs (keeping at least one limb); the value is
/// unchanged.
pub fn mp_trim_top(a: Vec<u64>) -> (r: Vec<u64>)
    requires
        a.len() >= 1,
    ensures
        limbs_val(r@) == limbs_val(a@),
        1 <= r.len() <= a.len(),
        limbs_val(a@) >= 1 ==> r@[r.len() - 1] != 0,
{
    let mut l = a.len();
    while l > 1 && a[l - 1] == 0
        invariant
            1 <= l <= a.len(),
            forall|j: int| l <= j < a.len() ==> a@[j] == 0,
        decreases l,
    {
        l = l - 1;
    }
    proof {
        lemma_limbs_val_split(a@, l as int);
        assert forall|j: int| 0 <= j < a.len() - l implies a@.subrange(l as int, a.len() as int)[j]
            == 0 by {
            assert(a@[j + l] == 0);
        }
        lemma_limbs_val_zero(a@.subrange(l as int, a.len() as int));
        lemma_mul_basics(pow2(64 * l as nat) as int);
    }
    let mut r: Vec<u64> = Vec::new();
    let mut i: usize = 0;
    while i < l
        invariant
            i <= l,
            l <= a.len(),
            r@ =~= a@.subrange(0, i as int),
        decreases l - i,
    {
        r.push(a[i]);
        i = i + 1;
    }
    proof {
        assert(r@ =~= a@.subrange(0, l as int));
        if limbs_val(a@) >= 1 {
            if r@[l - 1] == 0 {
                if l > 1 {
                    assert(false);
                } else {
                    lemma_limbs_val_singleton(r@);
                    assert(false);
                }
            }
        }
    }
    r
}


/// The bit length of `radix^k`.
pub open spec fn spec_pow_bits(radix: u64, k: nat) -> int {
    bit_length(pow(radix as int, k) as nat) as int
}

/// Widening used when dividing by a power of the radix, sized so the
/// quotient carries two bits beyond the precision measured from the
/// leading digit.
pub open spec fn spec_mpr_extra(a: bf_t, radix: u64, k: nat, prec: u64) -> int {
    let s0 = spec_pow_bits(radix, k) - 64 * a.tab.len() + prec + 66;
    if s0 < 66 {
        66int
    } else {
        s0
    }
}

pub open spec fn spec_mpr_too_wide(a: bf_t, radix: u64, k: nat, prec: u64, e_neg: bool) -> bool {
    let plen = (spec_pow_bits(radix, k) + 63) / 64;
    if e_neg {
        a.tab.len() + plen + spec_mpr_extra(a, radix, k, prec) / 64 + 4 >= 0x100_0000
    } else {
        a.tab.len() + plen + 2 > BF_LIMBS_MAX
    }
}

/// Multiply a number by `radix^e` and round once: the scaling behind
/// parsing and formatting.  A nonnegative `e` multiplies by the exact
/// power; a negative one divides the widened mantissa by it, with a
/// sticky bit for the remainder.
#[verifier::rlimit(100)]
#[verifier::spinoff_prover]
pub fn bf_mul_pow_radix(r: &mut bf_t, a: &bf_t, radix: u64, e: i64, prec: u64, flags: u32) -> (
    status: i32)
    requires
        bf_wf(*a),
        round_args_wf(prec, flags),
        prec != BF_PREC_INF,
        2 <= radix <= 36,
        -(BF_POW_RADIX_MAX as int) <= e <= BF_POW_RADIX_MAX as int,
    ensures
        bf_wf(*final(r)),
        bf_is_nan(*a) ==> bf_is_nan(*final(r)) && status == 0,
        bf_is_inf(*a) ==> bf_is_inf(*final(r)) && final(r).sign == a.sign && status == 0,
        bf_is_zero(*a) ==> bf_is_zero(*final(r)) && final(r).sign == a.sign && status == 0,
        bf_is_fin_nonzero(*a) && spec_mpr_too_wide(*a, radix, abs_e(e), prec, e < 0)
            ==> bf_is_nan(*final(r)) && status == BF_ST_MEM_ERROR,
        bf_is_fin_nonzero(*a) && !spec_mpr_too_wide(*a, radix, abs_e(e), prec, e < 0) ==> ({
            let k = abs_e(e);
            let p = pow(radix as int, k) as nat;
            if e >= 0 {
                status == spec_round_status(
                    bf_mant(*a) * p,
                    bf_e2(*a),
                    a.sign == 1,
                    prec,
                    flags,
                ) && rounded_to(*final(r), bf_mant(*a) * p, bf_e2(*a), a.sign == 1, prec, flags)
            } else {
                let ex = spec_mpr_extra(*a, radix, k, prec);
                let q = (bf_mant(*a) * pow2(ex as nat)) / p;
                let sticky: nat = if (bf_mant(*a) * pow2(ex as nat)) % p != 0 {
                    1
                } else {
                    0
                };
                let m = 2 * q + sticky;
                let e2 = bf_e2(*a) - ex - 1;
                status == spec_round_status(m as nat, e2, a.sign == 1, prec, flags) && rounded_to(
                    *final(r),
                    m as nat,
                    e2,
                    a.sign == 1,
                    prec,
                    flags,
                )
            }
        }),
{
    if a.expn == BF_EXP_NAN {
        bf_set_nan(r);
        return 0;
    }
    if a.expn == BF_EXP_INF {
        bf_set_inf(r, a.sign);
        return 0;
    }
    if a.expn == BF_EXP_ZERO {
        bf_set_zero(r, a.sign);
        return 0;
    }
    let k: u64 = if e >= 0 {
        e as u64
    } else {
        (-(e as i128)) as u64
    };
    proof {
        assert(k == abs_e(e));
    }
    let pv = mp_pow_radix(radix, k);
    // exact bit count of the power
    let lp = pv.len();
    let top = pv[lp - 1];
    proof {
        lemma_pow_positive(radix as int, k as nat);
        assert(limbs_val(pv@) >= 1);
        assert(top != 0);
    }
    let lz: u32 = top.leading_zeros();
    proof {
        lemma_clz_range(top);
    }
    let pbits: i64 = 64 * ((lp - 1) as i64) + 64 - (lz as i64);
    proof {
        // pbits is the bit length of the power
        let p = limbs_val(pv@);
        crate::bits::lemma_limbs_val_split3(pv@, lp - 1);
        assert(pv@.subrange(lp as int, lp as int) =~= Seq::<u64>::empty());
        lemma_mul_basics(pow2(64 * (lp - 1) as nat) as int);
        lemma_mul_basics(pow2(64) as int);
        lemma_pow2_pos(64 * (lp - 1) as nat);
        crate::bits::lemma_limbs_val_bound(pv@.subrange(0, lp - 1));
        assert(top * pow2(64 * (lp - 1) as nat) >= pow2((63 - lz) as nat) * pow2(
            64 * (lp - 1) as nat,
        )) by {
            lemma_mul_inequality(
                pow2((63 - lz) as nat) as int,
                top as int,
                pow2(64 * (lp - 1) as nat) as int,
            );
        }
        lemma_pow2_adds((63 - lz) as nat, 64 * (lp - 1) as nat);
        assert(p >= pow2((64 * lp - 1 - lz) as nat));
        assert(top * pow2(64 * (lp - 1) as nat) <= (pow2((64 - lz) as nat) - 1) * pow2(
            64 * (lp - 1) as nat,
        )) by {
            lemma_mul_inequality(
                top as int,
                pow2((64 - lz) as nat) - 1,
                pow2(64 * (lp - 1) as nat) as int,
            );
        }
        vstd::arithmetic::mul::lemma_mul_is_distributive_sub_other_way(
            pow2(64 * (lp - 1) as nat) as int,
            pow2((64 - lz) as nat) as int,
            1,
        );
        lemma_pow2_adds((64 - lz) as nat, 64 * (lp - 1) as nat);
        assert(p < pow2((64 * lp - lz) as nat));
        lemma_bit_length_unique(p, (64 * lp - lz) as nat);
        assert(pbits == spec_pow_bits(radix, k as nat));
        // and the trimmed length is determined by it
        assert(lp as int == (pbits + 63) / 64);
    }
    let la = a.tab.len();
    if e >= 0 {
        if la as u64 + lp as u64 + 2 > BF_LIMBS_MAX {
            bf_set_nan(r);
            return BF_ST_MEM_ERROR;
        }
        let prod = mp_mul_basecase(&a.tab, &pv);
        let new_expn: i128 = a.expn as i128 + 64 * (lp as i128);
        proof {
            lemma_mul_strictly_positive(bf_mant(*a) as int, limbs_val(pv@) as int);
            assert(-0x7800_0000_0000_0000 <= new_expn <= 0x7800_0000_0000_0000);
        }
        r.tab = prod;
        r.expn = new_expn as i64;
        r.sign = a.sign;
        return bf_normalize_and_round(r, prec, flags);
    }
    // negative exponent: divide the widened mantissa by the power
    let s0: i128 = pbits as i128 - 64 * (la as i128) + prec as i128 + 66;
    let ex_i: i128 = if s0 < 66 {
        66
    } else {
        s0
    };
    proof {
        assert(ex_i == spec_mpr_extra(*a, radix, k as nat, prec));
    }
    if la as i128 + lp as i128 + ex_i / 64 + 4 >= 0x100_0000 {
        bf_set_nan(r);
        return BF_ST_MEM_ERROR;
    }
    let ex: u64 = ex_i as u64;
    proof {
        lemma_wf_bit_length(*a);
        assert(64 * la + ex < 0x4000_0000_0000);
    }
    let (qv, sticky) = mp_divrem_bits(&a.tab, &pv, ex);
    let (mut mv, hi) = mp_shl(&qv, 1);
    let ghost qval = (bf_mant(*a) * pow2(ex as nat)) / limbs_val(pv@);
    proof {
        lemma2_to64();
        assert(limbs_val(mv@) + hi * pow2(64 * qv.len() as nat) == qval * 2);
    }
    let ghost pre_push = mv@;
    mv.push(hi);
    proof {
        lemma_limbs_val_push(pre_push, hi);
        assert(limbs_val(mv@) == 2 * qval) by {
            lemma_mul_is_commutative(qval as int, 2);
        }
    }
    if sticky {
        let ghost pre_add = mv@;
        let c = mp_add_ui(&mut mv, 1);
        proof {
            if c != 0 {
                lemma_limbs_val_bound(pre_add);
                lemma_pow2_pos(64 * mv.len() as nat);
                lemma_mul_basics(pow2(64 * mv.len() as nat) as int);
                assert(limbs_val(mv@) == 0);
                assert(2 * qval + 1 == pow2(64 * mv.len() as nat));
                lemma_pow2_adds(1, (64 * mv.len() - 1) as nat);
                assert(pow2(64 * mv.len() as nat) == 2 * pow2((64 * mv.len() - 1) as nat));
                assert(false);
            }
            lemma_mul_basics(pow2(64 * mv.len() as nat) as int);
            lemma_mul_basics(0int);
            assert(0 * pow2(64 * mv.len() as nat) == 0);
        }
    }
    proof {
        lemma_pow2_pos(ex as nat);
        lemma_mul_strictly_positive(bf_mant(*a) as int, pow2(ex as nat) as int);
        if qval == 0 && !sticky {
            vstd::arithmetic::div_mod::lemma_fundamental_div_mod(
                (bf_mant(*a) * pow2(ex as nat)) as int,
                limbs_val(pv@) as int,
            );
            lemma_mul_basics(limbs_val(pv@) as int);
            lemma_mul_basics(0int);
            assert(0 * limbs_val(pv@) == 0);
            assert(false);
        }
    }
    let e_fin: i128 = (a.expn as i128 - 64 * (la as i128)) - ex_i - 1;
    let raw_expn: i128 = e_fin + 64 * (mv.len() as i128);
    proof {
        assert(mv.len() as int <= la as int + ex_i / 64 + 4);
        assert(-0x7800_0000_0000_0000 <= raw_expn <= 0x7800_0000_0000_0000);
        assert(mv.len() <= BF_LIMBS_MAX);
    }
    r.tab = mv;
    r.expn = raw_expn as i64;
    r.sign = a.sign;
    bf_normalize_and_round(r, prec, flags)
}

/// Magnitude of a signed radix exponent.
pub open spec fn abs_e(e: i64) -> nat {
    if e >= 0 {
        e as nat
    } else {
        (-(e as int)) as nat
    }
}

} // verus!
