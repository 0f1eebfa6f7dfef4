//! Arithmetic operations on numbers: each computes the exact result (or
//! an exactly characterised intermediate) and rounds it once through the
//! rounding engine, so its contract is `spec_round` of the exact value.

use vstd::prelude::*;
use vstd::arithmetic::power2::{pow2, lemma_pow2_adds, lemma_pow2_pos, lemma2_to64, lemma2_to64_rest};
use vstd::arithmetic::mul::{lemma_mul_inequality, lemma_mul_basics, lemma_mul_strictly_positive, lemma_mul_is_associative, lemma_mul_is_commutative};
use crate::bits::{limbs_val, lemma_limbs_val_bound, lemma_limbs_val_singleton};
use crate::dyadic::{dyadic_eq, bit_length, lemma_bit_length_bounds};
use crate::limb_ops::{mp_mul_basecase};
use crate::num::{bf_t, bf_wf, bf_mant, bf_e2, bf_is_zero, bf_is_inf, bf_is_nan, bf_is_finite, bf_is_fin_nonzero, bf_mag_eq, bf_set_zero, bf_set_inf, bf_set_nan, spec_e_min, spec_e_max, spec_rnd_mode, flags_wf, BF_ST_INVALID_OP, BF_ST_INEXACT, BF_EXP_ZERO, BF_EXP_INF, BF_EXP_NAN, BF_PREC_INF, BF_EXP_SANE, BF_LIMBS_MAX, BF_PREC_WORK_MAX, BF_FLAG_SUBNORMAL};
use crate::round::{Rounded, spec_round, spec_round_status, bf_normalize_and_round};

verus! {

/// The common argument constraints of every rounding operation.
pub open spec fn round_args_wf(prec: u64, flags: u32) -> bool {
    &&& flags_wf(flags)
    &&& 2 <= prec
    &&& (prec <= BF_PREC_WORK_MAX || prec == BF_PREC_INF)
    &&& (prec == BF_PREC_INF ==> flags & BF_FLAG_SUBNORMAL == 0)
}

/// What a destination must satisfy when the rounded result of the exact
/// magnitude `m * 2^e` with sign `neg` was stored in it.
pub open spec fn rounded_to(r: bf_t, m: nat, e: int, neg: bool, prec: u64, flags: u32) -> bool {
    &&& r.sign == (if neg {
        1int
    } else {
        0int
    })
    &&& match spec_round(m, e, neg, prec, flags) {
        Rounded::Zero => bf_is_zero(r),
        Rounded::Fin(m2, e2) => bf_is_fin_nonzero(r) && bf_mag_eq(r, m2, e2),
        Rounded::Inf => bf_is_inf(r),
        Rounded::Max => bf_is_fin_nonzero(r) && bf_mag_eq(
            r,
            (pow2(prec as nat) - 1) as nat,
            spec_e_max(flags) - prec,
        ),
    }
}

/// Round a well-formed number in place.  Specials are untouched; a
/// finite nonzero value is rounded exactly as `spec_round` says.
pub fn bf_round(r: &mut bf_t, prec: u64, flags: u32) -> (status: i32)
    requires
        bf_wf(*old(r)),
        round_args_wf(prec, flags),
    ensures
        bf_wf(*final(r)),
        final(r).sign == old(r).sign,
        !bf_is_fin_nonzero(*old(r)) ==> *final(r) == *old(r) && status == 0,
        bf_is_fin_nonzero(*old(r)) ==> status == spec_round_status(
            bf_mant(*old(r)),
            bf_e2(*old(r)),
            old(r).sign == 1,
            prec,
            flags,
        ) && rounded_to(
            *final(r),
            bf_mant(*old(r)),
            bf_e2(*old(r)),
            old(r).sign == 1,
            prec,
            flags,
        ),
{
    if r.tab.len() == 0 {
        return 0;
    }
    proof {
        crate::bits::lemma_limbs_val_zero(r.tab@);
        assert(r.tab@[0] != 0);
    }
    bf_normalize_and_round(r, prec, flags)
}

/// Multiply: the exact product of the mantissas, rounded once.
pub fn bf_mul(r: &mut bf_t, a: &bf_t, b: &bf_t, prec: u64, flags: u32) -> (status: i32)
    requires
        bf_wf(*a),
        bf_wf(*b),
        round_args_wf(prec, flags),
        a.tab.len() + b.tab.len() <= BF_LIMBS_MAX,
    ensures
        bf_wf(*final(r)),
        (bf_is_nan(*a) || bf_is_nan(*b)) ==> bf_is_nan(*final(r)) && status == 0,
        !bf_is_nan(*a) && !bf_is_nan(*b) ==> ({
            let neg = a.sign != b.sign;
            let s: int = if neg {
                1
            } else {
                0
            };
            &&& ((bf_is_inf(*a) && bf_is_zero(*b)) || (bf_is_zero(*a) && bf_is_inf(*b)))
                ==> bf_is_nan(*final(r)) && status == BF_ST_INVALID_OP
            &&& (bf_is_inf(*a) && !bf_is_zero(*b) || bf_is_inf(*b) && !bf_is_zero(*a))
                ==> bf_is_inf(*final(r)) && final(r).sign == s && status == 0
            &&& (bf_is_zero(*a) && bf_is_finite(*b) || bf_is_zero(*b) && bf_is_finite(*a))
                ==> bf_is_zero(*final(r)) && final(r).sign == s && status == 0
            &&& (bf_is_fin_nonzero(*a) && bf_is_fin_nonzero(*b)) ==> status == spec_round_status(
                bf_mant(*a) * bf_mant(*b),
                bf_e2(*a) + bf_e2(*b),
                neg,
                prec,
                flags,
            ) && rounded_to(
                *final(r),
                bf_mant(*a) * bf_mant(*b),
                bf_e2(*a) + bf_e2(*b),
                neg,
                prec,
                flags,
            )
        }),
{
    if a.expn == BF_EXP_NAN || b.expn == BF_EXP_NAN {
        bf_set_nan(r);
        return 0;
    }
    let sign: i32 = if a.sign == b.sign {
        0
    } else {
        1
    };
    if a.expn == BF_EXP_INF || b.expn == BF_EXP_INF {
        if (a.expn == BF_EXP_INF && b.expn == BF_EXP_ZERO) || (b.expn == BF_EXP_INF && a.expn
            == BF_EXP_ZERO) {
            bf_set_nan(r);
            return BF_ST_INVALID_OP;
        }
        bf_set_inf(r, sign);
        return 0;
    }
    if a.expn == BF_EXP_ZERO || b.expn == BF_EXP_ZERO {
        bf_set_zero(r, sign);
        return 0;
    }
    // both finite and nonzero: exact product, then one rounding
    let prod = mp_mul_basecase(&a.tab, &b.tab);
    let new_expn: i64 = a.expn + b.expn;
    proof {
        lemma_mul_strictly_positive(bf_mant(*a) as int, bf_mant(*b) as int);
        assert(new_expn - 64 * prod.len() == bf_e2(*a) + bf_e2(*b));
    }
    r.tab = prod;
    r.expn = new_expn;
    r.sign = sign;
    bf_normalize_and_round(r, prec, flags)
}


/// Saturate a shifted exponent into the window the rounding engine
/// accepts; outside it the rounded outcome no longer depends on the
/// exact exponent.
pub open spec fn spec_clamp_expn(e: int) -> int {
    if e > 0x4000_0000_0000_0000 {
        0x4000_0000_0000_0000
    } else if e < -0x4000_0000_0000_0000 {
        -0x4000_0000_0000_0000
    } else {
        e
    }
}

/// Multiply by a power of two: a pure exponent shift (saturated far
/// outside the representable range), then one rounding.
pub fn bf_mul_2exp(r: &mut bf_t, e: i64, prec: u64, flags: u32) -> (status: i32)
    requires
        bf_wf(*old(r)),
        round_args_wf(prec, flags),
    ensures
        bf_wf(*final(r)),
        !bf_is_fin_nonzero(*old(r)) ==> *final(r) == *old(r) && status == 0,
        bf_is_fin_nonzero(*old(r)) ==> ({
            let e2 = spec_clamp_expn(old(r).expn + e) - 64 * old(r).tab.len();
            status == spec_round_status(
                bf_mant(*old(r)),
                e2,
                old(r).sign == 1,
                prec,
                flags,
            ) && rounded_to(*final(r), bf_mant(*old(r)), e2, old(r).sign == 1, prec, flags)
        }),
{
    if r.tab.len() == 0 {
        return 0;
    }
    let sum: i128 = r.expn as i128 + e as i128;
    let clamped: i128 = if sum > 0x4000_0000_0000_0000 {
        0x4000_0000_0000_0000
    } else if sum < -0x4000_0000_0000_0000 {
        -0x4000_0000_0000_0000
    } else {
        sum
    };
    r.expn = clamped as i64;
    proof {
        crate::bits::lemma_limbs_val_zero(r.tab@);
        assert(r.tab@[0] != 0);
    }
    bf_normalize_and_round(r, prec, flags)
}

} // verus!
