//! The rounding engine: one primitive, parameterised by precision,
//! rounding mode, exponent range and subnormal policy, that every
//! operation funnels its raw result through.
//!
//! The specification side (`spec_round`, `spec_round_status`) defines the
//! rounded value of a raw magnitude `m * 2^e2` and the status word it
//! earns; the executable side realises exactly that on the limb
//! representation.

use vstd::prelude::*;
use vstd::arithmetic::power2::{pow2, lemma_pow2_adds, lemma_pow2_pos, lemma_pow2_strictly_increases, lemma2_to64, lemma2_to64_rest};
use vstd::arithmetic::mul::{lemma_mul_inequality, lemma_mul_basics, lemma_mul_is_associative, lemma_mul_strict_inequality, lemma_mul_strictly_positive};
use vstd::arithmetic::div_mod::{lemma_fundamental_div_mod, lemma_fundamental_div_mod_converse};
use crate::bits::{limbs_val, lemma_limbs_val_split, lemma_limbs_val_div_mod, lemma_limbs_val_zero, lemma_limbs_val_bound, lemma_limbs_val_singleton, lemma_limbs_val_push, lemma_norm_val_range, lemma_val_range_norm};
use crate::dyadic::{dyadic_eq, bit_length, lemma_bit_length_bounds, lemma_bit_length_unique, lemma_bit_length_shift, spec_round_mant, spec_round_inexact, spec_rnd_up, spec_round_bit, spec_sticky_bit, lemma_dyadic_eq_common, lemma_dyadic_eq_trans};
use crate::limb_ops::{mp_shl, mp_shr, mp_add_ui, lemma_clz_range};
use crate::num::{bf_t, bf_wf, bf_mant, bf_e2, bf_is_zero, bf_is_inf, bf_is_nan, bf_is_finite, bf_is_fin_nonzero, bf_mag_eq, bf_set_zero, bf_set_inf, bf_set_nan, spec_e_min, spec_e_max, spec_rnd_mode, spec_exp_bits, flags_wf, bf_exp_bounds, bf_get_rnd_mode, lemma_wf_bit_length, BF_RNDN, BF_RNDZ, BF_RNDD, BF_RNDU, BF_RNDNA, BF_RNDA, BF_RNDF, BF_FLAG_SUBNORMAL, BF_FLAG_RADPNT_PREC, BF_ST_INVALID_OP, BF_ST_DIVIDE_ZERO, BF_ST_OVERFLOW, BF_ST_UNDERFLOW, BF_ST_INEXACT, BF_ST_MEM_ERROR, BF_EXP_ZERO, BF_EXP_INF, BF_EXP_NAN, BF_PREC_MIN, BF_PREC_MAX, BF_PREC_INF, BF_EXP_SANE, BF_LIMBS_MAX, BF_PREC_WORK_MAX};

verus! {

/// What rounding a finite nonzero magnitude produces.
pub enum Rounded {
    /// Underflowed (or rounded) to zero; the sign is kept.
    Zero,
    /// A finite nonzero magnitude `m * 2^e`.
    Fin(nat, int),
    /// Overflowed to infinity.
    Inf,
    /// Overflowed to the largest finite magnitude at the target precision.
    Max,
}

/// The effective precision: from the radix point when the flag says so,
/// narrowed at the subnormal boundary otherwise.
pub open spec fn spec_eff_prec(prec1: u64, flags: u32, expn: int) -> int {
    if flags & BF_FLAG_RADPNT_PREC != 0 {
        if prec1 != BF_PREC_INF {
            expn + prec1
        } else {
            prec1 as int
        }
    } else if expn < spec_e_min(flags) && flags & BF_FLAG_SUBNORMAL != 0 {
        prec1 - (spec_e_min(flags) - expn)
    } else {
        prec1 as int
    }
}

/// Whether overflow produces infinity (otherwise the largest finite
/// magnitude) under this mode and sign.
pub open spec fn spec_ovf_is_inf(mode: u32, neg: bool, prec1: u64) -> bool {
    ||| prec1 == BF_PREC_INF
    ||| mode == BF_RNDN
    ||| mode == BF_RNDNA
    ||| mode == BF_RNDA
    ||| (mode == BF_RNDD && neg)
    ||| (mode == BF_RNDU && !neg)
}

/// The rounded value of the magnitude `m * 2^e2` (`m >= 1`) at precision
/// `prec1` under the mode, exponent range and subnormal policy of
/// `flags`.
pub open spec fn spec_round(m: nat, e2: int, neg: bool, prec1: u64, flags: u32) -> Rounded {
    let n = bit_length(m) as int;
    let expn = e2 + n;
    let mode = spec_rnd_mode(flags);
    let prec = spec_eff_prec(prec1, flags, expn);
    let e_min = spec_e_min(flags);
    let e_max = spec_e_max(flags);
    if prec >= n {
        // every mantissa bit is kept; only the range is checked
        if expn < e_min && flags & BF_FLAG_SUBNORMAL == 0 {
            Rounded::Zero
        } else if expn > e_max {
            if spec_ovf_is_inf(mode, neg, prec1) {
                Rounded::Inf
            } else {
                Rounded::Max
            }
        } else {
            Rounded::Fin(m, e2)
        }
    } else {
        let drop = (n - prec) as nat;
        let q2 = spec_round_mant(mode, neg, m, drop);
        if prec <= 0 {
            // the whole mantissa is below the last kept position
            if q2 > 0 {
                Rounded::Fin(1, expn - prec)
            } else {
                Rounded::Zero
            }
        } else {
            let n2 = bit_length(q2) as int;
            let expn2 = e2 + drop + n2;
            if expn2 < e_min && flags & BF_FLAG_SUBNORMAL == 0 {
                Rounded::Zero
            } else if expn2 > e_max {
                if spec_ovf_is_inf(mode, neg, prec1) {
                    Rounded::Inf
                } else {
                    Rounded::Max
                }
            } else {
                Rounded::Fin(q2, e2 + drop)
            }
        }
    }
}

/// The status word that rounding `m * 2^e2` earns.
pub open spec fn spec_round_status(m: nat, e2: int, neg: bool, prec1: u64, flags: u32) -> i32 {
    let n = bit_length(m) as int;
    let expn = e2 + n;
    let mode = spec_rnd_mode(flags);
    let prec = spec_eff_prec(prec1, flags, expn);
    let e_min = spec_e_min(flags);
    let e_max = spec_e_max(flags);
    let base: i32 = if mode == BF_RNDF {
        BF_ST_INEXACT
    } else {
        0
    };
    if prec >= n {
        if expn < e_min && flags & BF_FLAG_SUBNORMAL == 0 {
            base | BF_ST_UNDERFLOW | BF_ST_INEXACT
        } else if expn > e_max {
            base | BF_ST_OVERFLOW | BF_ST_INEXACT
        } else {
            base
        }
    } else {
        let drop = (n - prec) as nat;
        let inx = spec_round_inexact(m, drop) || mode == BF_RNDF;
        let base2: i32 = if inx {
            BF_ST_INEXACT
        } else {
            0
        };
        if prec <= 0 {
            base2 | BF_ST_UNDERFLOW | BF_ST_INEXACT
        } else {
            let q2 = spec_round_mant(mode, neg, m, drop);
            let n2 = bit_length(q2) as int;
            let expn2 = e2 + drop + n2;
            if expn2 < e_min {
                if flags & BF_FLAG_SUBNORMAL == 0 {
                    base2 | BF_ST_UNDERFLOW | BF_ST_INEXACT
                } else if inx {
                    base2 | BF_ST_UNDERFLOW
                } else {
                    base2
                }
            } else if expn2 > e_max {
                base2 | BF_ST_OVERFLOW | BF_ST_INEXACT
            } else {
                base2
            }
        }
    }
}

/// Remove bottom zero limbs; the value and the stored exponent are
/// unchanged.
fn bf_trim_bottom(r: &mut bf_t)
    requires
        old(r).tab.len() >= 1,
        limbs_val(old(r).tab@) > 0,
    ensures
        final(r).sign == old(r).sign,
        final(r).expn == old(r).expn,
        final(r).tab.len() >= 1,
        final(r).tab.len() <= old(r).tab.len(),
        final(r).tab[0] != 0,
        final(r).tab[final(r).tab.len() - 1] == old(r).tab[old(r).tab.len() - 1],
        dyadic_eq(
            limbs_val(final(r).tab@),
            old(r).expn - 64 * final(r).tab.len(),
            limbs_val(old(r).tab@),
            old(r).expn - 64 * old(r).tab.len(),
        ),
        bit_length(limbs_val(final(r).tab@)) + 64 * (old(r).tab.len() - final(r).tab.len())
            == bit_length(limbs_val(old(r).tab@)),
{
    let n = r.tab.len();
    let mut k: usize = 0;
    while k < n && r.tab[k] == 0
        invariant
            k <= n,
            n == r.tab.len(),
            r == old(r),
            forall|j: int| 0 <= j < k ==> r.tab@[j] == 0,
        decreases n - k,
    {
        k = k + 1;
    }
    proof {
        // not all limbs are zero
        lemma_limbs_val_zero(r.tab@);
        if k == n {
            assert(false);
        }
    }
    if k == 0 {
        proof {
            lemma2_to64();
            lemma_mul_basics(limbs_val(r.tab@) as int);
        }
        return ;
    }
    let mut tab2: Vec<u64> = Vec::new();
    let mut i: usize = k;
    while i < n
        invariant
            k <= i <= n,
            n == r.tab.len(),
            r == old(r),
            tab2@ =~= r.tab@.subrange(k as int, i as int),
        decreases n - i,
    {
        tab2.push(r.tab[i]);
        i = i + 1;
    }
    proof {
        assert(tab2@ =~= r.tab@.subrange(k as int, n as int));
        lemma_limbs_val_div_mod(r.tab@, k as int);
        lemma_limbs_val_split(r.tab@, k as int);
        lemma_limbs_val_zero(r.tab@.subrange(0, k as int));
        assert forall|j: int| 0 <= j < k implies r.tab@.subrange(0, k as int)[j] == 0 by {
            assert(r.tab@[j] == 0);
        }
        assert(limbs_val(r.tab@.subrange(0, k as int)) == 0);
        // value of the old array is the new value shifted up by 64*k
        assert(limbs_val(r.tab@) == limbs_val(tab2@) * pow2(64 * k as nat));
        assert(limbs_val(tab2@) > 0) by {
            lemma_pow2_pos(64 * k as nat);
            if limbs_val(tab2@) == 0 {
                lemma_mul_basics(pow2(64 * k as nat) as int);
            }
        }
        lemma_bit_length_shift(limbs_val(tab2@), 64 * k as nat);
        assert(tab2@[tab2.len() - 1] == r.tab@[n - 1]);
        assert(tab2@[0] == r.tab@[k as int]);
    }
    let ghost old_tab = r.tab@;
    r.tab = tab2;
    proof {
        let e_new = old(r).expn - 64 * r.tab.len();
        let e_old = old(r).expn - 64 * old(r).tab.len();
        assert(e_new - e_old == 64 * k);
        assert(dyadic_eq(limbs_val(r.tab@), e_new, limbs_val(old_tab), e_old));
    }
}

/// Trim top zero limbs and shift so the top bit of the top limb is set;
/// the value is preserved and the stored exponent becomes
/// `e2 + bit_length(m)` for the incoming scale `e2 = expn - 64*len`.
fn bf_renorm(r: &mut bf_t) -> (res: (bool, u32))
    requires
        old(r).tab.len() <= BF_LIMBS_MAX + 1,
        -0x7c00_0000_0000_0000 <= old(r).expn <= 0x7c00_0000_0000_0000,
    ensures
        res.0 == (limbs_val(old(r).tab@) == 0),
        final(r).sign == old(r).sign,
        res.0 ==> final(r).tab.len() == 0,
        !res.0 ==> res.1 < 64 && 64 * final(r).tab.len() == bit_length(limbs_val(old(r).tab@))
            + res.1,
        !res.0 ==> ({
            let m0 = limbs_val(old(r).tab@);
            let e20 = old(r).expn - 64 * old(r).tab.len();
            &&& final(r).tab.len() >= 1
            &&& final(r).tab.len() <= old(r).tab.len()
            &&& final(r).tab[final(r).tab.len() - 1] >= 0x8000_0000_0000_0000
            &&& limbs_val(final(r).tab@) > 0
            &&& bit_length(limbs_val(final(r).tab@)) == 64 * final(r).tab.len()
            &&& final(r).expn == e20 + bit_length(m0)
            &&& dyadic_eq(
                limbs_val(final(r).tab@),
                final(r).expn - 64 * final(r).tab.len(),
                m0,
                e20,
            )
        }),
{
    let ghost m0 = limbs_val(old(r).tab@);
    let ghost e20 = old(r).expn - 64 * old(r).tab.len();
    // trim top zero limbs
    let mut l = r.tab.len();
    while l > 0 && r.tab[l - 1] == 0
        invariant
            l <= r.tab.len(),
            r == old(r),
            forall|j: int| l <= j < r.tab.len() ==> r.tab@[j] == 0,
        decreases l,
    {
        l = l - 1;
    }
    proof {
        lemma_limbs_val_split(r.tab@, l as int);
        assert forall|j: int| 0 <= j < r.tab.len() - l implies r.tab@.subrange(
            l as int,
            r.tab.len() as int,
        )[j] == 0 by {
            assert(r.tab@[j + l] == 0);
        }
        lemma_limbs_val_zero(r.tab@.subrange(l as int, r.tab.len() as int));
        lemma_mul_basics(pow2(64 * l as nat) as int);
        assert(m0 == limbs_val(r.tab@.subrange(0, l as int)));
    }
    if l == 0 {
        proof {
            assert(r.tab@.subrange(0, 0) =~= Seq::<u64>::empty());
        }
        r.tab = Vec::new();
        return (true, 0);
    }
    proof {
        assert(r.tab@.subrange(0, l as int)[l - 1] == r.tab@[l - 1]);
        lemma_limbs_val_zero(r.tab@.subrange(0, l as int));
        assert(m0 > 0);
    }
    // keep the low l limbs
    let mut tab2: Vec<u64> = Vec::new();
    let mut i: usize = 0;
    while i < l
        invariant
            i <= l,
            l <= r.tab.len(),
            r == old(r),
            tab2@ =~= r.tab@.subrange(0, i as int),
        decreases l - i,
    {
        tab2.push(r.tab[i]);
        i = i + 1;
    }
    let new_expn: i64 = r.expn - 64 * ((r.tab.len() - l) as i64);
    r.tab = tab2;
    r.expn = new_expn;
    proof {
        assert(r.tab@ =~= old(r).tab@.subrange(0, l as int));
        assert(limbs_val(r.tab@) == m0);
        // new scale: expn - 64*l == e20 + 64*(len0 - l) ... == e20 + 64*l - 64*l
        assert(new_expn == e20 + 64 * l);
    }
    // shift left so the top bit is set
    let top = r.tab[l - 1];
    let lz: u32 = top.leading_zeros();
    proof {
        lemma_clz_range(top);
    }
    if lz > 0 {
        proof {
            // m0 < 2^(64l - lz): split off the top limb
            lemma_limbs_val_split(r.tab@, l - 1);
            assert(r.tab@.subrange(l - 1, l as int) =~= seq![top]);
            lemma_limbs_val_singleton(r.tab@.subrange(l - 1, l as int));
            lemma_limbs_val_bound(r.tab@.subrange(0, l - 1));
            assert(top < pow2((64 - lz) as nat));
            assert(top * pow2(64 * (l - 1) as nat) <= (pow2((64 - lz) as nat) - 1) * pow2(
                64 * (l - 1) as nat,
            )) by {
                lemma_mul_inequality(
                    top as int,
                    pow2((64 - lz) as nat) - 1,
                    pow2(64 * (l - 1) as nat) as int,
                );
            }
            vstd::arithmetic::mul::lemma_mul_is_distributive_sub_other_way(
                pow2(64 * (l - 1) as nat) as int,
                pow2((64 - lz) as nat) as int,
                1,
            );
            lemma_pow2_adds((64 - lz) as nat, 64 * (l - 1) as nat);
            assert((64 - lz) as nat + 64 * (l - 1) as nat == (64 * l - lz) as nat);
            lemma_pow2_pos(64 * (l - 1) as nat);
            assert(m0 < pow2((64 * l - lz) as nat));
            // m0 >= 2^(64l - 1 - lz): the top limb is at least 2^(63-lz)
            assert(pow2((63 - lz) as nat) <= top);
            assert(top * pow2(64 * (l - 1) as nat) >= pow2((63 - lz) as nat) * pow2(
                64 * (l - 1) as nat,
            )) by {
                lemma_mul_inequality(
                    pow2((63 - lz) as nat) as int,
                    top as int,
                    pow2(64 * (l - 1) as nat) as int,
                );
            }
            lemma_pow2_adds((63 - lz) as nat, 64 * (l - 1) as nat);
            assert(m0 >= pow2((64 * l - 1 - lz) as nat));
            lemma_bit_length_unique(m0, (64 * l - lz) as nat);
        }
        let (tab3, hi) = mp_shl(&r.tab, lz as u64);
        proof {
            // the high part pushed out is zero
            assert(m0 * pow2(lz as nat) < pow2((64 * l - lz) as nat) * pow2(lz as nat)) by {
                lemma_mul_strict_inequality(
                    m0 as int,
                    pow2((64 * l - lz) as nat) as int,
                    pow2(lz as nat) as int,
                );
                lemma_pow2_pos(lz as nat);
            }
            lemma_pow2_adds((64 * l - lz) as nat, lz as nat);
            assert(limbs_val(tab3@) + hi * pow2(64 * l as nat) == m0 * pow2(lz as nat));
            if hi > 0 {
                assert(hi * pow2(64 * l as nat) >= pow2(64 * l as nat)) by {
                    lemma_mul_inequality(1, hi as int, pow2(64 * l as nat) as int);
                    lemma_mul_basics(pow2(64 * l as nat) as int);
                }
                assert(false);
            }
            lemma_mul_basics(pow2(64 * l as nat) as int);
            assert(limbs_val(tab3@) == m0 * pow2(lz as nat));
            lemma_bit_length_shift(m0, lz as nat);
            // the shifted mantissa fills 64*l bits exactly
            assert(bit_length(limbs_val(tab3@)) == 64 * l);
            lemma_bit_length_bounds(limbs_val(tab3@));
            lemma_val_range_norm(tab3@);
        }
        let e2: i64 = r.expn - (lz as i64);
        r.tab = tab3;
        r.expn = e2;
        proof {
            let m1 = limbs_val(r.tab@);
            assert(e2 - 64 * l == e20 - lz);
            assert(bit_length(m0) == 64 * l - lz);
            assert(e2 == e20 + bit_length(m0));
            assert(dyadic_eq(m1, e2 - 64 * l, m0, e20)) by {
                assert(m0 * pow2(lz as nat) == m1);
            }
        }
    } else {
        proof {
            lemma2_to64_rest();
            assert(r.tab@[l - 1] >= 0x8000_0000_0000_0000);
            lemma_norm_val_range(r.tab@);
            lemma_bit_length_unique(m0, (64 * l) as nat);
            lemma2_to64();
            lemma_mul_basics(m0 as int);
            assert(new_expn - 64 * l == e20);
            assert(dyadic_eq(m0, new_expn - 64 * l, m0, e20));
        }
        return (false, 0);
    }
    (false, lz)
}


/// Build the overflow result: infinity, or the largest finite magnitude
/// `(2^prec1 - 1) * 2^(e_max - prec1)`, as the mode directs.
/// Returns `BF_ST_OVERFLOW | BF_ST_INEXACT`.
pub fn bf_set_overflow(r: &mut bf_t, sign: i32, prec1: u64, flags: u32) -> (status: i32)
    requires
        flags_wf(flags),
        sign == 0 || sign == 1,
        2 <= prec1,
        prec1 <= BF_PREC_WORK_MAX || prec1 == BF_PREC_INF,
    ensures
        bf_wf(*final(r)),
        final(r).sign == sign,
        status == BF_ST_OVERFLOW | BF_ST_INEXACT,
        spec_ovf_is_inf(spec_rnd_mode(flags), sign == 1, prec1) ==> bf_is_inf(*final(r)),
        !spec_ovf_is_inf(spec_rnd_mode(flags), sign == 1, prec1) ==> bf_is_fin_nonzero(*final(r))
            && bf_mag_eq(*final(r), (pow2(prec1 as nat) - 1) as nat, spec_e_max(flags) - prec1),
    {
    let rnd_mode = bf_get_rnd_mode(flags);
    if prec1 == BF_PREC_INF || rnd_mode == BF_RNDN || rnd_mode == BF_RNDNA || rnd_mode == BF_RNDA
        || (rnd_mode == BF_RNDD && sign == 1) || (rnd_mode == BF_RNDU && sign == 0) {
        bf_set_inf(r, sign);
        return BF_ST_OVERFLOW | BF_ST_INEXACT;
    }
    // largest finite magnitude at prec1 bits
    let l: usize = ((prec1 + 63) / 64) as usize;
    let lz0: u64 = 64 * (l as u64) - prec1;
    proof {
        assert(l >= 1);
        assert(lz0 < 64);
        lemma2_to64();
        lemma2_to64_rest();
        vstd::bits::lemma_u64_pow2_no_overflow(lz0 as nat);
        vstd::bits::lemma_u64_shl_is_mul(1u64, lz0);
        lemma_mul_basics(pow2(lz0 as nat) as int);
    }
    let plz: u64 = 1u64 << lz0;
    let bottom: u64 = u64::MAX - (plz - 1);
    let mut tab: Vec<u64> = Vec::new();
    tab.push(bottom);
    let mut i: usize = 1;
    proof {
        lemma_limbs_val_singleton(tab@);
        assert(pow2(64) == 0x1_0000_0000_0000_0000);
        assert(limbs_val(tab@) == pow2(64) - pow2(lz0 as nat));
    }
    while i < l
        invariant
            1 <= i <= l,
            tab.len() == i,
            lz0 < 64,
            pow2(64) == 0x1_0000_0000_0000_0000,
            pow2(lz0 as nat) >= 1,
            limbs_val(tab@) == pow2(64 * i as nat) - pow2(lz0 as nat),
            tab@[0] == 0xffff_ffff_ffff_ffff - (pow2(lz0 as nat) - 1),
            tab@[i - 1] >= 0x8000_0000_0000_0000,
        decreases l - i,
    {
        proof {
            lemma_limbs_val_push(tab@, 0xffff_ffff_ffff_ffff);
            lemma_pow2_adds(64, 64 * i as nat);
            assert(64 + 64 * i as nat == 64 * (i + 1) as nat);
            lemma_pow2_pos(64 * i as nat);
            assert(0xffff_ffff_ffff_ffff * pow2(64 * i as nat) == pow2(64) * pow2(64 * i as nat)
                - pow2(64 * i as nat)) by {
                vstd::arithmetic::mul::lemma_mul_is_distributive_sub_other_way(
                    pow2(64 * i as nat) as int,
                    pow2(64) as int,
                    1,
                );
            }
        }
        tab.push(0xffff_ffff_ffff_ffff);
        i = i + 1;
    }
    let (e_min, e_max) = bf_exp_bounds(flags);
    r.sign = sign;
    r.expn = e_max;
    r.tab = tab;
    proof {
        // value: 2^(64l) - 2^lz0 == (2^prec1 - 1) * 2^lz0
        lemma_pow2_adds(prec1 as nat, lz0 as nat);
        assert(prec1 as nat + lz0 as nat == 64 * l as nat);
        assert((pow2(prec1 as nat) - 1) * pow2(lz0 as nat) == pow2(64 * l as nat) - pow2(
            lz0 as nat,
        )) by {
            vstd::arithmetic::mul::lemma_mul_is_distributive_sub_other_way(
                pow2(lz0 as nat) as int,
                pow2(prec1 as nat) as int,
                1,
            );
        }
        lemma_pow2_pos(lz0 as nat);
        lemma_pow2_pos(prec1 as nat);
        // well-formed: the bottom limb is nonzero, the top bit is set
        assert(r.tab@[0] != 0);
        assert(bf_e2(*r) == e_max - 64 * l);
        assert(spec_e_max(flags) - prec1 - bf_e2(*r) == lz0);
        assert(bf_mag_eq(*r, (pow2(prec1 as nat) - 1) as nat, spec_e_max(flags) - prec1)) by {
            assert((pow2(prec1 as nat) - 1) * pow2(lz0 as nat) == bf_mant(*r));
        }
        assert(64 * l as nat <= 64 * (0x8000_0000nat / 64) + 64);
    }
    BF_ST_OVERFLOW | BF_ST_INEXACT
}

/// The rounding addend for the given mode, sign, quotient parity, round
/// bit and sticky bit.
fn bf_rnd_up_exec(rnd_mode: u32, neg: bool, parity_odd: bool, rb: bool, sb: bool, Ghost(q): Ghost<nat>) -> (up: bool)
    requires
        rnd_mode <= 6,
        parity_odd == (q % 2 == 1),
    ensures
        up == spec_rnd_up(rnd_mode, neg, q, rb, sb),
{
    if rnd_mode == BF_RNDN {
        rb && (sb || parity_odd)
    } else if rnd_mode == BF_RNDZ {
        false
    } else if rnd_mode == BF_RNDD {
        (rb || sb) && neg
    } else if rnd_mode == BF_RNDU {
        (rb || sb) && !neg
    } else if rnd_mode == BF_RNDA {
        rb || sb
    } else {
        // BF_RNDNA and BF_RNDF: the round bit decides
        rb
    }
}


/// Round the mantissa `a` by dropping its low `drop1` bits: returns the
/// rounded quotient limbs, the round bit and the sticky bit.
#[verifier::rlimit(100)]
fn mp_round_at(a: &Vec<u64>, drop1: u64, rnd_mode: u32, neg: bool) -> (res: (Vec<u64>, bool, bool))
    requires
        1 <= drop1,
        (drop1 as int) < 64 * a.len(),
        rnd_mode <= 6,
    ensures
        res.1 == spec_round_bit(limbs_val(a@), drop1 as nat),
        res.2 == spec_sticky_bit(limbs_val(a@), drop1 as nat),
        limbs_val(res.0@) == spec_round_mant(rnd_mode, neg, limbs_val(a@), drop1 as nat),
        res.0.len() <= a.len() + 1,
{
    let l = a.len();
    let ghost m1 = limbs_val(a@);
    let dm1: u64 = drop1 - 1;
    let dl: usize = (dm1 / 64) as usize;
    let db: u64 = dm1 % 64;
    proof {
        assert(dl < l);
        assert(64 * dl + db == dm1);
    }
    // sticky from the dropped limbs
    let mut sb0 = false;
    let mut i: usize = 0;
    while i < dl
        invariant
            i <= dl,
            dl < l,
            l == a.len(),
            sb0 == !(forall|j: int| 0 <= j < i ==> a@[j] == 0),
        decreases dl - i,
    {
        if a[i] != 0 {
            sb0 = true;
        }
        i = i + 1;
    }
    // the remaining limbs, shifted right past the round bit
    let mut suffix: Vec<u64> = Vec::new();
    let mut i2: usize = dl;
    while i2 < l
        invariant
            dl <= i2 <= l,
            l == a.len(),
            suffix@ =~= a@.subrange(dl as int, i2 as int),
        decreases l - i2,
    {
        suffix.push(a[i2]);
        i2 = i2 + 1;
    }
    proof {
        assert(suffix@ =~= a@.subrange(dl as int, l as int));
        crate::bits::lemma_limbs_val_div_mod(a@, dl as int);
        assert(limbs_val(suffix@) == m1 / pow2(64 * dl as nat));
        lemma_limbs_val_zero(a@.subrange(0, dl as int));
        assert(forall|j: int| 0 <= j < dl ==> a@.subrange(0, dl as int)[j] == a@[j]);
        assert(sb0 == (limbs_val(a@.subrange(0, dl as int)) != 0));
        assert(limbs_val(a@.subrange(0, dl as int)) == m1 % pow2(64 * dl as nat));
    }
    let ghost q1_val = m1 / pow2(dm1 as nat);
    let q1v: Vec<u64>;
    let sbx: bool;
    if db > 0 {
        let (v, rem) = mp_shr(&suffix, db);
        proof {
            lemma_pow2_pos(db as nat);
            vstd::arithmetic::div_mod::lemma_fundamental_div_mod_converse(
                limbs_val(suffix@) as int,
                pow2(db as nat) as int,
                limbs_val(v@) as int,
                rem as int,
            );
            crate::dyadic::lemma_div_div_pow2(m1, 64 * dl as nat, db as nat);
            assert(64 * dl as nat + db as nat == dm1 as nat);
            assert(limbs_val(v@) == q1_val);
        }
        sbx = rem != 0;
        q1v = v;
    } else {
        proof {
            assert(dm1 as nat == 64 * dl as nat);
            assert(limbs_val(suffix@) == q1_val);
        }
        sbx = false;
        q1v = suffix;
    }
    let sb = sb0 || sbx;
    proof {
        crate::dyadic::lemma_mod_split_pow2(m1, 64 * dl as nat, db as nat);
        assert(64 * dl as nat + db as nat == dm1 as nat);
        if db == 0 {
            lemma2_to64();
            assert((m1 / pow2(64 * dl as nat)) % pow2(0) == 0) by {
                vstd::arithmetic::div_mod::lemma_mod_division_less_than_divisor(
                    (m1 / pow2(64 * dl as nat)) as int,
                    1,
                );
            }
        }
        assert(sb == (m1 % pow2(dm1 as nat) != 0));
        assert(sb == spec_sticky_bit(m1, drop1 as nat));
    }
    let (qv, rb_rem) = mp_shr(&q1v, 1);
    let rb = rb_rem != 0;
    let ghost q_val = m1 / pow2(drop1 as nat);
    proof {
        lemma2_to64();
        vstd::arithmetic::div_mod::lemma_fundamental_div_mod_converse(
            q1_val as int,
            2,
            limbs_val(qv@) as int,
            rb_rem as int,
        );
        crate::dyadic::lemma_div_div_pow2(m1, dm1 as nat, 1);
        assert(dm1 as nat + 1 == drop1 as nat);
        assert(limbs_val(qv@) == q_val);
        assert(rb == ((m1 / pow2(dm1 as nat)) % 2 == 1));
        assert(rb == spec_round_bit(m1, drop1 as nat));
    }
    // parity of q for ties-to-even
    let parity_odd: bool = qv[0] % 2 == 1;
    proof {
        crate::bits::lemma_limbs_val_div_mod(qv@, 1);
        assert(qv@.subrange(0, 1) =~= seq![qv@[0]]);
        lemma_limbs_val_singleton(qv@.subrange(0, 1));
        crate::dyadic::lemma_parity_low(q_val, 64);
        lemma2_to64_rest();
        assert(qv@[0] == q_val % pow2(64));
        assert(parity_odd == (q_val % 2 == 1));
    }
    let up = bf_rnd_up_exec(rnd_mode, neg, parity_odd, rb, sb, Ghost(q_val));
    let mut q2v = qv;
    if up {
        let ghost pre_add = q2v@;
        let c = mp_add_ui(&mut q2v, 1);
        if c != 0 {
            proof {
                lemma_limbs_val_bound(pre_add);
                lemma_pow2_pos(64 * q2v.len() as nat);
                lemma_mul_basics(pow2(64 * q2v.len() as nat) as int);
                assert(limbs_val(q2v@) == 0);
            }
            let ghost pre_push = q2v@;
            q2v.push(1u64);
            proof {
                lemma_limbs_val_push(pre_push, 1u64);
                lemma_mul_basics(pow2(64 * pre_push.len()) as int);
            }
        } else {
            proof {
                lemma_mul_basics(pow2(64 * q2v.len() as nat) as int);
                lemma_mul_basics(0int);
                assert(0 * pow2(64 * q2v.len() as nat) == 0);
            }
        }
    }
    proof {
        assert(limbs_val(q2v@) == spec_round_mant(rnd_mode, neg, m1, drop1 as nat));
    }
    (q2v, rb, sb)
}

/// Normalise the raw mantissa of `r` (any limb array, any exponent
/// convention `value = mant * 2^(expn - 64*len)`) and round it once at
/// `prec1` under `flags`.  The result and the returned status word are
/// exactly `spec_round` / `spec_round_status` of the raw magnitude.
#[verifier::rlimit(100)]
#[verifier::spinoff_prover]
pub fn bf_normalize_and_round(r: &mut bf_t, prec1: u64, flags: u32) -> (status: i32)
    requires
        flags_wf(flags),
        old(r).sign == 0 || old(r).sign == 1,
        old(r).tab.len() <= BF_LIMBS_MAX,
        -0x7800_0000_0000_0000 <= old(r).expn <= 0x7800_0000_0000_0000,
        2 <= prec1,
        prec1 <= BF_PREC_WORK_MAX || prec1 == BF_PREC_INF,
        prec1 == BF_PREC_INF ==> flags & BF_FLAG_SUBNORMAL == 0,
    ensures
        bf_wf(*final(r)),
        final(r).sign == old(r).sign,
        limbs_val(old(r).tab@) == 0 ==> bf_is_zero(*final(r)) && status == 0,
        limbs_val(old(r).tab@) != 0 ==> ({
            let m0 = limbs_val(old(r).tab@);
            let e20 = old(r).expn - 64 * old(r).tab.len();
            let neg = old(r).sign == 1;
            &&& status == spec_round_status(m0, e20, neg, prec1, flags)
            &&& match spec_round(m0, e20, neg, prec1, flags) {
                Rounded::Zero => bf_is_zero(*final(r)),
                Rounded::Fin(m, e) => bf_is_fin_nonzero(*final(r)) && bf_mag_eq(*final(r), m, e),
                Rounded::Inf => bf_is_inf(*final(r)),
                Rounded::Max => bf_is_fin_nonzero(*final(r)) && bf_mag_eq(
                    *final(r),
                    (pow2(prec1 as nat) - 1) as nat,
                    spec_e_max(flags) - prec1,
                ),
            }
        }),
{
    let ghost m0 = limbs_val(old(r).tab@);
    let ghost e20 = old(r).expn - 64 * old(r).tab.len();
    let ghost neg = old(r).sign == 1;
    let sign = r.sign;
    let (zero, shift) = bf_renorm(r);
    if zero {
        bf_set_zero(r, sign);
        return 0;
    }
    let l = r.tab.len();
    let ghost m1 = limbs_val(r.tab@);
    let ghost n0 = bit_length(m0) as int;  // true bit length of the raw mantissa
    proof {
        // m1 == m0 * 2^shift
        assert(m1 == m0 * pow2(shift as nat)) by {
            let e21 = r.expn - 64 * l;
            assert(e21 == e20 + n0 - 64 * l);
            assert(64 * l == n0 + shift);
            assert(e20 - e21 == shift as int);
            if shift == 0 {
                lemma2_to64();
                lemma_mul_basics(m1 as int);
                lemma_mul_basics(m0 as int);
            }
        }
        lemma_bit_length_bounds(m0);
    }
    let (e_min, e_max) = bf_exp_bounds(flags);
    let rnd_mode = bf_get_rnd_mode(flags);
    let expn: i64 = r.expn;
    let base: i32 = if rnd_mode == BF_RNDF {
        BF_ST_INEXACT
    } else {
        0
    };
    // effective precision
    let prec_i: i128 = if flags & BF_FLAG_RADPNT_PREC != 0 {
        if prec1 != BF_PREC_INF {
            expn as i128 + prec1 as i128
        } else {
            prec1 as i128
        }
    } else if expn < e_min && flags & BF_FLAG_SUBNORMAL != 0 {
        prec1 as i128 - (e_min as i128 - expn as i128)
    } else {
        prec1 as i128
    };
    let n_i: i128 = 64i128 * (l as i128) - (shift as i128);
    proof {
        assert(prec_i == spec_eff_prec(prec1, flags, expn as int));
        assert(n_i == n0);
        assert(expn == e20 + n0);
    }
    if prec_i >= n_i {
        // every mantissa bit is kept; check the exponent range only
        if expn < e_min && flags & BF_FLAG_SUBNORMAL == 0 {
            bf_set_zero(r, sign);
            return base | BF_ST_UNDERFLOW | BF_ST_INEXACT;
        }
        if expn > e_max {
            let st2 = bf_set_overflow(r, sign, prec1, flags);
            proof {
                assert(base | st2 == base | BF_ST_OVERFLOW | BF_ST_INEXACT) by (bit_vector)
                    requires
                        st2 == BF_ST_OVERFLOW | BF_ST_INEXACT,
                        base == 0 || base == BF_ST_INEXACT,
                ;
            }
            return base | st2;
        }
        let ghost pre_trim = *r;
        bf_trim_bottom(r);
        proof {
            lemma_dyadic_eq_trans(
                limbs_val(r.tab@),
                r.expn - 64 * r.tab.len(),
                limbs_val(pre_trim.tab@),
                pre_trim.expn - 64 * pre_trim.tab.len(),
                m0,
                e20,
            );
            lemma_norm_val_range(r.tab@);
        }
        return base;
    }
    // at least one bit is dropped
    let ghost drop0 = (n0 - prec_i) as nat;
    let ghost q_spec = m0 / pow2(drop0);
    let ghost rb_spec = spec_round_bit(m0, drop0);
    let ghost sb_spec = spec_sticky_bit(m0, drop0);
    let ghost inx_spec = spec_round_inexact(m0, drop0);
    proof {
        // inexactness is the round bit or the sticky bit
        crate::dyadic::lemma_mod_split_pow2(m0, (drop0 - 1) as nat, 1);
        lemma2_to64();
        assert((drop0 - 1) as nat + 1 == drop0);
        assert(inx_spec == (rb_spec || sb_spec));
    }
    if prec_i <= 0 {
        // the whole mantissa lies at or below the round-bit position
        let rb: bool = prec_i == 0;
        let sb: bool;
        if prec_i == 0 {
            // sticky unless the value is exactly 2^(n-1)
            let mut all0 = true;
            let mut i: usize = 0;
            while i < l - 1
                invariant
                    i <= l - 1,
                    l == r.tab.len(),
                    all0 == (forall|j: int| 0 <= j < i ==> r.tab@[j] == 0),
                decreases l - i,
            {
                if r.tab[i] != 0 {
                    all0 = false;
                }
                i = i + 1;
            }
            sb = !(all0 && r.tab[l - 1] == 0x8000_0000_0000_0000);
            proof {
                // sb <==> m1 != 2^(64l - 1) <==> m0 != 2^(n0 - 1)
                crate::bits::lemma_limbs_val_split3(r.tab@, l - 1);
                assert(r.tab@.subrange(l as int, l as int) =~= Seq::<u64>::empty());
                lemma_mul_basics(pow2((64 * (l - 1)) as nat) as int);
                lemma_mul_basics(pow2(64) as int);
                lemma_limbs_val_zero(r.tab@.subrange(0, l - 1));
                assert(forall|j: int| 0 <= j < l - 1 ==> r.tab@.subrange(0, l - 1)[j]
                    == r.tab@[j]);
                lemma_pow2_adds(63, (64 * (l - 1)) as nat);
                lemma2_to64_rest();
                assert(pow2((64 * l - 1) as nat) == 0x8000_0000_0000_0000 * pow2(
                    (64 * (l - 1)) as nat,
                ));
                if all0 && r.tab@[l - 1] == 0x8000_0000_0000_0000 {
                    assert(limbs_val(r.tab@.subrange(0, l - 1)) == 0);
                    assert(m1 == pow2((64 * l - 1) as nat));
                } else {
                    if m1 == pow2((64 * l - 1) as nat) {
                        // then every low limb is zero and the top is exactly the bit
                        assert(limbs_val(r.tab@.subrange(0, l - 1)) == m1 - r.tab@[l - 1] * pow2(
                            (64 * (l - 1)) as nat,
                        ));
                        lemma_limbs_val_bound(r.tab@.subrange(0, l - 1));
                        lemma_pow2_pos((64 * (l - 1)) as nat);
                        if r.tab@[l - 1] > 0x8000_0000_0000_0000 {
                            assert(r.tab@[l - 1] * pow2((64 * (l - 1)) as nat) >= (
                            0x8000_0000_0000_0001) * pow2((64 * (l - 1)) as nat)) by {
                                lemma_mul_inequality(
                                    0x8000_0000_0000_0001,
                                    r.tab@[l - 1] as int,
                                    pow2((64 * (l - 1)) as nat) as int,
                                );
                            }
                            vstd::arithmetic::mul::lemma_mul_is_distributive_add_other_way(
                                pow2((64 * (l - 1)) as nat) as int,
                                0x8000_0000_0000_0000,
                                1,
                            );
                            assert(false);
                        }
                        assert(r.tab@[l - 1] == 0x8000_0000_0000_0000);
                        assert(limbs_val(r.tab@.subrange(0, l - 1)) == 0);
                        assert forall|j: int| 0 <= j < l - 1 implies r.tab@[j] == 0 by {
                            lemma_limbs_val_zero(r.tab@.subrange(0, l - 1));
                            assert(r.tab@.subrange(0, l - 1)[j] == 0);
                        }
                        assert(false);
                    }
                }
                // connect to the spec quantities at scale m0
                assert(drop0 == n0);
                // q_spec == 0
                lemma_pow2_pos(drop0);
                vstd::arithmetic::div_mod::lemma_basic_div(m0 as int, pow2(drop0) as int);
                // round bit: m0 / 2^(n0-1) == 1
                assert(m0 / pow2((n0 - 1) as nat) == 1) by {
                    lemma_pow2_pos((n0 - 1) as nat);
                    lemma_pow2_adds((n0 - 1) as nat, 1);
                    lemma2_to64();
                    lemma_mul_basics(pow2((n0 - 1) as nat) as int);
                    assert(m0 < 2 * pow2((n0 - 1) as nat));
                    vstd::arithmetic::div_mod::lemma_fundamental_div_mod_converse(
                        m0 as int,
                        pow2((n0 - 1) as nat) as int,
                        1,
                        m0 - pow2((n0 - 1) as nat),
                    );
                }
                assert(rb_spec);
                // sticky: m0 % 2^(n0-1) == m0 - 2^(n0-1)
                assert(m0 % pow2((n0 - 1) as nat) == m0 - pow2((n0 - 1) as nat)) by {
                    lemma_pow2_pos((n0 - 1) as nat);
                    lemma_pow2_adds((n0 - 1) as nat, 1);
                    lemma2_to64();
                    lemma_mul_basics(pow2((n0 - 1) as nat) as int);
                    assert(m0 < 2 * pow2((n0 - 1) as nat));
                    vstd::arithmetic::div_mod::lemma_fundamental_div_mod_converse(
                        m0 as int,
                        pow2((n0 - 1) as nat) as int,
                        1,
                        m0 - pow2((n0 - 1) as nat),
                    );
                }
                // m0 == 2^(n0-1) <==> m1 == 2^(64l-1)
                assert((m0 == pow2((n0 - 1) as nat)) == (m1 == pow2((64 * l - 1) as nat))) by {
                    lemma_pow2_adds((n0 - 1) as nat, shift as nat);
                    assert((n0 - 1) as nat + shift as nat == (64 * l - 1) as nat);
                    if m0 == pow2((n0 - 1) as nat) {
                    }
                    if m1 == pow2((64 * l - 1) as nat) && m0 != pow2((n0 - 1) as nat) {
                        crate::dyadic::lemma_mul_cancel_le(
                            m0 as int,
                            pow2((n0 - 1) as nat) as int,
                            pow2(shift as nat) as int,
                        );
                        crate::dyadic::lemma_mul_cancel_le(
                            pow2((n0 - 1) as nat) as int,
                            m0 as int,
                            pow2(shift as nat) as int,
                        );
                        lemma_pow2_pos(shift as nat);
                        assert(false);
                    }
                }
                assert(sb == sb_spec);
            }
        } else {
            sb = true;
            proof {
                // drop0 - 1 >= n0, so the sticky covers all of m0
                assert(drop0 >= n0 + 1);
                assert(m0 < pow2((drop0 - 1) as nat)) by {
                    if n0 as nat != (drop0 - 1) as nat {
                        lemma_pow2_strictly_increases(n0 as nat, (drop0 - 1) as nat);
                    }
                }
                lemma_pow2_pos((drop0 - 1) as nat);
                vstd::arithmetic::div_mod::lemma_small_mod(
                    m0,
                    pow2((drop0 - 1) as nat),
                );
                assert(sb_spec);
                // and the round bit is zero: m0 / 2^(drop0-1) == 0
                assert(m0 / pow2((drop0 - 1) as nat) == 0) by {
                    lemma_pow2_pos((drop0 - 1) as nat);
                    vstd::arithmetic::div_mod::lemma_basic_div(
                        m0 as int,
                        pow2((drop0 - 1) as nat) as int,
                    );
                }
                assert(!rb_spec);
                lemma_pow2_pos(drop0);
                assert(m0 < pow2(drop0)) by {
                    if n0 as nat != drop0 {
                        lemma_pow2_strictly_increases(n0 as nat, drop0);
                    }
                }
                vstd::arithmetic::div_mod::lemma_basic_div(m0 as int, pow2(drop0) as int);
            }
        }
        proof {
            // inexact always holds here
            lemma_pow2_pos(drop0);
            assert(m0 < pow2(drop0)) by {
                if n0 as nat != drop0 {
                    lemma_pow2_strictly_increases(n0 as nat, drop0);
                }
            }
            vstd::arithmetic::div_mod::lemma_small_mod(m0, pow2(drop0));
            vstd::arithmetic::div_mod::lemma_basic_div(m0 as int, pow2(drop0) as int);
            assert(inx_spec);
            assert(q_spec == 0);
        }
        let up = bf_rnd_up_exec(rnd_mode, sign == 1, false, rb, sb, Ghost(0nat));
        proof {
            assert(spec_round_mant(spec_rnd_mode(flags), neg, m0, drop0) == if up {
                1nat
            } else {
                0nat
            });
        }
        if up {
            let e_new: i128 = expn as i128 - prec_i + 1;
            proof {
                // the new exponent is e_min - prec1 + 1 or 1 - prec1
                if flags & BF_FLAG_RADPNT_PREC != 0 {
                    assert(e_new == 1 - prec1);
                } else {
                    assert(e_new == e_min as i128 - prec1 as i128 + 1);
                }
                assert(-0x7000_0000_0000_0000 <= e_new <= 0x7000_0000_0000_0000);
            }
            let mut t: Vec<u64> = Vec::new();
            t.push(0x8000_0000_0000_0000u64);
            r.tab = t;
            r.expn = e_new as i64;
            r.sign = sign;
            proof {
                lemma_limbs_val_singleton(r.tab@);
                lemma2_to64_rest();
                assert(bf_mant(*r) == pow2(63));
                assert(bf_e2(*r) == e_new - 64);
                // value = 2^(expn - prec) and the spec result is Fin(1, expn - prec)
                assert(bf_mag_eq(*r, 1, expn as int - (prec_i as int))) by {
                    assert(bf_e2(*r) == (expn as int - prec_i as int) - 63);
                    lemma_mul_basics(pow2(63) as int);
                }
                assert(BF_ST_INEXACT | BF_ST_UNDERFLOW | BF_ST_INEXACT == base
                    | BF_ST_UNDERFLOW | BF_ST_INEXACT) by (bit_vector)
                    requires
                        base == 0 || base == BF_ST_INEXACT,
                ;
            }
            return BF_ST_INEXACT | BF_ST_UNDERFLOW | BF_ST_INEXACT;
        } else {
            bf_set_zero(r, sign);
            proof {
                assert(BF_ST_INEXACT | BF_ST_UNDERFLOW | BF_ST_INEXACT == base
                    | BF_ST_UNDERFLOW | BF_ST_INEXACT) by (bit_vector)
                    requires
                        base == 0 || base == BF_ST_INEXACT,
                ;
            }
            return BF_ST_INEXACT | BF_ST_UNDERFLOW | BF_ST_INEXACT;
        }
    }
    // 0 < prec_i < n_i <= 64*l: a limb-and-bit shift drops `drop1` bits
    let drop1: u64 = (64i128 * (l as i128) - prec_i) as u64;
    proof {
        assert(drop1 as int == drop0 + shift);
        // scale-invariance of the rounding data
        crate::dyadic::lemma_round_scale(spec_rnd_mode(flags), neg, m0, drop0, shift as nat);
        assert(m1 == m0 * pow2(shift as nat));
    }
    let (q2v, rb, sb) = mp_round_at(&r.tab, drop1, rnd_mode, sign == 1);
    let ghost q2_val = spec_round_mant(spec_rnd_mode(flags), neg, m0, drop0);
    let ghost q_val = m0 / pow2(drop0);
    proof {
        assert(rb == rb_spec);
        assert(sb == sb_spec);
        assert(limbs_val(q2v@) == q2_val);
        // q2 bounds: 2^(prec-1) <= q2 <= 2^prec
        assert(q_val >= pow2((prec_i - 1) as nat)) by {
            lemma_pow2_pos((prec_i - 1) as nat);
            lemma_pow2_pos((n0 - 1) as nat);
            crate::dyadic::lemma_div_div_pow2(m0, drop0, (prec_i - 1) as nat);
            assert(drop0 + (prec_i - 1) as nat == (n0 - 1) as nat);
            assert(m0 / pow2((n0 - 1) as nat) >= 1) by {
                lemma_pow2_pos((n0 - 1) as nat);
                if m0 / pow2((n0 - 1) as nat) == 0 {
                    vstd::arithmetic::div_mod::lemma_fundamental_div_mod(
                        m0 as int,
                        pow2((n0 - 1) as nat) as int,
                    );
                    vstd::arithmetic::div_mod::lemma_mod_division_less_than_divisor(
                        m0 as int,
                        pow2((n0 - 1) as nat) as int,
                    );
                    lemma_mul_basics(pow2((n0 - 1) as nat) as int);
                    assert(false);
                }
            }
            vstd::arithmetic::div_mod::lemma_fundamental_div_mod(
                q_val as int,
                pow2((prec_i - 1) as nat) as int,
            );
            vstd::arithmetic::div_mod::lemma_mod_division_less_than_divisor(
                q_val as int,
                pow2((prec_i - 1) as nat) as int,
            );
            vstd::arithmetic::mul::lemma_mul_inequality(
                1,
                (q_val / pow2((prec_i - 1) as nat)) as int,
                pow2((prec_i - 1) as nat) as int,
            );
            lemma_mul_basics(pow2((prec_i - 1) as nat) as int);
        }
        assert(q_val < pow2(prec_i as nat)) by {
            lemma_pow2_pos(drop0);
            lemma_pow2_adds(drop0, prec_i as nat);
            assert(drop0 + prec_i as nat == n0 as nat);
            assert(m0 < pow2(drop0) * pow2(prec_i as nat));
            vstd::arithmetic::div_mod::lemma_multiply_divide_lt(
                m0 as int,
                pow2(drop0) as int,
                pow2(prec_i as nat) as int,
            );
        }
        assert(q2_val >= pow2((prec_i - 1) as nat));
        assert(q2_val <= pow2(prec_i as nat));
        lemma_pow2_pos((prec_i - 1) as nat);
    }
    // store q2 at scale expn - prec and renormalise
    let e_new_sem: i128 = expn as i128 - prec_i;
    let new_raw_expn: i128 = e_new_sem + 64i128 * (q2v.len() as i128);
    proof {
        assert(q2v.len() <= l + 1);
        assert(l as i128 <= 0x4000_0000);
        assert(expn as i128 <= 0x7800_0000_0000_0000);
        assert(expn as i128 >= -0x7800_0000_0000_0000 - 64 * 0x4000_0000);
        assert(1 <= prec_i < 64 * (l as i128));
        assert(-0x7c00_0000_0000_0000 <= new_raw_expn <= 0x7c00_0000_0000_0000);
        assert(q2v.len() as int <= BF_LIMBS_MAX + 1);
    }
    r.tab = q2v;
    r.expn = new_raw_expn as i64;
    r.sign = sign;
    let ghost pre_renorm = *r;
    let (z2, _sh2) = bf_renorm(r);
    proof {
        assert(!z2);
        assert(pre_renorm.expn - 64 * pre_renorm.tab.len() == e_new_sem);
        assert(r.expn == e_new_sem + bit_length(q2_val));
        // the renormalised result fits in the limb cap again
        assert(bit_length(q2_val) <= prec_i + 1) by {
            lemma_bit_length_bounds(q2_val);
            if bit_length(q2_val) > prec_i + 1 {
                lemma_pow2_strictly_increases(
                    prec_i as nat,
                    (bit_length(q2_val) - 1) as nat,
                );
                assert(false);
            }
        }
        assert(r.tab.len() <= l);
    }
    let expn2: i64 = r.expn;
    let inx = rb || sb;
    let base2: i32 = if inx || rnd_mode == BF_RNDF {
        BF_ST_INEXACT
    } else {
        0
    };
    proof {
        assert(inx == inx_spec);
        assert(e_new_sem == e20 + drop0);
    }
    if expn2 < e_min {
        if flags & BF_FLAG_SUBNORMAL == 0 {
            bf_set_zero(r, sign);
            return base2 | BF_ST_UNDERFLOW | BF_ST_INEXACT;
        }
        let st = if base2 != 0 {
            base2 | BF_ST_UNDERFLOW
        } else {
            base2
        };
        let ghost pre_trim = *r;
        bf_trim_bottom(r);
        proof {
            lemma_dyadic_eq_trans(
                limbs_val(r.tab@),
                r.expn - 64 * r.tab.len(),
                limbs_val(pre_trim.tab@),
                pre_trim.expn - 64 * pre_trim.tab.len(),
                q2_val,
                e_new_sem as int,
            );
            lemma_norm_val_range(r.tab@);
        }
        return st;
    }
    if expn2 > e_max {
        let st2 = bf_set_overflow(r, sign, prec1, flags);
        proof {
            assert(base2 | st2 == base2 | BF_ST_OVERFLOW | BF_ST_INEXACT) by (bit_vector)
                requires
                    st2 == BF_ST_OVERFLOW | BF_ST_INEXACT,
                    base2 == 0 || base2 == BF_ST_INEXACT,
            ;
        }
        return base2 | st2;
    }
    let ghost pre_trim = *r;
    bf_trim_bottom(r);
    proof {
        lemma_dyadic_eq_trans(
            limbs_val(r.tab@),
            r.expn - 64 * r.tab.len(),
            limbs_val(pre_trim.tab@),
            pre_trim.expn - 64 * pre_trim.tab.len(),
            q2_val,
            e_new_sem as int,
        );
        lemma_norm_val_range(r.tab@);
    }
    base2
}


/// Bit of a mantissa at weight `2^pos` (zero below the bottom).
pub open spec fn spec_mant_bit(m: nat, pos: int) -> nat {
    if pos < 0 {
        0
    } else {
        (m / pow2(pos as nat)) % 2
    }
}

/// Whether a faithful result `a`, accurate to `2^(expn-k)`, admits
/// correct rounding at `prec` under `rnd_mode`: the `k - prec - 1` bits
/// after the round position must not all sit on the rounding fence
/// (`0111..` / `1000..` for the nearest modes, `000..` / `111..`
/// otherwise).
pub open spec fn spec_can_round(a: bf_t, prec: int, rnd_mode: u32, k: int) -> bool {
    if bf_is_nan(a) || bf_is_inf(a) {
        false
    } else if rnd_mode == BF_RNDF {
        k >= prec + 1
    } else if bf_is_zero(a) {
        false
    } else if k < prec + 2 {
        false
    } else {
        let m = bf_mant(a);
        let t = 64 * a.tab.len() as int;
        let is_rndn: nat = if rnd_mode == BF_RNDN || rnd_mode == BF_RNDNA {
            1
        } else {
            0
        };
        let fence = spec_mant_bit(m, t - 1 - prec) + is_rndn - 2 * (spec_mant_bit(m, t - 1 - prec)
            * is_rndn);
        exists|j: int| 1 <= j <= k - prec - 1 && #[trigger] spec_mant_bit(m, t - 1 - prec - j) != fence
    }
}

/// Test whether rounding at `prec` is already decided for a result known
/// only to within `2^(expn - k)`.
#[verifier::rlimit(100)]
#[verifier::spinoff_prover]
pub fn bf_can_round(a: &bf_t, prec: i64, rnd_mode: u32, k: i64) -> (r: bool)
    requires
        bf_wf(*a),
        -0x4000_0000_0000_0000 <= prec <= 0x4000_0000_0000_0000,
        -0x4000_0000_0000_0000 <= k <= 0x4000_0000_0000_0000,
    ensures
        r == spec_can_round(*a, prec as int, rnd_mode, k as int),
{
    if a.expn == BF_EXP_NAN || a.expn == BF_EXP_INF {
        return false;
    }
    if rnd_mode == BF_RNDF {
        return k >= prec + 1;
    }
    if a.expn == BF_EXP_ZERO {
        return false;
    }
    if k < prec + 2 {
        return false;
    }
    let l = a.tab.len();
    let t: i128 = 64 * (l as i128);
    let is_rndn: bool = rnd_mode == BF_RNDN || rnd_mode == BF_RNDNA;
    let ghost m = bf_mant(*a);
    // the fence bit
    let pos0: i128 = t - 1 - prec as i128;
    let bit0: bool;
    if pos0 >= 0 && pos0 < t {
        bit0 = crate::div::mp_get_bit(&a.tab, pos0 as u64);
    } else {
        bit0 = false;
        proof {
            if pos0 >= t {
                lemma_wf_bit_length(*a);
                assert(m < pow2(64 * l as nat));
                assert(m / pow2(pos0 as nat) == 0) by {
                    lemma_pow2_pos(pos0 as nat);
                    assert(m < pow2(pos0 as nat)) by {
                        if 64 * l as nat != pos0 as nat {
                            lemma_pow2_strictly_increases(64 * l as nat, pos0 as nat);
                        }
                    }
                    vstd::arithmetic::div_mod::lemma_basic_div(
                        m as int,
                        pow2(pos0 as nat) as int,
                    );
                }
            }
        }
    }
    let fence: bool = bit0 != is_rndn;
    let ghost fence_n: nat = if fence {
        1
    } else {
        0
    };
    proof {
        let is_rndn_n: nat = if is_rndn {
            1
        } else {
            0
        };
        let b0 = spec_mant_bit(m, pos0 as int);
        assert(b0 == (if bit0 {
            1nat
        } else {
            0nat
        })) by {
            vstd::arithmetic::div_mod::lemma_mod_division_less_than_divisor(
                (m / pow2(if pos0 >= 0 {
                    pos0 as nat
                } else {
                    0nat
                })) as int,
                2,
            );
        }
        assert(fence_n == b0 + is_rndn_n - 2 * (b0 * is_rndn_n));
    }
    // scan the bits below the fence position
    let nsteps: i128 = k as i128 - prec as i128 - 1;
    let mut j: i128 = 1;
    while j <= nsteps && pos0 - j >= 0
        invariant
            bf_wf(*a),
            bf_is_fin_nonzero(*a),
            rnd_mode != BF_RNDF,
            (k as int) >= prec + 2,
            nsteps == k as int - prec as int - 1,
            nsteps >= 1,
            nsteps <= 0x8000_0000_0000_0001,
            1 <= j <= nsteps + 1,
            l == a.tab.len(),
            l <= 0x4000_0000,
            t == 64 * l,
            m == bf_mant(*a),
            pos0 == t - 1 - prec,
            -0x4000_0000_0000_0000 <= prec <= 0x4000_0000_0000_0000,
            fence_n == (if fence {
                1nat
            } else {
                0nat
            }),
            fence_n == ({
                let is_rndn_n: nat = if rnd_mode == BF_RNDN || rnd_mode == BF_RNDNA {
                    1
                } else {
                    0
                };
                let b0 = spec_mant_bit(m, t as int - 1 - prec as int);
                (b0 + is_rndn_n - 2 * (b0 * is_rndn_n)) as nat
            }),
            forall|j2: int|
                1 <= j2 < j ==> #[trigger] spec_mant_bit(m, pos0 as int - j2) == fence_n,
        decreases nsteps - j + 1,
    {
        let pos: i128 = pos0 - j;
        let b: bool;
        if pos < t {
            b = crate::div::mp_get_bit(&a.tab, pos as u64);
            proof {
                vstd::arithmetic::div_mod::lemma_mod_division_less_than_divisor(
                    (m / pow2(pos as nat)) as int,
                    2,
                );
            }
        } else {
            b = false;
            proof {
                lemma_wf_bit_length(*a);
                assert(m / pow2(pos as nat) == 0) by {
                    lemma_pow2_pos(pos as nat);
                    assert(m < pow2(pos as nat)) by {
                        if 64 * l as nat != pos as nat {
                            lemma_pow2_strictly_increases(64 * l as nat, pos as nat);
                        }
                    }
                    vstd::arithmetic::div_mod::lemma_basic_div(m as int, pow2(pos as nat) as int);
                }
            }
        }
        if b != fence {
            proof {
                assert(spec_mant_bit(m, pos0 as int - j) != fence_n);
            }
            return true;
        }
        j = j + 1;
    }
    // below the array every bit is zero; they differ from the fence only
    // if the fence bit is one
    if j <= nsteps && fence {
        proof {
            assert(spec_mant_bit(m, pos0 as int - j) == 0);
        }
        return true;
    }
    proof {
        assert forall|j2: int| 1 <= j2 <= nsteps implies #[trigger] spec_mant_bit(
            m,
            pos0 as int - j2,
        ) == fence_n by {
            if j2 < j {
            } else {
                assert(pos0 - j2 < 0 || j > nsteps);
                if j <= nsteps {
                    assert(pos0 - j2 <= pos0 - j < 0);
                    assert(!fence);
                    assert(spec_mant_bit(m, pos0 as int - j2) == 0);
                }
            }
        }
    }
    false
}

} // verus!
