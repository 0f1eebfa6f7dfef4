//! Addition and subtraction: the operands are aligned at a common
//! scale, combined exactly, and the exact signed sum is rounded once.

use vstd::prelude::*;
use vstd::arithmetic::power2::{pow2, lemma_pow2_adds, lemma_pow2_pos, lemma2_to64, lemma2_to64_rest};
use vstd::arithmetic::mul::{lemma_mul_inequality, lemma_mul_basics, lemma_mul_is_associative, lemma_mul_strict_inequality, lemma_mul_strictly_positive};
use crate::bits::{limbs_val, lemma_limbs_val_push, lemma_limbs_val_bound, lemma_limbs_val_zero};
use crate::dyadic::{dyadic_eq, dyadic_le, bit_length};
use crate::cmp::{dyadic_lt, bf_cmpu, pad_low};
use crate::limb_ops::{mp_add, mp_sub, mp_shl};
use crate::num::{bf_t, bf_wf, bf_mant, bf_e2, bf_is_zero, bf_is_inf, bf_is_nan, bf_is_finite, bf_is_fin_nonzero, bf_mag_eq, bf_set_zero, bf_set_inf, bf_set_nan, bf_set, spec_e_min, spec_e_max, spec_rnd_mode, flags_wf, lemma_wf_bit_length, BF_RNDD, BF_ST_INVALID_OP, BF_ST_MEM_ERROR, BF_EXP_ZERO, BF_EXP_INF, BF_EXP_NAN, BF_PREC_INF, BF_EXP_SANE, BF_LIMBS_MAX, BF_PREC_WORK_MAX, BF_FLAG_SUBNORMAL};
use crate::round::{Rounded, spec_round, spec_round_status, bf_normalize_and_round};
use crate::ops::{round_args_wf, rounded_to};

verus! {

/// Multiply a limb array's value by `2^sh` (limb and bit shifts).
pub fn mp_shift_up(a: &Vec<u64>, sh: u64) -> (r: Vec<u64>)
    requires
        a.len() + sh / 64 + 2 <= 0x1000_0000,
    ensures
        r.len() == a.len() + sh / 64 + (if sh % 64 == 0 {
            0int
        } else {
            1int
        }),
        limbs_val(r@) == limbs_val(a@) * pow2(sh as nat),
{
    let wl: usize = (sh / 64) as usize;
    let bits: u64 = sh % 64;
    let v = pad_low(a, wl);
    proof {
        assert(64 * (wl as nat) + bits as nat == sh as nat);
        lemma_pow2_adds(64 * wl as nat, bits as nat);
    }
    if bits == 0 {
        proof {
            lemma2_to64();
            lemma_mul_basics(limbs_val(a@) as int);
            assert(limbs_val(v@) == limbs_val(a@) * pow2(sh as nat)) by {
                lemma_mul_basics((limbs_val(a@) * pow2(64 * wl as nat)) as int);
            }
        }
        return v;
    }
    let (mut v2, hi) = mp_shl(&v, bits);
    let ghost v2pre = v2@;
    v2.push(hi);
    proof {
        lemma_limbs_val_push(v2pre, hi);
        // val(v2) == val(v) * 2^bits
        assert(limbs_val(v2@) == limbs_val(v@) * pow2(bits as nat));
        // and val(v) == val(a) * 2^(64*wl)
        assert((limbs_val(a@) * pow2(64 * wl as nat)) * pow2(bits as nat) == limbs_val(a@) * pow2(
            sh as nat,
        )) by {
            lemma_mul_is_associative(
                limbs_val(a@) as int,
                pow2(64 * wl as nat) as int,
                pow2(bits as nat) as int,
            );
        }
    }
    v2
}

/// Append zero limbs on top until the array has length `n`; the value is
/// unchanged.
pub fn pad_high(a: &mut Vec<u64>, n: usize)
    requires
        old(a).len() <= n,
    ensures
        final(a).len() == n,
        limbs_val(final(a)@) == limbs_val(old(a)@),
        final(a)@.subrange(0, old(a).len() as int) == old(a)@,
        forall|j: int| old(a).len() <= j < n ==> final(a)@[j] == 0,
{
    while a.len() < n
        invariant
            a.len() <= n,
            limbs_val(a@) == limbs_val(old(a)@),
            a@.subrange(0, old(a).len() as int) =~= old(a)@,
            a.len() >= old(a).len(),
            forall|j: int| old(a).len() <= j < a.len() ==> a@[j] == 0,
        decreases n - a.len(),
    {
        let ghost pre = a@;
        a.push(0u64);
        proof {
            lemma_limbs_val_push(pre, 0u64);
            lemma_mul_basics(pow2(64 * pre.len()) as int);
            assert(a@.subrange(0, old(a).len() as int) =~= pre.subrange(0, old(a).len() as int));
        }
    }
}


// Cap, in limbs, on the aligned working array of an addition; beyond it
// the operation reports a memory error (the exponent gap is enormous).
pub const BF_ADD_WORK_LIMBS: u64 = 0x0800_0000;

/// The common (smaller) scale of two finite nonzero operands.
pub open spec fn spec_add_scale(a: bf_t, b: bf_t) -> int {
    if bf_e2(a) <= bf_e2(b) {
        bf_e2(a)
    } else {
        bf_e2(b)
    }
}

/// A mantissa brought to the common scale.
pub open spec fn spec_mag_at(a: bf_t, ec: int) -> nat {
    bf_mant(a) * pow2((bf_e2(a) - ec) as nat)
}

/// Whether aligning the two operands exceeds the working cap.
pub open spec fn spec_add_too_wide(a: bf_t, b: bf_t) -> bool {
    let ec = spec_add_scale(a, b);
    ||| (bf_e2(a) - ec) / 64 + a.tab.len() + 2 > BF_ADD_WORK_LIMBS
    ||| (bf_e2(b) - ec) / 64 + b.tab.len() + 2 > BF_ADD_WORK_LIMBS
}

/// The sign of `b` once an optional negation (subtraction) is applied.
pub open spec fn spec_flip_sign(b: bf_t, flip: bool) -> int {
    if flip {
        1 - b.sign
    } else {
        b.sign as int
    }
}

/// Shared body of addition and subtraction: `r = a + (-1)^flip * b`.
#[verifier::rlimit(100)]
#[verifier::spinoff_prover]
fn bf_add_internal(r: &mut bf_t, a: &bf_t, b: &bf_t, flip: bool, prec: u64, flags: u32) -> (status:
    i32)
    requires
        bf_wf(*a),
        bf_wf(*b),
        round_args_wf(prec, flags),
    ensures
        bf_wf(*final(r)),
        (bf_is_nan(*a) || bf_is_nan(*b)) ==> bf_is_nan(*final(r)) && status == 0,
        !bf_is_nan(*a) && !bf_is_nan(*b) ==> ({
            let sb = spec_flip_sign(*b, flip);
            &&& (bf_is_inf(*a) && bf_is_inf(*b) && a.sign == sb) ==> bf_is_inf(*final(r))
                && final(r).sign == a.sign && status == 0
            &&& (bf_is_inf(*a) && bf_is_inf(*b) && a.sign != sb) ==> bf_is_nan(*final(r))
                && status == BF_ST_INVALID_OP
            &&& (bf_is_inf(*a) && bf_is_finite(*b)) ==> bf_is_inf(*final(r)) && final(r).sign
                == a.sign && status == 0
            &&& (bf_is_finite(*a) && bf_is_inf(*b)) ==> bf_is_inf(*final(r)) && final(r).sign == sb
                && status == 0
            &&& (bf_is_zero(*a) && bf_is_zero(*b)) ==> bf_is_zero(*final(r)) && status == 0
                && final(r).sign == (if a.sign == sb {
                a.sign as int
            } else if spec_rnd_mode(flags) == BF_RNDD {
                1int
            } else {
                0int
            })
            &&& (bf_is_zero(*a) && bf_is_fin_nonzero(*b)) ==> status == spec_round_status(
                bf_mant(*b),
                bf_e2(*b),
                sb == 1,
                prec,
                flags,
            ) && rounded_to(*final(r), bf_mant(*b), bf_e2(*b), sb == 1, prec, flags)
            &&& (bf_is_fin_nonzero(*a) && bf_is_zero(*b)) ==> status == spec_round_status(
                bf_mant(*a),
                bf_e2(*a),
                a.sign == 1,
                prec,
                flags,
            ) && rounded_to(*final(r), bf_mant(*a), bf_e2(*a), a.sign == 1, prec, flags)
            &&& (bf_is_fin_nonzero(*a) && bf_is_fin_nonzero(*b) && spec_add_too_wide(*a, *b))
                ==> bf_is_nan(*final(r)) && status == BF_ST_MEM_ERROR
            &&& (bf_is_fin_nonzero(*a) && bf_is_fin_nonzero(*b) && !spec_add_too_wide(*a, *b))
                ==> ({
                let ec = spec_add_scale(*a, *b);
                let ma = spec_mag_at(*a, ec);
                let mb = spec_mag_at(*b, ec);
                if a.sign == sb {
                    status == spec_round_status((ma + mb) as nat, ec, a.sign == 1, prec, flags)
                        && rounded_to(*final(r), (ma + mb) as nat, ec, a.sign == 1, prec, flags)
                } else if ma == mb {
                    bf_is_zero(*final(r)) && status == 0 && final(r).sign == (
                    if spec_rnd_mode(flags) == BF_RNDD {
                        1int
                    } else {
                        0int
                    })
                } else if ma > mb {
                    status == spec_round_status((ma - mb) as nat, ec, a.sign == 1, prec, flags)
                        && rounded_to(*final(r), (ma - mb) as nat, ec, a.sign == 1, prec, flags)
                } else {
                    status == spec_round_status((mb - ma) as nat, ec, sb == 1, prec, flags)
                        && rounded_to(*final(r), (mb - ma) as nat, ec, sb == 1, prec, flags)
                }
            })
        }),
{
    let sb: i32 = if flip {
        1 - b.sign
    } else {
        b.sign
    };
    if a.expn == BF_EXP_NAN || b.expn == BF_EXP_NAN {
        bf_set_nan(r);
        return 0;
    }
    if a.expn == BF_EXP_INF || b.expn == BF_EXP_INF {
        if a.expn == BF_EXP_INF && b.expn == BF_EXP_INF {
            if a.sign == sb {
                bf_set_inf(r, a.sign);
                return 0;
            } else {
                bf_set_nan(r);
                return BF_ST_INVALID_OP;
            }
        }
        if a.expn == BF_EXP_INF {
            bf_set_inf(r, a.sign);
            return 0;
        }
        bf_set_inf(r, sb);
        return 0;
    }
    if a.expn == BF_EXP_ZERO && b.expn == BF_EXP_ZERO {
        let zs: i32 = if a.sign == sb {
            a.sign
        } else if (flags & 7) == BF_RNDD {
            1
        } else {
            0
        };
        bf_set_zero(r, zs);
        return 0;
    }
    if a.expn == BF_EXP_ZERO {
        bf_set(r, b);
        r.sign = sb;
        return crate::ops::bf_round(r, prec, flags);
    }
    if b.expn == BF_EXP_ZERO {
        bf_set(r, a);
        return crate::ops::bf_round(r, prec, flags);
    }
    // both finite and nonzero
    bf_add_core(r, a, b, sb, prec, flags)
}

/// The finite-nonzero case: align at the common scale, combine exactly,
/// round once.
#[verifier::rlimit(100)]
#[verifier::spinoff_prover]
fn bf_add_core(r: &mut bf_t, a: &bf_t, b: &bf_t, sb: i32, prec: u64, flags: u32) -> (status: i32)
    requires
        bf_wf(*a),
        bf_wf(*b),
        bf_is_fin_nonzero(*a),
        bf_is_fin_nonzero(*b),
        sb == 0 || sb == 1,
        round_args_wf(prec, flags),
    ensures
        bf_wf(*final(r)),
        spec_add_too_wide(*a, *b) ==> bf_is_nan(*final(r)) && status == BF_ST_MEM_ERROR,
        !spec_add_too_wide(*a, *b) ==> ({
            let ec = spec_add_scale(*a, *b);
            let ma = spec_mag_at(*a, ec);
            let mb = spec_mag_at(*b, ec);
            if a.sign == sb {
                status == spec_round_status((ma + mb) as nat, ec, a.sign == 1, prec, flags)
                    && rounded_to(*final(r), (ma + mb) as nat, ec, a.sign == 1, prec, flags)
            } else if ma == mb {
                bf_is_zero(*final(r)) && status == 0 && final(r).sign == (
                if spec_rnd_mode(flags) == BF_RNDD {
                    1int
                } else {
                    0int
                })
            } else if ma > mb {
                status == spec_round_status((ma - mb) as nat, ec, a.sign == 1, prec, flags)
                    && rounded_to(*final(r), (ma - mb) as nat, ec, a.sign == 1, prec, flags)
            } else {
                status == spec_round_status((mb - ma) as nat, ec, sb == 1, prec, flags)
                    && rounded_to(*final(r), (mb - ma) as nat, ec, sb == 1, prec, flags)
            }
        }),
{
    let la = a.tab.len();
    let lb = b.tab.len();
    let e2a: i128 = a.expn as i128 - 64 * (la as i128);
    let e2b: i128 = b.expn as i128 - 64 * (lb as i128);
    let ec: i128 = if e2a <= e2b {
        e2a
    } else {
        e2b
    };
    let sha_i: i128 = e2a - ec;
    let shb_i: i128 = e2b - ec;
    if sha_i / 64 + la as i128 + 2 > BF_ADD_WORK_LIMBS as i128 || shb_i / 64 + lb as i128 + 2
        > BF_ADD_WORK_LIMBS as i128 {
        bf_set_nan(r);
        return BF_ST_MEM_ERROR;
    }
    let sha: u64 = sha_i as u64;
    let shb: u64 = shb_i as u64;
    let mut av = mp_shift_up(&a.tab, sha);
    let mut bv = mp_shift_up(&b.tab, shb);
    let ghost mag_a = spec_mag_at(*a, ec as int);
    let ghost mag_b = spec_mag_at(*b, ec as int);
    proof {
        assert(limbs_val(av@) == mag_a);
        assert(limbs_val(bv@) == mag_b);
        lemma_wf_bit_length(*a);
        lemma_wf_bit_length(*b);
        lemma_pow2_pos((e2a - ec) as nat);
        lemma_pow2_pos((e2b - ec) as nat);
        lemma_mul_strictly_positive(bf_mant(*a) as int, pow2((e2a - ec) as nat) as int);
        lemma_mul_strictly_positive(bf_mant(*b) as int, pow2((e2b - ec) as nat) as int);
    }
    let n0 = if av.len() < bv.len() {
        bv.len()
    } else {
        av.len()
    };
    let n = n0 + 1;
    pad_high(&mut av, n);
    pad_high(&mut bv, n);
    proof {
        lemma_limbs_val_bound(av@.subrange(0, (n - 1) as int));
        lemma_limbs_val_bound(bv@.subrange(0, (n - 1) as int));
        // the top limb of each padded array is zero, so each value is
        // below 2^(64*(n-1))
        assert(limbs_val(av@) < pow2(64 * (n - 1) as nat)) by {
            crate::bits::lemma_limbs_val_split(av@, (n - 1) as int);
            assert(av@.subrange((n - 1) as int, n as int) =~= seq![av@[n - 1]]);
            crate::bits::lemma_limbs_val_singleton(av@.subrange((n - 1) as int, n as int));
            if av@[n - 1] == 0 {
                lemma_mul_basics(pow2(64 * (n - 1) as nat) as int);
            }
            assert(av@[n - 1] == 0);
        }
        assert(limbs_val(bv@) < pow2(64 * (n - 1) as nat)) by {
            crate::bits::lemma_limbs_val_split(bv@, (n - 1) as int);
            assert(bv@.subrange((n - 1) as int, n as int) =~= seq![bv@[n - 1]]);
            crate::bits::lemma_limbs_val_singleton(bv@.subrange((n - 1) as int, n as int));
            if bv@[n - 1] == 0 {
                lemma_mul_basics(pow2(64 * (n - 1) as nat) as int);
            }
            assert(bv@[n - 1] == 0);
        }
        lemma_pow2_adds(64 * (n - 1) as nat, 64);
        assert(64 * (n - 1) as nat + 64 == 64 * n as nat);
        lemma2_to64_rest();
        assert(2 * pow2(64 * (n - 1) as nat) <= pow2(64 * n as nat)) by {
            lemma_mul_inequality(2, pow2(64) as int, pow2(64 * (n - 1) as nat) as int);
            vstd::arithmetic::mul::lemma_mul_is_commutative(
                pow2(64) as int,
                pow2(64 * (n - 1) as nat) as int,
            );
        }
    }
    let new_expn_i: i128 = ec + 64 * (n as i128);
    proof {
        assert(-0x7800_0000_0000_0000 <= new_expn_i <= 0x7800_0000_0000_0000);
        assert(n as int <= BF_LIMBS_MAX as int);
    }
    if a.sign == sb {
        // addition of magnitudes
        let (sum, c) = mp_add(&av, &bv, 0);
        proof {
            if c == 1 {
                lemma_pow2_pos(64 * n as nat);
                lemma_mul_basics(pow2(64 * n as nat) as int);
                assert(false);
            }
            lemma_mul_basics(pow2(64 * n as nat) as int);
            lemma_mul_basics(0int);
            assert(0 * pow2(64 * n as nat) == 0);
            assert(limbs_val(sum@) == mag_a + mag_b);
        }
        r.tab = sum;
        r.expn = new_expn_i as i64;
        r.sign = a.sign;
        return bf_normalize_and_round(r, prec, flags);
    }
    // subtraction of magnitudes
    let cres = bf_cmpu(a, b);
    proof {
        crate::dyadic::lemma_dyadic_le_common(bf_mant(*a), bf_e2(*a), bf_mant(*b), bf_e2(*b), ec as int);
        crate::dyadic::lemma_dyadic_le_common(bf_mant(*b), bf_e2(*b), bf_mant(*a), bf_e2(*a), ec as int);
        crate::dyadic::lemma_dyadic_eq_common(bf_mant(*a), bf_e2(*a), bf_mant(*b), bf_e2(*b), ec as int);
    }
    if cres == 0 {
        let zs: i32 = if (flags & 7) == BF_RNDD {
            1
        } else {
            0
        };
        bf_set_zero(r, zs);
        return 0;
    }
    let (diff, brw) = if cres > 0 {
        mp_sub(&av, &bv, 0)
    } else {
        mp_sub(&bv, &av, 0)
    };
    proof {
        lemma_limbs_val_bound(diff@);
        if brw == 1 {
            lemma_pow2_pos(64 * n as nat);
            lemma_mul_basics(pow2(64 * n as nat) as int);
            assert(false);
        }
        lemma_mul_basics(pow2(64 * n as nat) as int);
        lemma_mul_basics(0int);
        assert(0 * pow2(64 * n as nat) == 0);
    }
    r.tab = diff;
    r.expn = new_expn_i as i64;
    r.sign = if cres > 0 {
        a.sign
    } else {
        sb
    };
    bf_normalize_and_round(r, prec, flags)
}

/// Addition, rounded once at `prec` under `flags`.
pub fn bf_add(r: &mut bf_t, a: &bf_t, b: &bf_t, prec: u64, flags: u32) -> (status: i32)
    requires
        bf_wf(*a),
        bf_wf(*b),
        round_args_wf(prec, flags),
    ensures
        bf_wf(*final(r)),
        (bf_is_nan(*a) || bf_is_nan(*b)) ==> bf_is_nan(*final(r)) && status == 0,
        !bf_is_nan(*a) && !bf_is_nan(*b) ==> ({
            &&& (bf_is_inf(*a) && bf_is_inf(*b) && a.sign == b.sign) ==> bf_is_inf(*final(r))
                && final(r).sign == a.sign && status == 0
            &&& (bf_is_inf(*a) && bf_is_inf(*b) && a.sign != b.sign) ==> bf_is_nan(*final(r))
                && status == BF_ST_INVALID_OP
            &&& (bf_is_inf(*a) && bf_is_finite(*b)) ==> bf_is_inf(*final(r)) && final(r).sign
                == a.sign && status == 0
            &&& (bf_is_finite(*a) && bf_is_inf(*b)) ==> bf_is_inf(*final(r)) && final(r).sign
                == b.sign && status == 0
            &&& (bf_is_zero(*a) && bf_is_zero(*b)) ==> bf_is_zero(*final(r)) && status == 0
                && final(r).sign == (if a.sign == b.sign {
                a.sign as int
            } else if spec_rnd_mode(flags) == BF_RNDD {
                1int
            } else {
                0int
            })
            &&& (bf_is_zero(*a) && bf_is_fin_nonzero(*b)) ==> status == spec_round_status(
                bf_mant(*b),
                bf_e2(*b),
                b.sign == 1,
                prec,
                flags,
            ) && rounded_to(*final(r), bf_mant(*b), bf_e2(*b), b.sign == 1, prec, flags)
            &&& (bf_is_fin_nonzero(*a) && bf_is_zero(*b)) ==> status == spec_round_status(
                bf_mant(*a),
                bf_e2(*a),
                a.sign == 1,
                prec,
                flags,
            ) && rounded_to(*final(r), bf_mant(*a), bf_e2(*a), a.sign == 1, prec, flags)
            &&& (bf_is_fin_nonzero(*a) && bf_is_fin_nonzero(*b) && spec_add_too_wide(*a, *b))
                ==> bf_is_nan(*final(r)) && status == BF_ST_MEM_ERROR
            &&& (bf_is_fin_nonzero(*a) && bf_is_fin_nonzero(*b) && !spec_add_too_wide(*a, *b))
                ==> ({
                let ec = spec_add_scale(*a, *b);
                let ma = spec_mag_at(*a, ec);
                let mb = spec_mag_at(*b, ec);
                if a.sign == b.sign {
                    status == spec_round_status((ma + mb) as nat, ec, a.sign == 1, prec, flags)
                        && rounded_to(*final(r), (ma + mb) as nat, ec, a.sign == 1, prec, flags)
                } else if ma == mb {
                    bf_is_zero(*final(r)) && status == 0 && final(r).sign == (
                    if spec_rnd_mode(flags) == BF_RNDD {
                        1int
                    } else {
                        0int
                    })
                } else if ma > mb {
                    status == spec_round_status((ma - mb) as nat, ec, a.sign == 1, prec, flags)
                        && rounded_to(*final(r), (ma - mb) as nat, ec, a.sign == 1, prec, flags)
                } else {
                    status == spec_round_status((mb - ma) as nat, ec, b.sign == 1, prec, flags)
                        && rounded_to(*final(r), (mb - ma) as nat, ec, b.sign == 1, prec, flags)
                }
            })
        }),
{
    bf_add_internal(r, a, b, false, prec, flags)
}

/// Subtraction: `r = a - b`, rounded once.
pub fn bf_sub(r: &mut bf_t, a: &bf_t, b: &bf_t, prec: u64, flags: u32) -> (status: i32)
    requires
        bf_wf(*a),
        bf_wf(*b),
        round_args_wf(prec, flags),
    ensures
        bf_wf(*final(r)),
        (bf_is_nan(*a) || bf_is_nan(*b)) ==> bf_is_nan(*final(r)) && status == 0,
        !bf_is_nan(*a) && !bf_is_nan(*b) ==> ({
            let sb = spec_flip_sign(*b, true);
            &&& (bf_is_inf(*a) && bf_is_inf(*b) && a.sign == sb) ==> bf_is_inf(*final(r))
                && final(r).sign == a.sign && status == 0
            &&& (bf_is_inf(*a) && bf_is_inf(*b) && a.sign != sb) ==> bf_is_nan(*final(r))
                && status == BF_ST_INVALID_OP
            &&& (bf_is_inf(*a) && bf_is_finite(*b)) ==> bf_is_inf(*final(r)) && final(r).sign
                == a.sign && status == 0
            &&& (bf_is_finite(*a) && bf_is_inf(*b)) ==> bf_is_inf(*final(r)) && final(r).sign == sb
                && status == 0
            &&& (bf_is_zero(*a) && bf_is_zero(*b)) ==> bf_is_zero(*final(r)) && status == 0
                && final(r).sign == (if a.sign == sb {
                a.sign as int
            } else if spec_rnd_mode(flags) == BF_RNDD {
                1int
            } else {
                0int
            })
            &&& (bf_is_zero(*a) && bf_is_fin_nonzero(*b)) ==> status == spec_round_status(
                bf_mant(*b),
                bf_e2(*b),
                sb == 1,
                prec,
                flags,
            ) && rounded_to(*final(r), bf_mant(*b), bf_e2(*b), sb == 1, prec, flags)
            &&& (bf_is_fin_nonzero(*a) && bf_is_zero(*b)) ==> status == spec_round_status(
                bf_mant(*a),
                bf_e2(*a),
                a.sign == 1,
                prec,
                flags,
            ) && rounded_to(*final(r), bf_mant(*a), bf_e2(*a), a.sign == 1, prec, flags)
            &&& (bf_is_fin_nonzero(*a) && bf_is_fin_nonzero(*b) && spec_add_too_wide(*a, *b))
                ==> bf_is_nan(*final(r)) && status == BF_ST_MEM_ERROR
            &&& (bf_is_fin_nonzero(*a) && bf_is_fin_nonzero(*b) && !spec_add_too_wide(*a, *b))
                ==> ({
                let ec = spec_add_scale(*a, *b);
                let ma = spec_mag_at(*a, ec);
                let mb = spec_mag_at(*b, ec);
                if a.sign == sb {
                    status == spec_round_status((ma + mb) as nat, ec, a.sign == 1, prec, flags)
                        && rounded_to(*final(r), (ma + mb) as nat, ec, a.sign == 1, prec, flags)
                } else if ma == mb {
                    bf_is_zero(*final(r)) && status == 0 && final(r).sign == (
                    if spec_rnd_mode(flags) == BF_RNDD {
                        1int
                    } else {
                        0int
                    })
                } else if ma > mb {
                    status == spec_round_status((ma - mb) as nat, ec, a.sign == 1, prec, flags)
                        && rounded_to(*final(r), (ma - mb) as nat, ec, a.sign == 1, prec, flags)
                } else {
                    status == spec_round_status((mb - ma) as nat, ec, sb == 1, prec, flags)
                        && rounded_to(*final(r), (mb - ma) as nat, ec, sb == 1, prec, flags)
                }
            })
        }),
{
    bf_add_internal(r, a, b, true, prec, flags)
}

} // verus!
