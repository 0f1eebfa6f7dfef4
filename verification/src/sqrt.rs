//! Square root: an integer square root of the mantissa widened to an
//! even power of two, then one rounding of root-plus-sticky.

use vstd::prelude::*;
use vstd::arithmetic::power2::{pow2, lemma_pow2_adds, lemma_pow2_pos, lemma_pow2_strictly_increases, lemma2_to64};
use vstd::arithmetic::mul::{lemma_mul_inequality, lemma_mul_basics, lemma_mul_is_associative, lemma_mul_strict_inequality, lemma_mul_strictly_positive, lemma_mul_is_commutative};
use crate::bits::{limbs_val, lemma_limbs_val_push, lemma_limbs_val_bound, lemma_limbs_val_zero, lemma_limbs_val_singleton};
use crate::dyadic::{bit_length, lemma_bit_length_bounds};
use crate::cmp::pad_low;
use crate::limb_ops::{mp_cmp, mp_mul_basecase, mp_add_at, mp_add_ui, mp_shl};
use crate::add::{pad_high, mp_shift_up};
use crate::num::{bf_t, bf_wf, bf_mant, bf_e2, bf_is_zero, bf_is_inf, bf_is_nan, bf_is_finite, bf_is_fin_nonzero, bf_mag_eq, bf_set_zero, bf_set_inf, bf_set_nan, spec_rnd_mode, flags_wf, lemma_wf_bit_length, BF_ST_INVALID_OP, BF_ST_MEM_ERROR, BF_EXP_ZERO, BF_EXP_INF, BF_EXP_NAN, BF_PREC_INF, BF_LIMBS_MAX, BF_FLAG_RADPNT_PREC};
use crate::round::{Rounded, spec_round, spec_round_status, bf_normalize_and_round};
use crate::ops::{round_args_wf, rounded_to};

verus! {

/// `s` is the integer square root of `n`.
pub open spec fn is_isqrt(s: nat, n: nat) -> bool {
    s * s <= n < (s + 1) * (s + 1)
}

/// Integer square root of a 64-bit value: the unique `s` with
/// `s^2 <= a < (s+1)^2`.
pub fn bf_isqrt(a: u64) -> (s: u64)
    ensures
        is_isqrt(s as nat, a as nat),
{
    let mut v: Vec<u64> = Vec::new();
    v.push(a);
    proof {
        lemma_limbs_val_singleton(v@);
        assert(a < pow2(64)) by {
            vstd::arithmetic::power2::lemma2_to64_rest();
        }
    }
    let sv = mp_isqrt(&v, 32);
    proof {
        lemma_limbs_val_singleton(sv@);
    }
    sv[0]
}

/// The integer square root is unique.
pub proof fn lemma_isqrt_unique(s1: nat, s2: nat, n: nat)
    requires
        is_isqrt(s1, n),
        is_isqrt(s2, n),
    ensures
        s1 == s2,
{
    if s1 < s2 {
        assert((s1 + 1) * (s1 + 1) <= s2 * s2) by (nonlinear_arith)
            requires
                s1 + 1 <= s2,
        ;
    }
    if s2 < s1 {
        assert((s2 + 1) * (s2 + 1) <= s1 * s1) by (nonlinear_arith)
            requires
                s2 + 1 <= s1,
        ;
    }
}

/// Compare the values of two limb arrays of any lengths.
fn mp_cmp_any(a: &Vec<u64>, b: &Vec<u64>) -> (r: i32)
    requires
        a.len() + b.len() < usize::MAX,
    ensures
        r == 1 || r == -1 || r == 0,
        r == 1 ==> limbs_val(a@) > limbs_val(b@),
        r == -1 ==> limbs_val(a@) < limbs_val(b@),
        r == 0 ==> limbs_val(a@) == limbs_val(b@),
{
    let n = if a.len() < b.len() {
        b.len()
    } else {
        a.len()
    };
    let mut ap = pad_low(a, 0);
    let mut bp = pad_low(b, 0);
    proof {
        lemma2_to64();
        lemma_mul_basics(limbs_val(a@) as int);
        lemma_mul_basics(limbs_val(b@) as int);
    }
    pad_high(&mut ap, n);
    pad_high(&mut bp, n);
    mp_cmp(&ap, &bp)
}

/// Integer square root by descending bit trials: `s*s <= n < (s+1)*(s+1)`.
#[verifier::rlimit(100)]
#[verifier::spinoff_prover]
pub fn mp_isqrt(nv: &Vec<u64>, h: u64) -> (s: Vec<u64>)
    requires
        nv.len() >= 1,
        limbs_val(nv@) < pow2((2 * h) as nat),
        h >= 1,
        h < 0x4000_0000,
        nv.len() < 0x100_0000,
    ensures
        is_isqrt(limbs_val(s@), limbs_val(nv@)),
        s.len() == h / 64 + 1,
{
    let ghost n = limbs_val(nv@);
    let hl: usize = (h / 64) as usize + 1;
    let mut sv: Vec<u64> = Vec::new();
    let mut z: usize = 0;
    while z < hl
        invariant
            z <= hl,
            sv.len() == z,
            forall|j: int| 0 <= j < z ==> sv@[j] == 0,
        decreases hl - z,
    {
        sv.push(0u64);
        z = z + 1;
    }
    proof {
        lemma_limbs_val_zero(sv@);
        lemma_mul_basics(0int);
        assert(0 * 0 == 0);
        lemma_pow2_pos(h as nat);
        assert(pow2(h as nat) * pow2(h as nat) == pow2((2 * h) as nat)) by {
            lemma_pow2_adds(h as nat, h as nat);
        }
    }
    let mut i: u64 = h;
    while i > 0
        invariant
            i <= h,
            sv.len() == hl,
            hl == h / 64 + 1,
            64 * (hl as int) > h,
            n == limbs_val(nv@),
            nv.len() >= 1,
            nv.len() < 0x100_0000,
            hl < 0x200_0000,
            n < pow2((2 * h) as nat),
            limbs_val(sv@) < pow2(h as nat),
            limbs_val(sv@) % pow2(i as nat) == 0,
            limbs_val(sv@) * limbs_val(sv@) <= n,
            n < (limbs_val(sv@) + pow2(i as nat)) * (limbs_val(sv@) + pow2(i as nat)),
        decreases i,
    {
        i = i - 1;
        let ghost s_old = limbs_val(sv@);
        // t = s + 2^i
        let mut tv = pad_low(&sv, 0);
        proof {
            lemma2_to64();
            lemma_mul_basics(limbs_val(sv@) as int);
        }
        let bit_limb: u64 = 1u64 << (i % 64);
        let mut one: Vec<u64> = Vec::new();
        one.push(bit_limb);
        proof {
            lemma_limbs_val_singleton(one@);
            vstd::bits::lemma_u64_pow2_no_overflow((i % 64) as nat);
            vstd::bits::lemma_u64_shl_is_mul(1u64, i % 64);
            lemma_mul_basics(pow2((i % 64) as nat) as int);
            assert(one@[0] == pow2((i % 64) as nat));
            assert((i / 64) as nat * 64 + (i % 64) as nat == i as nat);
        }
        let c = mp_add_at(&mut tv, &one, (i / 64) as usize);
        proof {
            // t = s + 2^i, and it stays below 2^(h+1) <= 2^(64*hl)
            assert(pow2((i % 64) as nat) * pow2(64 * ((i / 64) as usize) as nat) == pow2(
                i as nat,
            )) by {
                lemma_pow2_adds((i % 64) as nat, 64 * ((i / 64) as usize) as nat);
            }
            assert(limbs_val(tv@) + c * pow2(64 * hl as nat) == s_old + pow2(i as nat));
            if c > 0 {
                lemma_mul_basics(pow2(64 * hl as nat) as int);
                lemma_mul_inequality(1, c as int, pow2(64 * hl as nat) as int);
                assert(s_old + pow2(i as nat) < 2 * pow2(h as nat)) by {
                    if (i as nat) < h as nat {
                        lemma_pow2_strictly_increases(i as nat, h as nat);
                    }
                }
                assert(2 * pow2(h as nat) <= pow2(64 * hl as nat)) by {
                    lemma_pow2_adds(h as nat, 1);
                    lemma2_to64();
                    if ((h + 1) as nat) < 64 * (hl as nat) {
                        lemma_pow2_strictly_increases((h + 1) as nat, 64 * hl as nat);
                    }
                }
                assert(false);
            }
            lemma_mul_basics(pow2(64 * hl as nat) as int);
            lemma_mul_basics(0int);
            assert(0 * pow2(64 * hl as nat) == 0);
            assert(limbs_val(tv@) == s_old + pow2(i as nat));
        }
        // t*t <= n ?
        let t2 = mp_mul_basecase(&tv, &tv);
        let cres = mp_cmp_any(&t2, nv);
        if cres <= 0 {
            sv = tv;
        }
        proof {
            let s_new = limbs_val(sv@);
            let t = s_old + pow2(i as nat);
            lemma_pow2_pos(i as nat);
            lemma_pow2_adds(i as nat, 1);
            lemma2_to64();
            assert(pow2((i + 1) as nat) == pow2(i as nat) * 2);
            if cres <= 0 {
                // lower bound holds by the test; upper carries over
                assert(s_new == t);
                assert(n < (t + pow2(i as nat)) * (t + pow2(i as nat))) by {
                    assert(t + pow2(i as nat) == s_old + pow2((i + 1) as nat));
                }
                // s stays below 2^h: t^2 <= n < 2^(2h) forces t < 2^h
                assert(t < pow2(h as nat)) by {
                    if t >= pow2(h as nat) {
                        assert(pow2(h as nat) * pow2(h as nat) <= t * t) by (nonlinear_arith)
                            requires
                                pow2(h as nat) <= t,
                        ;
                        assert(pow2(h as nat) * pow2(h as nat) == pow2((2 * h) as nat)) by {
                            lemma_pow2_adds(h as nat, h as nat);
                        }
                        assert(false);
                    }
                }
                // divisibility: t is a multiple of 2^i
                assert(t % pow2(i as nat) == 0) by {
                    assert(s_old % pow2((i + 1) as nat) == 0);
                    vstd::arithmetic::div_mod::lemma_mod_breakdown(
                        s_old as int,
                        pow2(i as nat) as int,
                        2,
                    );
                    vstd::arithmetic::mul::lemma_mul_nonnegative(
                        pow2(i as nat) as int,
                        ((s_old as int / pow2(i as nat) as int) % 2) as int,
                    );
                    assert(s_old % pow2(i as nat) == 0);
                    vstd::arithmetic::div_mod::lemma_mod_add_multiples_vanish(
                        s_old as int,
                        pow2(i as nat) as int,
                    );
                    assert((pow2(i as nat) + s_old) as int % pow2(i as nat) as int == s_old as int
                        % pow2(i as nat) as int);
                }
            } else {
                // upper bound from the failed test; the rest carries over
                assert(n < t * t);
                assert(s_old % pow2(i as nat) == 0) by {
                    assert(s_old % pow2((i + 1) as nat) == 0);
                    vstd::arithmetic::div_mod::lemma_mod_breakdown(
                        s_old as int,
                        pow2(i as nat) as int,
                        2,
                    );
                    vstd::arithmetic::mul::lemma_mul_nonnegative(
                        pow2(i as nat) as int,
                        ((s_old as int / pow2(i as nat) as int) % 2) as int,
                    );
                }
            }
        }
    }
    proof {
        lemma2_to64();
        assert(pow2(0) == 1);
    }
    sv
}


/// How many extra bits the square root widens its operand by (an even
/// shift, adjusted so the remaining exponent is even too).
pub open spec fn spec_sqrt_extra(a: bf_t, prec: u64, flags: u32) -> int {
    let p_use = if flags & BF_FLAG_RADPNT_PREC != 0 {
        (a.expn + 0x7000_0000_0000_0000) / 2 - 0x3800_0000_0000_0000 + 2 + prec
    } else {
        prec as int
    };
    let p_clamped = if p_use < 1 {
        1int
    } else {
        p_use
    };
    let ex0 = 2 * p_clamped + 6 - 64 * a.tab.len();
    let ex1 = if ex0 < 2 {
        2int
    } else {
        ex0
    };
    let ex2 = if ex1 % 2 == 1 {
        ex1 + 1
    } else {
        ex1
    };
    if (bf_e2(a) - ex2 + 0x7800_0000_0000_0000) % 2 == 0 {
        ex2
    } else {
        ex2 + 1
    }
}

pub open spec fn spec_sqrt_too_wide(a: bf_t, prec: u64, flags: u32) -> bool {
    a.tab.len() + spec_sqrt_extra(a, prec, flags) / 64 + 4 >= 0x100_0000
}

/// The rounded outcome of the square root, given the integer root `s` of
/// the widened mantissa.
pub open spec fn spec_sqrt_result_ok(r: bf_t, status: i32, a: bf_t, prec: u64, flags: u32, s: nat) -> bool {
    let ex = spec_sqrt_extra(a, prec, flags);
    let nn = bf_mant(a) * pow2(ex as nat);
    let e = (bf_e2(a) - ex + 0x7800_0000_0000_0000) / 2 - 0x3c00_0000_0000_0000 - 1;
    let m = 2 * s + (if s * s == nn {
        0nat
    } else {
        1nat
    });
    status == spec_round_status(m as nat, e, false, prec, flags) && rounded_to(
        r,
        m as nat,
        e,
        false,
        prec,
        flags,
    )
}

/// Square root: the integer root of the widened mantissa plus a sticky
/// bit, rounded once.  Negative nonzero operands are invalid; the square
/// root of a zero is that zero.
#[verifier::rlimit(100)]
#[verifier::spinoff_prover]
pub fn bf_sqrt(r: &mut bf_t, a: &bf_t, prec: u64, flags: u32) -> (status: i32)
    requires
        bf_wf(*a),
        round_args_wf(prec, flags),
        prec != BF_PREC_INF,
    ensures
        bf_wf(*final(r)),
        bf_is_nan(*a) ==> bf_is_nan(*final(r)) && status == 0,
        !bf_is_nan(*a) && a.sign == 1 && !bf_is_zero(*a) ==> bf_is_nan(*final(r)) && status
            == BF_ST_INVALID_OP,
        bf_is_inf(*a) && a.sign == 0 ==> bf_is_inf(*final(r)) && final(r).sign == 0 && status == 0,
        bf_is_zero(*a) ==> bf_is_zero(*final(r)) && final(r).sign == a.sign && status == 0,
        bf_is_fin_nonzero(*a) && a.sign == 0 && spec_sqrt_too_wide(*a, prec, flags) ==> bf_is_nan(
            *final(r),
        ) && status == BF_ST_MEM_ERROR,
        bf_is_fin_nonzero(*a) && a.sign == 0 && !spec_sqrt_too_wide(*a, prec, flags) ==> exists|
            s: nat,
        |
            is_isqrt(s, bf_mant(*a) * pow2(spec_sqrt_extra(*a, prec, flags) as nat))
                && spec_sqrt_result_ok(*final(r), status, *a, prec, flags, s),
{
    if a.expn == BF_EXP_NAN {
        bf_set_nan(r);
        return 0;
    }
    if a.sign == 1 && a.expn != BF_EXP_ZERO {
        bf_set_nan(r);
        return BF_ST_INVALID_OP;
    }
    if a.expn == BF_EXP_ZERO {
        bf_set_zero(r, a.sign);
        return 0;
    }
    if a.expn == BF_EXP_INF {
        bf_set_inf(r, 0);
        return 0;
    }
    // finite, positive
    let la = a.tab.len();
    let e2a: i128 = a.expn as i128 - 64 * (la as i128);
    let p_use0: i128 = if flags & BF_FLAG_RADPNT_PREC != 0 {
        (a.expn as i128 + 0x7000_0000_0000_0000) / 2 - 0x3800_0000_0000_0000 + 2 + prec as i128
    } else {
        prec as i128
    };
    let p_use: i128 = if p_use0 < 1 {
        1
    } else {
        p_use0
    };
    let ex0: i128 = 2 * p_use + 6 - 64 * (la as i128);
    let ex1: i128 = if ex0 < 2 {
        2
    } else {
        ex0
    };
    let ex2: i128 = if ex1 % 2 == 1 {
        ex1 + 1
    } else {
        ex1
    };
    let ex_i: i128 = if (e2a - ex2 + 0x7800_0000_0000_0000) % 2 == 0 {
        ex2
    } else {
        ex2 + 1
    };
    proof {
        assert(ex_i == spec_sqrt_extra(*a, prec, flags));
    }
    if la as i128 + ex_i / 64 + 4 >= 0x100_0000 {
        bf_set_nan(r);
        return BF_ST_MEM_ERROR;
    }
    let ex: u64 = ex_i as u64;
    let nv = mp_shift_up(&a.tab, ex);
    let ghost nn = bf_mant(*a) * pow2(ex as nat);
    let h_i: i128 = (64 * (la as i128) + ex_i + 1) / 2;
    let h: u64 = h_i as u64;
    proof {
        lemma_wf_bit_length(*a);
        lemma_pow2_pos(ex as nat);
        lemma_mul_strictly_positive(bf_mant(*a) as int, pow2(ex as nat) as int);
        assert(limbs_val(nv@) == nn);
        // nn < 2^(64la+ex) <= 2^(2h)
        assert(nn < pow2((64 * la + ex) as nat)) by {
            lemma_limbs_val_bound(a.tab@);
            lemma_mul_strict_inequality(
                bf_mant(*a) as int,
                pow2(64 * la as nat) as int,
                pow2(ex as nat) as int,
            );
            lemma_pow2_adds(64 * la as nat, ex as nat);
        }
        assert(2 * (h as int) >= 64 * la + ex);
        assert(nn < pow2((2 * h) as nat)) by {
            if ((64 * la + ex) as nat) < ((2 * h) as nat) {
                lemma_pow2_strictly_increases((64 * la + ex) as nat, (2 * h) as nat);
            }
        }
    }
    let sv = mp_isqrt(&nv, h);
    let ghost sval = limbs_val(sv@);
    // sticky: is the square exact?
    let s2 = mp_mul_basecase(&sv, &sv);
    let ceq = mp_cmp_any(&s2, &nv);
    let sticky = ceq != 0;
    proof {
        if ceq == 1 {
            assert(false);
        }
    }
    // m = 2*s + sticky
    let (mut mv, hi) = mp_shl(&sv, 1);
    proof {
        lemma2_to64();
        assert(limbs_val(mv@) + hi * pow2(64 * sv.len() as nat) == sval * 2);
    }
    let ghost pre_push = mv@;
    mv.push(hi);
    proof {
        lemma_limbs_val_push(pre_push, hi);
        assert(limbs_val(mv@) == 2 * sval) by {
            lemma_mul_is_commutative(sval as int, 2);
        }
    }
    if sticky {
        let ghost pre_add = mv@;
        let c = mp_add_ui(&mut mv, 1);
        proof {
            if c != 0 {
                lemma_limbs_val_bound(pre_add);
                lemma_pow2_pos(64 * mv.len() as nat);
                lemma_mul_basics(pow2(64 * mv.len() as nat) as int);
                assert(limbs_val(mv@) == 0);
                assert(2 * sval + 1 == pow2(64 * mv.len() as nat));
                lemma_pow2_adds(1, (64 * mv.len() - 1) as nat);
                assert(pow2(64 * mv.len() as nat) == 2 * pow2((64 * mv.len() - 1) as nat));
                assert(false);
            }
            lemma_mul_basics(pow2(64 * mv.len() as nat) as int);
            lemma_mul_basics(0int);
            assert(0 * pow2(64 * mv.len() as nat) == 0);
        }
    }
    proof {
        // the result mantissa is positive: s > 0 or sticky
        if sval == 0 && !sticky {
            lemma_mul_basics(0int);
            assert(false);
        }
    }
    let e_fin: i128 = (e2a - ex_i + 0x7800_0000_0000_0000) / 2 - 0x3c00_0000_0000_0000 - 1;
    let raw_expn: i128 = e_fin + 64 * (mv.len() as i128);
    proof {
        assert(mv.len() as int <= la as int + ex_i / 64 + 4);
        assert(-0x7800_0000_0000_0000 <= raw_expn <= 0x7800_0000_0000_0000);
        assert(mv.len() <= BF_LIMBS_MAX);
    }
    r.tab = mv;
    r.expn = raw_expn as i64;
    r.sign = 0;
    let st = bf_normalize_and_round(r, prec, flags);
    proof {
        assert(sticky == (sval * sval != nn));
        assert(is_isqrt(sval, nn));
        assert(spec_sqrt_result_ok(*r, st, *a, prec, flags, sval));
    }
    st
}

} // verus!
