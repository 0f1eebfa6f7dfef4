//! Division: a restoring long division produces the quotient of
//! `ma * 2^extra` by `mb` together with a sticky flag for the remainder;
//! `bf_div` widens the dividend far enough that one rounding of the
//! quotient-plus-sticky gives the correctly characterised result.

use vstd::prelude::*;
use vstd::arithmetic::power2::{pow2, lemma_pow2_adds, lemma_pow2_pos, lemma_pow2_strictly_increases, lemma2_to64, lemma2_to64_rest};
use vstd::arithmetic::mul::{lemma_mul_inequality, lemma_mul_basics, lemma_mul_is_associative, lemma_mul_strict_inequality, lemma_mul_strictly_positive, lemma_mul_is_distributive_add_other_way, lemma_mul_is_commutative};
use vstd::arithmetic::div_mod::{lemma_fundamental_div_mod, lemma_fundamental_div_mod_converse};
use crate::bits::{limbs_val, lemma_limbs_val_push, lemma_limbs_val_bound, lemma_limbs_val_zero, lemma_limbs_val_div_mod, lemma_limbs_val_singleton};
use crate::dyadic::{dyadic_eq, bit_length, lemma_div_div_pow2, lemma_bit_length_bounds};
use crate::cmp::pad_low;
use crate::limb_ops::{mp_add, mp_sub, mp_cmp, mp_shl, mp_add_ui};
use crate::add::pad_high;
use crate::num::{bf_t, bf_wf, bf_mant, bf_e2, bf_is_zero, bf_is_inf, bf_is_nan, bf_is_finite, bf_is_fin_nonzero, bf_mag_eq, bf_set_zero, bf_set_inf, bf_set_nan, spec_e_min, spec_e_max, spec_rnd_mode, flags_wf, lemma_wf_bit_length, BF_ST_INVALID_OP, BF_ST_DIVIDE_ZERO, BF_ST_MEM_ERROR, BF_EXP_ZERO, BF_EXP_INF, BF_EXP_NAN, BF_PREC_INF, BF_LIMBS_MAX, BF_FLAG_RADPNT_PREC};
use crate::round::{Rounded, spec_round, spec_round_status, bf_normalize_and_round};
use crate::ops::{round_args_wf, rounded_to};

verus! {

/// Bit `i` of the array's value.
pub fn mp_get_bit(a: &Vec<u64>, i: u64) -> (r: bool)
    requires
        (i as int) < 64 * a.len(),
    ensures
        r == ((limbs_val(a@) / pow2(i as nat)) % 2 == 1),
{
    let q: usize = (i / 64) as usize;
    let b: u64 = i % 64;
    let limb = a[q];
    let pb: u64 = 1u64 << b;
    proof {
        vstd::bits::lemma_u64_pow2_no_overflow(b as nat);
        vstd::bits::lemma_u64_shl_is_mul(1u64, b);
        lemma_mul_basics(pow2(b as nat) as int);
        lemma_pow2_pos(b as nat);
    }
    let bit = (limb / pb) % 2;
    proof {
        let m = limbs_val(a@);
        crate::bits::lemma_limbs_val_index(a@, q as int);
        // a[q] == (m / 2^(64q)) % 2^64
        lemma_div_div_pow2(m, 64 * q as nat, b as nat);
        assert(64 * q as nat + b as nat == i as nat);
        // (x % 2^64) / 2^b % 2 == (x / 2^b) % 2 for b < 64
        let x = m / pow2(64 * q as nat);
        let hi = x / pow2(64);
        lemma_pow2_pos(b as nat);
        lemma_pow2_pos((64 - b) as nat);
        lemma_pow2_adds(b as nat, (64 - b) as nat);
        lemma2_to64_rest();
        assert(limb == x % pow2(64));
        vstd::arithmetic::div_mod::lemma_fundamental_div_mod(x as int, pow2(64) as int);
        vstd::arithmetic::div_mod::lemma_fundamental_div_mod(limb as int, pow2(b as nat) as int);
        assert(pow2((64 - b) as nat) * pow2(b as nat) == pow2(64)) by {
            lemma_pow2_adds((64 - b) as nat, b as nat);
        }
        vstd::arithmetic::div_mod::lemma_mod_division_less_than_divisor(
            limb as int,
            pow2(b as nat) as int,
        );
        // x / 2^b == hi * 2^(64-b) + limb / 2^b
        assert(x as int == (hi * pow2((64 - b) as nat) + limb as int / pow2(b as nat) as int)
            * pow2(b as nat) + limb as int % pow2(b as nat) as int) by (nonlinear_arith)
            requires
                x as int == pow2(64) as int * hi + limb,
                limb as int == pow2(b as nat) as int * (limb as int / pow2(b as nat) as int)
                    + limb as int % pow2(b as nat) as int,
                pow2((64 - b) as nat) * pow2(b as nat) == pow2(64),
        ;
        assert(x / pow2(b as nat) == hi * pow2((64 - b) as nat) + limb as int / pow2(
            b as nat,
        ) as int) by {
            assert(pow2((64 - b) as nat) * pow2(b as nat) == pow2(64)) by {
                lemma_pow2_adds((64 - b) as nat, b as nat);
            }
            vstd::arithmetic::div_mod::lemma_fundamental_div_mod_converse(
                x as int,
                pow2(b as nat) as int,
                hi * pow2((64 - b) as nat) + limb as int / pow2(b as nat) as int,
                limb as int % pow2(b as nat) as int,
            );
        }
        // the high part is even, so the parities agree
        assert((hi * pow2((64 - b) as nat) + limb as int / pow2(b as nat) as int) % 2 == (
        limb as int / pow2(b as nat) as int) % 2) by {
            assert(pow2((64 - b) as nat) == pow2((63 - b) as nat) * 2) by {
                lemma_pow2_adds((63 - b) as nat, 1);
                lemma2_to64();
            }
            lemma_mul_is_associative(hi as int, pow2((63 - b) as nat) as int, 2);
            vstd::arithmetic::div_mod::lemma_mod_multiples_vanish(
                (hi * pow2((63 - b) as nat)) as int,
                limb as int / pow2(b as nat) as int,
                2,
            );
            vstd::arithmetic::mul::lemma_mul_is_commutative(
                (hi * pow2((63 - b) as nat)) as int,
                2,
            );
        }
    }
    bit == 1
}

/// One step of the restoring-division recurrence:
/// `floor(x / 2^(j-1)) == 2 * floor(x / 2^j) + bit_{j-1}(x)`.
proof fn lemma_div_bit_step(x: nat, j: nat)
    requires
        j >= 1,
    ensures
        x / pow2((j - 1) as nat) == 2 * (x / pow2(j)) + (x / pow2((j - 1) as nat)) % 2,
{
    lemma_div_div_pow2(x, (j - 1) as nat, 1);
    assert((j - 1) as nat + 1 == j);
    lemma2_to64();
    let h = x / pow2((j - 1) as nat);
    assert(h / pow2(1) == x / pow2(j));
    assert(h / 2 == h / pow2(1));
    lemma_fundamental_div_mod(h as int, 2);
    assert(h as int == 2 * (h as int / 2) + h as int % 2);
    assert(h as int / 2 == (h / 2) as int);
    assert(h as int % 2 == (h % 2) as int);
    assert(h == 2 * (h / 2) + h % 2) by (nonlinear_arith);
    assert(x / pow2((j - 1) as nat) == 2 * (x / pow2(j)) + (x / pow2((j - 1) as nat)) % 2) by {
        assert(h / 2 == x / pow2(j));
    }
}

/// Restoring long division: the quotient of `ma * 2^extra` by `mb`, and
/// whether a nonzero remainder was left.
#[verifier::rlimit(100)]
#[verifier::spinoff_prover]
pub fn mp_divrem_bits(ma: &Vec<u64>, mb: &Vec<u64>, extra: u64) -> (res: (Vec<u64>, bool))
    requires
        ma.len() >= 1,
        mb.len() >= 1,
        limbs_val(ma@) > 0,
        limbs_val(mb@) > 0,
        64 * ma.len() + extra < 0x4000_0000_0000,
        ma.len() + mb.len() + (extra as int) / 64 + 4 < 0x1000_0000,
    ensures
        limbs_val(res.0@) == (limbs_val(ma@) * pow2(extra as nat)) / limbs_val(mb@),
        res.1 == ((limbs_val(ma@) * pow2(extra as nat)) % limbs_val(mb@) != 0),
        res.0.len() <= ma.len() + (extra as int) / 64 + 2,
{
    let la = ma.len();
    let lb = mb.len();
    let ghost va = limbs_val(ma@);
    let ghost vb = limbs_val(mb@);
    let ghost num = va * pow2(extra as nat);
    let nbits: u64 = 64 * (la as u64) + extra;
    // working sizes: remainder below mb fits in lb limbs; give one spare.
    let wr: usize = lb + 1;
    // quotient bound: num < 2^nbits, so q <= num/1; q < 2^nbits
    let wq: usize = (nbits / 64) as usize + 1;
    proof {
        vstd::arithmetic::div_mod::lemma_hoist_over_denominator(extra as int, la as int, 64);
        assert((extra + 64 * la) as int / 64 == extra as int / 64 + la);
    }
    let mut rem: Vec<u64> = Vec::new();
    let mut qv: Vec<u64> = Vec::new();
    let mut z: usize = 0;
    while z < wr
        invariant
            z <= wr,
            rem.len() == z,
            forall|j: int| 0 <= j < z ==> rem@[j] == 0,
        decreases wr - z,
    {
        rem.push(0u64);
        z = z + 1;
    }
    let mut z2: usize = 0;
    while z2 < wq
        invariant
            z2 <= wq,
            qv.len() == z2,
            forall|j: int| 0 <= j < z2 ==> qv@[j] == 0,
        decreases wq - z2,
    {
        qv.push(0u64);
        z2 = z2 + 1;
    }
    let mut den = Vec::new();
    let mut z3: usize = 0;
    while z3 < lb
        invariant
            z3 <= lb,
            lb == mb.len(),
            den@ =~= mb@.subrange(0, z3 as int),
        decreases lb - z3,
    {
        den.push(mb[z3]);
        z3 = z3 + 1;
    }
    proof {
        assert(den@ =~= mb@);
    }
    pad_high(&mut den, wr);
    proof {
        lemma_limbs_val_zero(rem@);
        lemma_limbs_val_zero(qv@);
        lemma_pow2_pos(extra as nat);
        lemma_mul_strictly_positive(va as int, pow2(extra as nat) as int);
        assert(num / pow2(nbits as nat) == 0) by {
            lemma_limbs_val_bound(ma@);
            assert(num < pow2(64 * la as nat) * pow2(extra as nat)) by {
                lemma_mul_strict_inequality(
                    va as int,
                    pow2(64 * la as nat) as int,
                    pow2(extra as nat) as int,
                );
            }
            lemma_pow2_adds(64 * la as nat, extra as nat);
            lemma_pow2_pos(nbits as nat);
            vstd::arithmetic::div_mod::lemma_basic_div(num as int, pow2(nbits as nat) as int);
        }
        lemma_mul_basics(vb as int);
        lemma_mul_basics(0int);
        assert(0 * vb == 0);
        lemma2_to64();
        lemma_limbs_val_bound(mb@);
    }
    let mut k: u64 = 0;
    while k < nbits
        invariant
            k <= nbits,
            nbits == 64 * la + extra,
            la == ma.len(),
            rem.len() == wr,
            qv.len() == wq,
            den.len() == wr,
            wr == mb.len() + 1,
            wq == nbits / 64 + 1,
            64 * (wq as int) > nbits,
            limbs_val(den@) == vb,
            vb == limbs_val(mb@),
            lb == mb.len(),
            vb < pow2(64 * lb as nat),
            vb > 0,
            va > 0,
            num == va * pow2(extra as nat),
            va == limbs_val(ma@),
            limbs_val(rem@) < vb,
            limbs_val(qv@) * vb + limbs_val(rem@) == num / pow2((nbits - k) as nat),
            limbs_val(qv@) < pow2(k as nat),
        decreases nbits - k,
    {
        let ghost h_old = num / pow2((nbits - k) as nat);
        let ghost q_old = limbs_val(qv@);
        let ghost r_old = limbs_val(rem@);
        // the next dividend bit
        let pos: u64 = nbits - k - 1;
        let bitv: bool;
        if pos >= extra {
            bitv = mp_get_bit(ma, pos - extra);
            proof {
                // bit of num at pos equals bit of ma at pos - extra
                crate::dyadic::lemma_div_mod_scale(va, (pos - extra) as nat, extra as nat);
                assert((pos - extra) as nat + extra as nat == pos as nat);
            }
        } else {
            bitv = false;
            proof {
                // the low `extra` bits of num are zero
                crate::dyadic::lemma_div_mod_scale(va, 0, extra as nat);
                // num / 2^pos = va * 2^(extra-pos); its parity is even
                crate::dyadic::lemma_div_mod_scale(va, 0, (extra - pos) as nat);
                lemma_pow2_adds((extra - pos) as nat, pos as nat);
                crate::dyadic::lemma_div_mod_scale(
                    va * pow2((extra - pos) as nat),
                    0,
                    pos as nat,
                );
                assert((va * pow2((extra - pos) as nat)) * pow2(pos as nat) == num) by {
                    lemma_mul_is_associative(
                        va as int,
                        pow2((extra - pos) as nat) as int,
                        pow2(pos as nat) as int,
                    );
                }
                lemma2_to64();
                lemma_pow2_pos(pos as nat);
                assert(num / pow2(pos as nat) == va * pow2((extra - pos) as nat) * pow2(0)
                    / pow2(0)) by {
                    lemma_mul_basics((va * pow2((extra - pos) as nat)) as int);
                }
                // va * 2^(extra-pos) is even since extra - pos >= 1
                assert(va * pow2((extra - pos) as nat) % 2 == 0) by {
                    lemma_pow2_adds(1, (extra - pos - 1) as nat);
                    assert(pow2((extra - pos) as nat) == 2 * pow2((extra - pos - 1) as nat));
                    lemma_mul_is_associative(va as int, 2, pow2((extra - pos - 1) as nat) as int);
                    lemma_mul_is_commutative(va as int, 2);
                    vstd::arithmetic::div_mod::lemma_mod_multiples_basic(
                        (va * pow2((extra - pos - 1) as nat)) as int,
                        2,
                    );
                    lemma_mul_is_associative(2, va as int, pow2((extra - pos - 1) as nat) as int);
                }
            }
        }
        proof {
            lemma_div_bit_step(num, (nbits - k) as nat);
        }
        // rem = rem * 2 + bit
        let (mut rem2, hi) = mp_shl(&rem, 1);
        proof {
            // no overflow out of the top: rem < vb < 2^(64*(wr-1))
            lemma_limbs_val_bound(mb@);
            lemma2_to64();
            assert(limbs_val(rem@) * pow2(1) < pow2(64 * wr as nat)) by {
                lemma_pow2_adds(64 * (wr - 1) as nat, 1);
                lemma_pow2_strictly_increases((64 * (wr - 1) + 1) as nat, 64 * wr as nat);
                lemma_mul_strict_inequality(
                    limbs_val(rem@) as int,
                    pow2(64 * (wr - 1) as nat) as int,
                    pow2(1) as int,
                );
                lemma_pow2_strictly_increases(64 * (wr - 1) as nat, (64 * (wr - 1) + 1) as nat);
            }
            if hi > 0 {
                lemma_mul_basics(pow2(64 * wr as nat) as int);
                lemma_mul_inequality(1, hi as int, pow2(64 * wr as nat) as int);
                assert(false);
            }
            lemma_mul_basics(pow2(64 * wr as nat) as int);
            lemma_mul_basics(0int);
            assert(0 * pow2(64 * wr as nat) == 0);
        }
        if bitv {
            let ghost r2v = limbs_val(rem2@);
            let c = mp_add_ui(&mut rem2, 1);
            proof {
                lemma_pow2_strictly_increases((64 * (wr - 1) + 1) as nat, 64 * wr as nat);
                if c != 0 {
                    lemma_pow2_pos(64 * wr as nat);
                    lemma_mul_basics(pow2(64 * wr as nat) as int);
                    assert(r2v + 1 < pow2(64 * wr as nat)) by {
                        assert(r2v == 2 * r_old + 0);
                        assert(r_old < vb);
                        assert(vb < pow2(64 * (wr - 1) as nat));
                        lemma_pow2_adds(64 * (wr - 1) as nat, 1);
                        lemma2_to64();
                        assert(pow2((64 * (wr - 1) + 1) as nat) == pow2(64 * (wr - 1) as nat) * 2);
                        assert(2 * r_old + 1 < pow2(64 * (wr - 1) as nat) * 2);
                        assert(pow2((64 * (wr - 1) + 1) as nat) < pow2(64 * wr as nat));
                    }
                    assert(false);
                }
                lemma_mul_basics(pow2(64 * wr as nat) as int);
                lemma_mul_basics(0int);
                assert(0 * pow2(64 * wr as nat) == 0);
            }
        }
        let ghost h_new = num / pow2((nbits - k - 1) as nat);
        proof {
            lemma2_to64();
            assert(limbs_val(rem2@) == 2 * r_old + (if bitv {
                1int
            } else {
                0int
            }));
            assert(h_new == 2 * h_old + (if bitv {
                1int
            } else {
                0int
            })) by {
                assert((num / pow2((nbits - k - 1) as nat)) % 2 == (if bitv {
                    1int
                } else {
                    0int
                }));
            }
        }
        // compare and subtract
        let cge = mp_cmp(&rem2, &den);
        let newbit: bool;
        if cge >= 0 {
            let (rem3, brw) = mp_sub(&rem2, &den, 0);
            proof {
                if brw == 1 {
                    lemma_pow2_pos(64 * wr as nat);
                    lemma_mul_basics(pow2(64 * wr as nat) as int);
                    lemma_limbs_val_bound(rem3@);
                    assert(false);
                }
                lemma_mul_basics(pow2(64 * wr as nat) as int);
                lemma_mul_basics(0int);
                assert(0 * pow2(64 * wr as nat) == 0);
            }
            rem2 = rem3;
            newbit = true;
        } else {
            newbit = false;
        }
        rem = rem2;
        // q = q * 2 + newbit
        let (mut q2, qhi) = mp_shl(&qv, 1);
        proof {
            // q < 2^k and 64*wq > nbits > k, so the shift cannot overflow
            lemma2_to64();
            assert(q_old * pow2(1) < pow2(64 * wq as nat)) by {
                assert(q_old < pow2(k as nat));
                lemma_mul_strict_inequality(q_old as int, pow2(k as nat) as int, pow2(1) as int);
                lemma_pow2_adds(k as nat, 1);
                assert((k + 1) as nat <= 64 * wq as nat);
                if ((k + 1) as nat) < 64 * (wq as nat) {
                    lemma_pow2_strictly_increases((k + 1) as nat, 64 * wq as nat);
                }
            }
            if qhi > 0 {
                lemma_mul_basics(pow2(64 * wq as nat) as int);
                lemma_mul_inequality(1, qhi as int, pow2(64 * wq as nat) as int);
                lemma_limbs_val_bound(q2@);
                assert(false);
            }
            lemma_mul_basics(pow2(64 * wq as nat) as int);
            lemma_mul_basics(0int);
            assert(0 * pow2(64 * wq as nat) == 0);
        }
        if newbit {
            let ghost q2v0 = limbs_val(q2@);
            let c2 = mp_add_ui(&mut q2, 1);
            proof {
                if c2 != 0 {
                    lemma_pow2_pos(64 * wq as nat);
                    lemma_mul_basics(pow2(64 * wq as nat) as int);
                    assert(q2v0 == 2 * q_old);
                    assert(q2v0 + 1 < pow2(64 * wq as nat)) by {
                        assert(q_old < pow2(k as nat));
                        lemma_pow2_adds(k as nat, 1);
                        lemma2_to64();
                        assert(2 * q_old + 1 < 2 * pow2(k as nat));
                        assert(pow2((k + 1) as nat) == pow2(k as nat) * 2);
                        if ((k + 1) as nat) < 64 * (wq as nat) {
                            lemma_pow2_strictly_increases((k + 1) as nat, 64 * wq as nat);
                        }
                    }
                    assert(false);
                }
                lemma_mul_basics(pow2(64 * wq as nat) as int);
                lemma_mul_basics(0int);
                assert(0 * pow2(64 * wq as nat) == 0);
            }
        }
        qv = q2;
        proof {
            // the invariant is restored
            let q_new = limbs_val(qv@);
            let r_new = limbs_val(rem@);
            assert(q_new == 2 * q_old + (if newbit {
                1int
            } else {
                0int
            }));
            if newbit {
                assert(r_new == 2 * r_old + (if bitv {
                    1int
                } else {
                    0int
                }) - vb);
            }
            assert(q_new * vb + r_new == h_new) by {
                assert(h_old == q_old * vb + r_old);
                assert((2 * q_old + (if newbit {
                    1int
                } else {
                    0int
                })) * vb == 2 * (q_old * vb) + (if newbit {
                    vb as int
                } else {
                    0int
                })) by {
                    lemma_mul_is_distributive_add_other_way(vb as int, (2 * q_old) as int, (if newbit {
                        1int
                    } else {
                        0int
                    }));
                    lemma_mul_is_associative(2, q_old as int, vb as int);
                    lemma_mul_basics(vb as int);
                }
            }
            assert(r_new < vb);
            // q stays below 2^(k+1)
            assert(q_new < pow2((k + 1) as nat)) by {
                lemma_pow2_adds(k as nat, 1);
                lemma2_to64();
            }
        }
        k = k + 1;
    }
    proof {
        lemma2_to64();
        lemma_pow2_pos(0);
        assert(num / pow2(0) == num) by {
            lemma_mul_basics(num as int);
            vstd::arithmetic::div_mod::lemma_fundamental_div_mod_converse(
                num as int,
                1,
                num as int,
                0,
            );
        }
        // q and sticky from the invariant
        vstd::arithmetic::div_mod::lemma_fundamental_div_mod_converse(
            num as int,
            vb as int,
            limbs_val(qv@) as int,
            limbs_val(rem@) as int,
        );
        lemma_limbs_val_zero(rem@);
    }
    // sticky: any nonzero remainder limb
    let mut sticky = false;
    let mut i: usize = 0;
    while i < rem.len()
        invariant
            i <= rem.len(),
            sticky == !(forall|j: int| 0 <= j < i ==> rem@[j] == 0),
        decreases rem.len() - i,
    {
        if rem[i] != 0 {
            sticky = true;
        }
        i = i + 1;
    }
    proof {
        lemma_limbs_val_zero(rem@);
    }
    (qv, sticky)
}


/// How many extra dividend bits `bf_div` uses: enough that the quotient
/// always carries two bits more than the effective precision.
pub open spec fn spec_div_extra(a: bf_t, b: bf_t, prec: u64, flags: u32) -> int {
    let p_use = if flags & BF_FLAG_RADPNT_PREC != 0 {
        a.expn - b.expn + 1 + prec
    } else {
        prec as int
    };
    let p_clamped = if p_use < 1 {
        1int
    } else {
        p_use
    };
    let s0 = 64 * b.tab.len() - 64 * a.tab.len() + p_clamped + 66;
    if s0 < 66 {
        66int
    } else {
        s0
    }
}

/// Whether the widened dividend would be too large to materialise.
pub open spec fn spec_div_too_wide(a: bf_t, b: bf_t, prec: u64, flags: u32) -> bool {
    a.tab.len() + b.tab.len() + spec_div_extra(a, b, prec, flags) / 64 + 4 >= 0x1000_0000
}

/// Division: the quotient of the widened mantissas plus a sticky bit for
/// the remainder, rounded once.
#[verifier::rlimit(100)]
#[verifier::spinoff_prover]
pub fn bf_div(r: &mut bf_t, a: &bf_t, b: &bf_t, prec: u64, flags: u32) -> (status: i32)
    requires
        bf_wf(*a),
        bf_wf(*b),
        round_args_wf(prec, flags),
        prec != BF_PREC_INF,
    ensures
        bf_wf(*final(r)),
        (bf_is_nan(*a) || bf_is_nan(*b)) ==> bf_is_nan(*final(r)) && status == 0,
        !bf_is_nan(*a) && !bf_is_nan(*b) ==> ({
            let neg = a.sign != b.sign;
            let s: int = if neg {
                1
            } else {
                0
            };
            &&& (bf_is_inf(*a) && bf_is_inf(*b)) ==> bf_is_nan(*final(r)) && status
                == BF_ST_INVALID_OP
            &&& (bf_is_inf(*a) && bf_is_finite(*b)) ==> bf_is_inf(*final(r)) && final(r).sign == s
                && status == 0
            &&& (bf_is_finite(*a) && bf_is_inf(*b)) ==> bf_is_zero(*final(r)) && final(r).sign == s
                && status == 0
            &&& (bf_is_zero(*a) && bf_is_zero(*b)) ==> bf_is_nan(*final(r)) && status
                == BF_ST_INVALID_OP
            &&& (bf_is_fin_nonzero(*a) && bf_is_zero(*b)) ==> bf_is_inf(*final(r))
                && final(r).sign == s && status == BF_ST_DIVIDE_ZERO
            &&& (bf_is_zero(*a) && bf_is_fin_nonzero(*b)) ==> bf_is_zero(*final(r))
                && final(r).sign == s && status == 0
            &&& (bf_is_fin_nonzero(*a) && bf_is_fin_nonzero(*b) && spec_div_too_wide(
                *a,
                *b,
                prec,
                flags,
            )) ==> bf_is_nan(*final(r)) && status == BF_ST_MEM_ERROR
            &&& (bf_is_fin_nonzero(*a) && bf_is_fin_nonzero(*b) && !spec_div_too_wide(
                *a,
                *b,
                prec,
                flags,
            )) ==> ({
                let ex = spec_div_extra(*a, *b, prec, flags);
                let q = (bf_mant(*a) * pow2(ex as nat)) / bf_mant(*b);
                let sticky: nat = if (bf_mant(*a) * pow2(ex as nat)) % bf_mant(*b) != 0 {
                    1
                } else {
                    0
                };
                let m = 2 * q + sticky;
                let e = bf_e2(*a) - bf_e2(*b) - ex - 1;
                status == spec_round_status(m as nat, e, neg, prec, flags) && rounded_to(
                    *final(r),
                    m as nat,
                    e,
                    neg,
                    prec,
                    flags,
                )
            })
        }),
{
    if a.expn == BF_EXP_NAN || b.expn == BF_EXP_NAN {
        bf_set_nan(r);
        return 0;
    }
    let sign: i32 = if a.sign == b.sign {
        0
    } else {
        1
    };
    if a.expn == BF_EXP_INF {
        if b.expn == BF_EXP_INF {
            bf_set_nan(r);
            return BF_ST_INVALID_OP;
        }
        bf_set_inf(r, sign);
        return 0;
    }
    if b.expn == BF_EXP_INF {
        bf_set_zero(r, sign);
        return 0;
    }
    if b.expn == BF_EXP_ZERO {
        if a.expn == BF_EXP_ZERO {
            bf_set_nan(r);
            return BF_ST_INVALID_OP;
        }
        bf_set_inf(r, sign);
        return BF_ST_DIVIDE_ZERO;
    }
    if a.expn == BF_EXP_ZERO {
        bf_set_zero(r, sign);
        return 0;
    }
    // both finite and nonzero
    let la = a.tab.len();
    let lb = b.tab.len();
    let p_use0: i128 = if flags & BF_FLAG_RADPNT_PREC != 0 {
        a.expn as i128 - b.expn as i128 + 1 + prec as i128
    } else {
        prec as i128
    };
    let p_use: i128 = if p_use0 < 1 {
        1
    } else {
        p_use0
    };
    let s0: i128 = 64 * (lb as i128) - 64 * (la as i128) + p_use + 66;
    let ex_i: i128 = if s0 < 66 {
        66
    } else {
        s0
    };
    proof {
        assert(ex_i == spec_div_extra(*a, *b, prec, flags));
    }
    if la as i128 + lb as i128 + ex_i / 64 + 4 >= 0x1000_0000 {
        bf_set_nan(r);
        return BF_ST_MEM_ERROR;
    }
    let ex: u64 = ex_i as u64;
    proof {
        lemma_wf_bit_length(*a);
        lemma_wf_bit_length(*b);
        assert(64 * la + ex < 0x4000_0000_0000);
    }
    let (qv, sticky) = mp_divrem_bits(&a.tab, &b.tab, ex);
    // m = 2*q + sticky
    let (mut mv, hi) = mp_shl(&qv, 1);
    let ghost qval = (bf_mant(*a) * pow2(ex as nat)) / bf_mant(*b);
    let ghost m_fin: nat = (2 * qval + (if sticky {
        1nat
    } else {
        0nat
    })) as nat;
    proof {
        lemma2_to64();
        assert(limbs_val(mv@) + hi * pow2(64 * qv.len() as nat) == qval * 2);
    }
    let ghost pre_push = mv@;
    mv.push(hi);
    proof {
        lemma_limbs_val_push(pre_push, hi);
        assert(limbs_val(mv@) == 2 * qval) by {
            lemma_mul_is_commutative(qval as int, 2);
        }
    }
    if sticky {
        let ghost pre_add = mv@;
        let c = mp_add_ui(&mut mv, 1);
        proof {
            // 2q is even, so adding one cannot carry out
            if c != 0 {
                lemma_limbs_val_bound(pre_add);
                lemma_pow2_pos(64 * mv.len() as nat);
                lemma_mul_basics(pow2(64 * mv.len() as nat) as int);
                assert(limbs_val(mv@) == 0);
                assert(2 * qval + 1 == pow2(64 * mv.len() as nat));
                // an odd number cannot be a positive power of two here
                lemma_pow2_adds(1, (64 * mv.len() - 1) as nat);
                assert(pow2(64 * mv.len() as nat) == 2 * pow2((64 * mv.len() - 1) as nat));
                assert(false);
            }
            lemma_mul_basics(pow2(64 * mv.len() as nat) as int);
            lemma_mul_basics(0int);
            assert(0 * pow2(64 * mv.len() as nat) == 0);
        }
    }
    proof {
        assert(limbs_val(mv@) == m_fin);
        // the result mantissa is nonzero
        lemma_pow2_pos(ex as nat);
        lemma_mul_strictly_positive(bf_mant(*a) as int, pow2(ex as nat) as int);
        if qval == 0 && !sticky {
            vstd::arithmetic::div_mod::lemma_fundamental_div_mod(
                (bf_mant(*a) * pow2(ex as nat)) as int,
                bf_mant(*b) as int,
            );
            lemma_mul_basics(bf_mant(*b) as int);
            lemma_mul_basics(0int);
            assert(0 * bf_mant(*b) == 0);
            assert(false);
        }
    }
    let e_i: i128 = (a.expn as i128 - 64 * (la as i128)) - (b.expn as i128 - 64 * (lb as i128))
        - ex_i - 1;
    let raw_expn: i128 = e_i + 64 * (mv.len() as i128);
    proof {
        assert(mv.len() as int <= la as int + lb as int + ex_i / 64 + 4);
        assert(-0x7800_0000_0000_0000 <= raw_expn <= 0x7800_0000_0000_0000);
        assert(mv.len() <= BF_LIMBS_MAX);
    }
    r.tab = mv;
    r.expn = raw_expn as i64;
    r.sign = sign;
    bf_normalize_and_round(r, prec, flags)
}

} // verus!
