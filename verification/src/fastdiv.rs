//! Division of a limb by a fixed constant through a precomputed
//! multiply-shift triple, as the decimal limb kernels use for powers of
//! ten.

use vstd::prelude::*;
use vstd::arithmetic::power2::{pow2, lemma_pow2_adds, lemma_pow2_pos, lemma2_to64};
use vstd::arithmetic::div_mod::{
    lemma_fundamental_div_mod, lemma_fundamental_div_mod_converse, lemma_div_denominator,
    lemma_mod_division_less_than_divisor, lemma_basic_div, lemma_small_mod, lemma_div_is_ordered,
};
use vstd::arithmetic::mul::{lemma_mul_inequality, lemma_mul_basics, lemma_mul_strict_inequality};

verus! {

/// Precomputed data for dividing by a fixed constant: a magic multiplier
/// and two shifts.
pub struct FastDivData {
    pub m1: u64,
    pub shift1: i8,
    pub shift2: i8,
}

/// The multiply-shift computation as a function of the triple.
pub open spec fn spec_fast_udiv(a: u64, m1: u64, s1: u64, s2: u64) -> u64 {
    let t1 = ((m1 * a) / 0x1_0000_0000_0000_0000) as u64;
    let t0 = (((a - t1) as u64) >> s1) as u64;
    (((t1 + t0) % 0x1_0000_0000_0000_0000) as u64) >> s2
}

/// The triple was prepared for the divisor `d`: with `l = ceil(log2 d)`,
/// the multiplier is `floor(2^64 * (2^l - d) / d) + 1` (so that
/// `2^64 + m1 = floor(2^(64+l) / d) + 1`) and the two shifts split off
/// `l` bits, one first and `l - 1` after the averaging step.
pub open spec fn fastdiv_valid(s: FastDivData, d: u64) -> bool {
    if d == 1 {
        s.m1 == 1 && s.shift1 == 0 && s.shift2 == 0
    } else {
        &&& d >= 2
        &&& s.shift1 == 1
        &&& 0 <= s.shift2 < 64
        &&& pow2(s.shift2 as nat) < d <= pow2((s.shift2 + 1) as nat)
        &&& s.m1 == (pow2((s.shift2 + 1) as nat) - d) * pow2(64) / (d as int) + 1
    }
}

/// The multiplier of a valid triple is at most `a`-many steps away:
/// `floor(m1 * a / 2^64) <= a`, and below `2^64`.
proof fn lemma_mulh_le(a: u64, m1: u64)
    ensures
        0 <= (m1 * a) / 0x1_0000_0000_0000_0000 <= a,
        (m1 * a) / 0x1_0000_0000_0000_0000 < 0x1_0000_0000_0000_0000,
{
    let p64: int = 0x1_0000_0000_0000_0000;
    lemma_mul_inequality(m1 as int, p64 - 1, a as int);
    assert((p64 - 1) * a == p64 * a - a) by (nonlinear_arith);
    lemma_div_is_ordered(m1 * a, p64 * a - a, p64);
    lemma_div_is_ordered(p64 * a - a, p64 * a, p64);
    vstd::arithmetic::div_mod::lemma_div_multiples_vanish_fancy(a as int, 0, p64);
    assert(p64 * a + 0 == p64 * a);
    vstd::arithmetic::div_mod::lemma_div_pos_is_pos(m1 * a, p64);
    assert(m1 * a >= 0) by (nonlinear_arith);
    assert(m1 * a < p64 * p64) by (nonlinear_arith)
        requires
            0 <= m1 < p64,
            0 <= a < p64,
    ;
    vstd::arithmetic::div_mod::lemma_multiply_divide_lt(m1 * a, p64, p64);
}
/// A triple that is valid for `d` computes the exact quotient by `d` on
/// every limb: the law behind the multiply-shift scheme.
pub proof fn lemma_fast_udiv_exact(a: u64, s: FastDivData, d: u64)
    requires
        fastdiv_valid(s, d),
    ensures
        spec_fast_udiv(a, s.m1, s.shift1 as u64, s.shift2 as u64) == a / d,
{
    let p64: int = 0x1_0000_0000_0000_0000;
    lemma2_to64();
    vstd::arithmetic::power2::lemma2_to64_rest();
    lemma_mulh_le(a, s.m1);
    let t1v: int = (s.m1 * a) / p64;
    assert(((s.m1 * a) / p64) as u64 == t1v);
    if d == 1 {
        assert(s.m1 * a == a) by (nonlinear_arith)
            requires
                s.m1 == 1,
        ;
        lemma_basic_div(a as int, p64);
        assert(t1v == 0);
        assert(((a - 0) as u64) == a);
        vstd::bits::lemma_u64_shr_is_div(a, 0);
        assert(a as nat / pow2(0) == a) by {
            vstd::arithmetic::div_mod::lemma_div_basics(a as int);
        }
        lemma_small_mod(a as nat, p64 as nat);
        vstd::bits::lemma_u64_shr_is_div((0 + a) as u64, 0);
        vstd::arithmetic::div_mod::lemma_div_basics(a as int);
    } else {
        let l = s.shift2 + 1;
        let plm1: int = pow2(s.shift2 as nat) as int;
        let pl: int = pow2(l as nat) as int;
        let pp: int = pow2((64 + l) as nat) as int;
        lemma_pow2_pos(s.shift2 as nat);
        lemma_pow2_pos(l as nat);
        lemma_pow2_pos((64 + l) as nat);
        assert(pl == 2 * plm1) by {
            lemma_pow2_adds(1, s.shift2 as nat);
        }
        assert(pp == p64 * pl) by {
            lemma_pow2_adds(64, l as nat);
        }
        let q: int = pp / d as int;
        let rp: int = pp % d as int;
        lemma_fundamental_div_mod(pp, d as int);
        lemma_mod_division_less_than_divisor(pp, d as int);
        // the quotient of 2^(64+l) by d is at least 2^64
        assert(q >= p64) by {
            lemma_mul_inequality(d as int, pl, p64);
            assert(d * p64 <= pl * p64) by (nonlinear_arith)
                requires
                    d <= pl,
                    p64 > 0,
            ;
            lemma_div_is_ordered(d * p64, pp, d as int);
            vstd::arithmetic::div_mod::lemma_div_multiples_vanish_fancy(p64, 0, d as int);
            assert(d * p64 + 0 == d * p64);
        }
        // the stored multiplier is q - 2^64 + 1
        assert((pl - d) * p64 == d * (q - p64) + rp) by (nonlinear_arith)
            requires
                pp == d * q + rp,
                pp == p64 * pl,
        ;
        vstd::arithmetic::div_mod::lemma_div_multiples_vanish_fancy(q - p64, rp, d as int);
        assert(s.m1 == q - p64 + 1);
        let mm: int = p64 + s.m1;
        assert(mm == q + 1);
        let c: int = mm * d - pp;
        assert(c == d - rp) by (nonlinear_arith)
            requires
                c == mm * d - pp,
                mm == q + 1,
                pp == d * q + rp,
        ;
        assert(1 <= c <= d);
        // the scaled product sits in [qa * 2^(64+l), (qa+1) * 2^(64+l))
        let qa: int = a as int / d as int;
        let ra: int = a as int % d as int;
        lemma_fundamental_div_mod(a as int, d as int);
        lemma_mod_division_less_than_divisor(a as int, d as int);
        let am: int = a * mm;
        assert(am * d == a * pp + a * c) by (nonlinear_arith)
            requires
                am == a * mm,
                mm * d == pp + c,
        ;
        assert(a * c >= 0) by (nonlinear_arith)
            requires
                a >= 0,
                c >= 1,
        ;
        assert(a * pp >= (qa * pp) * d) by (nonlinear_arith)
            requires
                a as int >= d * qa,
                pp > 0,
                d > 0,
                qa >= 0,
        ;
        assert(am >= qa * pp) by (nonlinear_arith)
            requires
                am * d >= (qa * pp) * d,
                d > 0,
        ;
        assert(a * c <= a * d) by (nonlinear_arith)
            requires
                c <= d,
                a >= 0,
        ;
        assert(a * d < pp) by (nonlinear_arith)
            requires
                a < p64,
                d <= pl,
                pp == p64 * pl,
                d > 0,
                a >= 0,
                pl > 0,
        ;
        assert(a as int + 1 <= d * (qa + 1)) by (nonlinear_arith)
            requires
                a as int == d * qa + ra,
                ra < d,
        ;
        assert(am * d < ((qa + 1) * pp) * d) by (nonlinear_arith)
            requires
                am * d == a * pp + a * c,
                a * c <= a * d,
                a * d < pp,
                a as int + 1 <= d * (qa + 1),
                pp > 0,
                d > 0,
        ;
        assert(am < (qa + 1) * pp) by (nonlinear_arith)
            requires
                am * d < ((qa + 1) * pp) * d,
                d > 0,
        ;
        assert((qa + 1) * pp == qa * pp + pp) by (nonlinear_arith);
        lemma_fundamental_div_mod_converse(am, pp, qa, am - qa * pp);
        assert(am / pp == qa);
        // the formula computes am / 2^(64+l) in three exact steps
        let rem: int = (s.m1 * a) % p64;
        lemma_fundamental_div_mod(s.m1 * a, p64);
        lemma_mod_division_less_than_divisor(s.m1 * a, p64);
        assert(am == p64 * (a + t1v) + rem) by (nonlinear_arith)
            requires
                am == a * mm,
                mm == p64 + s.m1,
                s.m1 * a == p64 * t1v + rem,
        ;
        lemma_fundamental_div_mod_converse(am, p64, a + t1v, rem);
        assert(am / p64 == a + t1v);
        // first shift: average of a and t1v
        let x: int = a - t1v;
        assert(x >= 0);
        assert(((a - t1v) as u64) == x);
        vstd::bits::lemma_u64_shr_is_div((a - t1v) as u64, 1);
        assert(pow2(1) == 2);
        let t0v: int = x / 2;
        lemma_fundamental_div_mod(x, 2);
        lemma_mod_division_less_than_divisor(x, 2);
        assert(a + t1v == 2 * (t0v + t1v) + x % 2) by (nonlinear_arith)
            requires
                x == 2 * t0v + x % 2,
                a + t1v == x + 2 * t1v,
        ;
        lemma_fundamental_div_mod_converse(a + t1v, 2, t0v + t1v, x % 2);
        let sumv: int = t1v + t0v;
        assert(sumv == (a + t1v) / 2);
        assert(sumv <= a) by {
            lemma_div_is_ordered(a + t1v, a + a, 2);
            vstd::arithmetic::div_mod::lemma_div_multiples_vanish_fancy(a as int, 0, 2);
            assert(2 * a + 0 == a + a);
        }
        assert(sumv >= 0) by {
            vstd::arithmetic::div_mod::lemma_div_pos_is_pos(a + t1v, 2);
        }
        lemma_small_mod(sumv as nat, p64 as nat);
        assert(((t1v + t0v) % p64) as u64 == sumv);
        // second shift: the remaining l - 1 bits
        vstd::bits::lemma_u64_shr_is_div(sumv as u64, s.shift2 as u64);
        lemma_div_denominator(a + t1v, 2, plm1);
        assert(sumv / plm1 == (a + t1v) / pl);
        lemma_div_denominator(am, p64, pl);
        assert((a + t1v) / pl == am / pp);
    }
}

/// Divide `a` by the constant the triple was prepared for; the result is
/// the multiply-shift formula of the stored triple, and the exact
/// quotient `a / d` for every divisor `d` the triple is valid for.
pub fn fast_udiv(a: u64, s: &FastDivData) -> (r: u64)
    requires
        0 <= s.shift1 < 64,
        0 <= s.shift2 < 64,
    ensures
        r == spec_fast_udiv(a, s.m1, s.shift1 as u64, s.shift2 as u64),
        forall|d: u64| fastdiv_valid(*s, d) ==> r == a / d,
{
    proof {
        assert forall|d: u64| fastdiv_valid(*s, d) implies spec_fast_udiv(
            a,
            s.m1,
            s.shift1 as u64,
            s.shift2 as u64,
        ) == a / d by {
            lemma_fast_udiv_exact(a, *s, d);
        }
    }
    proof {
        assert((s.m1 as u128) * (a as u128) <= 0xffff_ffff_ffff_ffff * 0xffff_ffff_ffff_ffff)
            by (nonlinear_arith)
            requires
                s.m1 <= 0xffff_ffff_ffff_ffff,
                a <= 0xffff_ffff_ffff_ffff,
        ;
    }
    let t: u128 = (s.m1 as u128) * (a as u128);
    proof {
        assert(t >> 64u128 == t / 0x1_0000_0000_0000_0000) by (bit_vector);
        assert(t / 0x1_0000_0000_0000_0000 < 0x1_0000_0000_0000_0000) by (bit_vector);
    }
    let t1: u64 = (t >> 64u128) as u64;
    proof {
        vstd::arithmetic::div_mod::lemma_fundamental_div_mod(
            t as int,
            0x1_0000_0000_0000_0000,
        );
        vstd::arithmetic::div_mod::lemma_mod_division_less_than_divisor(
            t as int,
            0x1_0000_0000_0000_0000,
        );
        assert(t as int <= 0xffff_ffff_ffff_ffff * (a as int)) by {
            vstd::arithmetic::mul::lemma_mul_inequality(
                s.m1 as int,
                0xffff_ffff_ffff_ffff,
                a as int,
            );
        }
        assert(t1 <= a) by (nonlinear_arith)
            requires
                (t1 as int) * 0x1_0000_0000_0000_0000 <= t as int,
                t as int <= 0xffff_ffff_ffff_ffff * (a as int),
        ;
    }
    let t0: u64 = a.wrapping_sub(t1) >> (s.shift1 as u64);
    let sum: u64 = t1.wrapping_add(t0);
    proof {
        if t1 + t0 <= 0xffff_ffff_ffff_ffff {
            vstd::arithmetic::div_mod::lemma_small_mod(
                (t1 + t0) as nat,
                0x1_0000_0000_0000_0000,
            );
        } else {
            vstd::arithmetic::div_mod::lemma_mod_sub_multiples_vanish(
                (t1 + t0) as int,
                0x1_0000_0000_0000_0000,
            );
            vstd::arithmetic::div_mod::lemma_small_mod(
                (t1 + t0 - 0x1_0000_0000_0000_0000) as nat,
                0x1_0000_0000_0000_0000,
            );
        }
        assert(sum == (t1 + t0) % 0x1_0000_0000_0000_0000);
    }
    sum >> (s.shift2 as u64)
}

} // verus!
