//! End-to-end checks of construction, comparison and the rounding engine
//! at IEEE-754 double parameters (precision 53, 11 exponent bits).

use libbf::add::{bf_add, bf_sub};
use libbf::cmp::{bf_cmp, bf_cmp_eq, bf_cmp_full, bf_cmp_lt, bf_cmp_le, bf_cmpu};
use libbf::div::bf_div;
use libbf::num::{
    bf_get_int32, bf_get_int64, bf_get_uint64, bf_init, bf_neg, bf_set, bf_set_exp_bits, bf_set_inf, bf_set_nan, bf_set_si, bf_set_ui,
    bf_set_zero, bf_t, BF_EXP_INF, BF_EXP_NAN, BF_EXP_ZERO, BF_RNDA, BF_RNDD, BF_RNDN, BF_RNDNA, BF_RNDU, BF_RNDZ,
    BF_ST_DIVIDE_ZERO, BF_ST_INEXACT, BF_ST_INVALID_OP, BF_ST_OVERFLOW,
};
use libbf::ops::{bf_mul, bf_round};
use libbf::sqrt::bf_sqrt;

fn dbl_flags(rnd: u32) -> u32 {
    rnd | bf_set_exp_bits(11) as u32
}

fn from_ui(v: u64) -> bf_t {
    let mut x = bf_t::new();
    bf_set_ui(&mut x, v);
    x
}

#[test]
fn set_ui_normalises() {
    let x = from_ui(5);
    assert_eq!(x.sign, 0);
    assert_eq!(x.expn, 3);
    assert_eq!(x.tab, vec![5u64 << 61]);
    let z = from_ui(0);
    assert_eq!(z.expn, BF_EXP_ZERO);
    assert_eq!(z.tab.len(), 0);
}

#[test]
fn set_si_negative() {
    let mut x = bf_t::new();
    bf_set_si(&mut x, -3);
    assert_eq!(x.sign, 1);
    assert_eq!(x.expn, 2);
    assert_eq!(x.tab, vec![3u64 << 62]);
    bf_set_si(&mut x, i64::MIN);
    assert_eq!(x.sign, 1);
    assert_eq!(x.expn, 64);
    assert_eq!(x.tab, vec![1u64 << 63]);
}

#[test]
fn compare_orders_values() {
    let two = from_ui(2);
    let three = from_ui(3);
    let mut mthree = bf_t::new();
    bf_set_si(&mut mthree, -3);
    assert_eq!(bf_cmp(&two, &three), -1);
    assert_eq!(bf_cmp(&three, &two), 1);
    assert_eq!(bf_cmp(&two, &two), 0);
    assert_eq!(bf_cmp(&mthree, &two), -1);
    assert!(bf_cmp_lt(&mthree, &two));
    assert!(bf_cmp_le(&two, &two));
    assert!(bf_cmp_eq(&two, &two));
    // zeros of either sign compare equal
    let mut pz = bf_t::new();
    bf_set_zero(&mut pz, 0);
    let mut nz = bf_t::new();
    bf_set_zero(&mut nz, 1);
    assert_eq!(bf_cmp(&pz, &nz), 0);
}

#[test]
fn get_uint64_truncates_and_clamps() {
    assert_eq!(bf_get_uint64(&from_ui(5)), (5, 0));
    assert_eq!(bf_get_uint64(&from_ui(u64::MAX)), (u64::MAX, 0));
    assert_eq!(bf_get_uint64(&from_ui(0)), (0, 0));
    let mut m3 = bf_t::new();
    bf_set_si(&mut m3, -3);
    assert_eq!(bf_get_uint64(&m3), (0, BF_ST_INVALID_OP));
    // 0.75 and -0.75 truncate to zero with a clean status
    let h = bf_t { sign: 0, expn: 0, tab: vec![3u64 << 62] };
    assert_eq!(bf_get_uint64(&h), (0, 0));
    let nh = bf_t { sign: 1, expn: 0, tab: vec![3u64 << 62] };
    assert_eq!(bf_get_uint64(&nh), (0, 0));
    // 2^64 clamps
    let big = bf_t { sign: 0, expn: 65, tab: vec![1u64 << 63] };
    assert_eq!(bf_get_uint64(&big), (u64::MAX, BF_ST_INVALID_OP));
    let mut inf = bf_t::new();
    bf_set_inf(&mut inf, 0);
    assert_eq!(bf_get_uint64(&inf), (u64::MAX, BF_ST_INVALID_OP));
    bf_set_inf(&mut inf, 1);
    assert_eq!(bf_get_uint64(&inf), (0, BF_ST_INVALID_OP));
    let mut nan = bf_t::new();
    bf_set_nan(&mut nan);
    assert_eq!(bf_get_uint64(&nan), (u64::MAX, BF_ST_INVALID_OP));
}

#[test]
fn get_int32_truncates_and_clamps() {
    assert_eq!(bf_get_int32(&from_ui(5)), (5, 0));
    let mut m5 = bf_t::new();
    bf_set_si(&mut m5, -5);
    assert_eq!(bf_get_int32(&m5), (-5, 0));
    assert_eq!(bf_get_int32(&from_ui(0x7fff_ffff)), (i32::MAX, 0));
    assert_eq!(bf_get_int32(&from_ui(0x8000_0000)), (i32::MAX, BF_ST_INVALID_OP));
    let mut min = bf_t::new();
    bf_set_si(&mut min, -0x8000_0000);
    assert_eq!(bf_get_int32(&min), (i32::MIN, 0));
    let mut under = bf_t::new();
    bf_set_si(&mut under, -0x8000_0001);
    assert_eq!(bf_get_int32(&under), (i32::MIN, BF_ST_INVALID_OP));
    // -(2^31 + 1/2) still truncates to -2^31, which fits
    let frac = bf_t { sign: 1, expn: 32, tab: vec![(0x8000_0000u64 << 32) | (1u64 << 31)] };
    assert_eq!(bf_get_int32(&frac), (i32::MIN, 0));
    let mut nan = bf_t::new();
    bf_set_nan(&mut nan);
    assert_eq!(bf_get_int32(&nan), (i32::MAX, BF_ST_INVALID_OP));
}

#[test]
fn compare_nan_is_unordered() {
    let mut nan = bf_t::new();
    bf_set_nan(&mut nan);
    let two = from_ui(2);
    assert_eq!(bf_cmp(&nan, &two), 2);
    assert_eq!(bf_cmp(&two, &nan), 2);
    assert_eq!(bf_cmp(&nan, &nan), 2);
    assert!(!bf_cmp_eq(&nan, &nan));
    assert!(!bf_cmp_lt(&nan, &two));
    assert!(!bf_cmp_le(&two, &nan));
}

#[test]
fn compare_full_is_a_total_order() {
    let mut nan = bf_t::new();
    bf_set_nan(&mut nan);
    let mut pz = bf_t::new();
    bf_set_zero(&mut pz, 0);
    let mut nz = bf_t::new();
    bf_set_zero(&mut nz, 1);
    let mut ninf = bf_t::new();
    bf_set_inf(&mut ninf, 1);
    let mut pinf = bf_t::new();
    bf_set_inf(&mut pinf, 0);
    let two = from_ui(2);
    let mut mtwo = bf_t::new();
    bf_set_si(&mut mtwo, -2);
    // -0 sorts strictly below +0
    assert_eq!(bf_cmp_full(&nz, &pz), -1);
    assert_eq!(bf_cmp_full(&pz, &nz), 1);
    // NaN equals NaN and sits above everything, infinity included
    assert_eq!(bf_cmp_full(&nan, &nan), 0);
    assert_eq!(bf_cmp_full(&pinf, &nan), -1);
    assert_eq!(bf_cmp_full(&nan, &two), 1);
    // ordinary signed ordering elsewhere
    assert_eq!(bf_cmp_full(&mtwo, &two), -1);
    assert_eq!(bf_cmp_full(&ninf, &mtwo), -1);
    assert_eq!(bf_cmp_full(&two, &pinf), -1);
    assert_eq!(bf_cmp_full(&two, &two), 0);
}

#[test]
fn compare_magnitudes_orders_sentinels() {
    let mut nan = bf_t::new();
    bf_set_nan(&mut nan);
    let mut nz = bf_t::new();
    bf_set_zero(&mut nz, 1);
    let mut ninf = bf_t::new();
    bf_set_inf(&mut ninf, 1);
    let two = from_ui(2);
    // magnitude classes: zero < finite < infinity < NaN, signs ignored
    assert_eq!(bf_cmpu(&nz, &two), -1);
    assert_eq!(bf_cmpu(&two, &ninf), -1);
    assert_eq!(bf_cmpu(&ninf, &nan), -1);
    assert_eq!(bf_cmpu(&nan, &nz), 1);
    assert_eq!(bf_cmpu(&ninf, &ninf), 0);
    let three = from_ui(3);
    let mut mthree = bf_t::new();
    bf_set_si(&mut mthree, -3);
    assert_eq!(bf_cmpu(&mthree, &three), 0);
    assert_eq!(bf_cmpu(&two, &mthree), -1);
}

#[test]
fn add_one_one_is_two_exact() {
    let one = from_ui(1);
    let mut r = bf_t::new();
    let st = bf_add(&mut r, &one, &one, 53, dbl_flags(BF_RNDN));
    assert_eq!(st, 0);
    let two = from_ui(2);
    assert!(bf_cmp_eq(&r, &two));
}

#[test]
fn add_one_ulp_below_is_inexact() {
    // 1 + 2^-53 rounds back to 1 (ties to even), inexact
    let one = from_ui(1);
    let tiny = bf_t { sign: 0, expn: -52, tab: vec![1u64 << 63] };
    let mut r = bf_t::new();
    let st = bf_add(&mut r, &one, &tiny, 53, dbl_flags(BF_RNDN));
    assert_eq!(st, BF_ST_INEXACT);
    assert!(bf_cmp_eq(&r, &one));
}

#[test]
fn add_one_ulp_is_next_double() {
    // 1 + 2^-52 is the next double above 1, exactly
    let one = from_ui(1);
    let ulp = bf_t { sign: 0, expn: -51, tab: vec![1u64 << 63] };
    let mut r = bf_t::new();
    let st = bf_add(&mut r, &one, &ulp, 53, dbl_flags(BF_RNDN));
    assert_eq!(st, 0);
    assert_eq!(r.expn, 1);
    assert_eq!(r.tab, vec![0x8000000000000800u64]);
}

#[test]
fn mul_overflow_to_infinity() {
    // 2^1023 * 10 overflows the 11-bit exponent range
    let big = bf_t { sign: 0, expn: 1024, tab: vec![1u64 << 63] };
    let ten = from_ui(10);
    let mut r = bf_t::new();
    let st = bf_mul(&mut r, &big, &ten, 53, dbl_flags(BF_RNDN));
    assert_eq!(st, BF_ST_OVERFLOW | BF_ST_INEXACT);
    assert_eq!(r.expn, BF_EXP_INF);
    assert_eq!(r.sign, 0);
}

#[test]
fn mul_small_exact() {
    let six = from_ui(6);
    let seven = from_ui(7);
    let mut r = bf_t::new();
    let st = bf_mul(&mut r, &six, &seven, 53, dbl_flags(BF_RNDN));
    assert_eq!(st, 0);
    assert!(bf_cmp_eq(&r, &from_ui(42)));
}

#[test]
fn signed_zero_cancellation() {
    // x + (-x) is +0, except toward -infinity where it is -0
    let x = from_ui(7);
    let mut mx = bf_t::new();
    bf_set(&mut mx, &x);
    bf_neg(&mut mx);
    let mut r = bf_t::new();
    let st = bf_add(&mut r, &x, &mx, 53, dbl_flags(BF_RNDN));
    assert_eq!(st, 0);
    assert_eq!(r.expn, BF_EXP_ZERO);
    assert_eq!(r.sign, 0);
    let st2 = bf_add(&mut r, &x, &mx, 53, dbl_flags(BF_RNDD));
    assert_eq!(st2, 0);
    assert_eq!(r.expn, BF_EXP_ZERO);
    assert_eq!(r.sign, 1);
    // the same through subtraction
    let st3 = bf_sub(&mut r, &x, &x, 53, dbl_flags(BF_RNDU));
    assert_eq!(st3, 0);
    assert_eq!(r.expn, BF_EXP_ZERO);
    assert_eq!(r.sign, 0);
}

#[test]
fn div_one_third_is_known_mantissa() {
    let one = from_ui(1);
    let three = from_ui(3);
    let mut r = bf_t::new();
    let st = bf_div(&mut r, &one, &three, 53, dbl_flags(BF_RNDN));
    assert_eq!(st, BF_ST_INEXACT);
    assert_eq!(r.sign, 0);
    assert_eq!(r.expn, -1);
    assert_eq!(r.tab, vec![0xaaaaaaaaaaaaa800u64]);
}

#[test]
fn div_errors() {
    let one = from_ui(1);
    let mut zero = bf_t::new();
    bf_set_zero(&mut zero, 0);
    let mut r = bf_t::new();
    // finite / 0 divides by zero
    let st = bf_div(&mut r, &one, &zero, 53, dbl_flags(BF_RNDN));
    assert_eq!(st, BF_ST_DIVIDE_ZERO);
    assert_eq!(r.expn, BF_EXP_INF);
    // 0 / 0 is invalid
    let st2 = bf_div(&mut r, &zero, &zero, 53, dbl_flags(BF_RNDN));
    assert_eq!(st2, BF_ST_INVALID_OP);
    assert_eq!(r.expn, BF_EXP_NAN);
}

#[test]
fn inf_minus_inf_is_invalid() {
    let mut pinf = bf_t::new();
    bf_set_inf(&mut pinf, 0);
    let mut r = bf_t::new();
    let st = bf_sub(&mut r, &pinf, &pinf, 53, dbl_flags(BF_RNDN));
    assert_eq!(st, BF_ST_INVALID_OP);
    assert_eq!(r.expn, BF_EXP_NAN);
}

#[test]
fn sqrt_two_at_prec_100() {
    let two = from_ui(2);
    let mut r = bf_t::new();
    let st = bf_sqrt(&mut r, &two, 100, dbl_flags(BF_RNDN));
    assert_eq!(st, BF_ST_INEXACT);
    assert_eq!(r.sign, 0);
    assert_eq!(r.expn, 1);
    assert_eq!(r.tab, vec![0x597d89b370000000u64, 0xb504f333f9de6484u64]);
}

#[test]
fn sqrt_special_cases() {
    let mut r = bf_t::new();
    let mut m1 = bf_t::new();
    bf_set_si(&mut m1, -1);
    let st = bf_sqrt(&mut r, &m1, 53, dbl_flags(BF_RNDN));
    assert_eq!(st, BF_ST_INVALID_OP);
    assert_eq!(r.expn, BF_EXP_NAN);
    let mut nz = bf_t::new();
    bf_set_zero(&mut nz, 1);
    let st2 = bf_sqrt(&mut r, &nz, 53, dbl_flags(BF_RNDN));
    assert_eq!(st2, 0);
    assert_eq!(r.expn, BF_EXP_ZERO);
    assert_eq!(r.sign, 1);
    let four = from_ui(4);
    let st3 = bf_sqrt(&mut r, &four, 53, dbl_flags(BF_RNDN));
    assert_eq!(st3, 0);
    assert!(bf_cmp_eq(&r, &from_ui(2)));
}

#[test]
fn round_is_idempotent_on_values() {
    // round 10^20 (67 bits) to 53 bits, then round again: unchanged
    let mut x = bf_t::new();
    bf_set_ui(&mut x, 0xDE0B6B3A7640000);  // 10^18, 60 bits
    let mut y = bf_t::new();
    bf_set_ui(&mut y, 0xDE0B6B3A7640001);
    let mut r = bf_t::new();
    let st = bf_mul(&mut r, &x, &y, 53, dbl_flags(BF_RNDN));
    assert_eq!(st, BF_ST_INEXACT);
    let mut r2 = bf_t::new();
    bf_set(&mut r2, &r);
    let st2 = bf_round(&mut r2, 53, dbl_flags(BF_RNDN));
    assert_eq!(st2, 0);
    assert!(bf_cmp_eq(&r2, &r));
}

#[test]
fn rounding_is_monotone_on_values() {
    // ascending 61-bit integers round at 8 bits without crossing order,
    // in every mode, including across the binade boundary at 2^60
    let vals: [u64; 6] = [
        (1u64 << 60) - 9,
        (1u64 << 60) - 2,
        (1u64 << 60) - 1,
        1u64 << 60,
        (1u64 << 60) + 1,
        (1u64 << 60) + 17,
    ];
    for rnd in [BF_RNDN, BF_RNDZ, BF_RNDD, BF_RNDU, BF_RNDNA, BF_RNDA] {
        let mut prev: Option<bf_t> = None;
        for v in vals {
            let mut r = from_ui(v);
            bf_round(&mut r, 8, dbl_flags(rnd));
            if let Some(p) = &prev {
                assert!(bf_cmp_le(p, &r));
            }
            prev = Some(r);
        }
    }
}

#[test]
fn directed_rounding_modes_bracket() {
    // 1/3 rounded down and up differ by one ulp and bracket the quotient
    let one = from_ui(1);
    let three = from_ui(3);
    let mut lo = bf_t::new();
    let mut hi = bf_t::new();
    bf_div(&mut lo, &one, &three, 53, dbl_flags(BF_RNDD));
    bf_div(&mut hi, &one, &three, 53, dbl_flags(BF_RNDU));
    assert!(bf_cmp_lt(&lo, &hi));
    // down = truncation here (positive value)
    let mut tz = bf_t::new();
    bf_div(&mut tz, &one, &three, 53, dbl_flags(BF_RNDZ));
    assert!(bf_cmp_eq(&lo, &tz));
}

#[test]
fn get_int64_truncates_toward_zero() {
    assert_eq!(bf_get_int64(&from_ui(42)), (42, 0));
    let mut m7 = bf_t::new();
    bf_set_si(&mut m7, -7);
    assert_eq!(bf_get_int64(&m7), (-7, 0));
    // 3/4 truncates to 0
    let frac = bf_t { sign: 0, expn: 0, tab: vec![3u64 << 62] };
    assert_eq!(bf_get_int64(&frac), (0, 0));
    // 2^63 overflows, -2^63 fits exactly
    let big = bf_t { sign: 0, expn: 64, tab: vec![1u64 << 63] };
    assert_eq!(bf_get_int64(&big), (i64::MAX, BF_ST_INVALID_OP));
    let nbig = bf_t { sign: 1, expn: 64, tab: vec![1u64 << 63] };
    assert_eq!(bf_get_int64(&nbig), (i64::MIN, 0));
    // infinities clamp
    let mut ninf = bf_t::new();
    bf_set_inf(&mut ninf, 1);
    assert_eq!(bf_get_int64(&ninf), (i64::MIN, BF_ST_INVALID_OP));
}

#[test]
fn subnormal_boundary_behaviour() {
    let subn = |rnd: u32| rnd | bf_set_exp_bits(11) as u32 | libbf::num::BF_FLAG_SUBNORMAL;
    let under_inexact = libbf::num::BF_ST_UNDERFLOW | BF_ST_INEXACT;
    // the smallest positive double subnormal, 2^-1074, survives rounding
    let min_sub = bf_t { sign: 0, expn: -1073, tab: vec![1u64 << 63] };
    let mut r = bf_t::new();
    bf_set(&mut r, &min_sub);
    let st = bf_round(&mut r, 53, subn(BF_RNDN));
    assert_eq!(st, 0);
    assert!(bf_cmp_eq(&r, &min_sub));
    // half of it rounds to zero under nearest-even, with underflow
    let half = bf_t { sign: 0, expn: -1074, tab: vec![1u64 << 63] };
    bf_set(&mut r, &half);
    let st2 = bf_round(&mut r, 53, subn(BF_RNDN));
    assert_eq!(st2, under_inexact);
    assert_eq!(r.expn, BF_EXP_ZERO);
    // but rounds up to the smallest subnormal toward +infinity
    bf_set(&mut r, &half);
    let st3 = bf_round(&mut r, 53, subn(BF_RNDU));
    assert_eq!(st3, under_inexact);
    assert!(bf_cmp_eq(&r, &min_sub));
    // without the subnormal flag the same value underflows to zero
    bf_set(&mut r, &min_sub);
    let st4 = bf_round(&mut r, 53, dbl_flags(BF_RNDN));
    assert_eq!(st4, under_inexact);
    assert_eq!(r.expn, BF_EXP_ZERO);
}
