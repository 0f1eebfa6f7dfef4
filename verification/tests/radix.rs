//! Scaling by powers of the radix: the engine behind decimal input and
//! output.

use libbf::conv::{bf_mul_pow_radix, mp_pow_radix};
use libbf::cmp::bf_cmp_eq;
use libbf::num::{bf_set_exp_bits, bf_set_ui, bf_t, BF_EXP_INF, BF_RNDN, BF_ST_INEXACT, BF_ST_OVERFLOW};
use libbf::ops::bf_mul;

fn dbl_flags(rnd: u32) -> u32 {
    rnd | bf_set_exp_bits(11) as u32
}

fn from_ui(v: u64) -> bf_t {
    let mut x = bf_t::new();
    bf_set_ui(&mut x, v);
    x
}

#[test]
fn pow_radix_small_values() {
    assert_eq!(mp_pow_radix(10, 0), vec![1u64]);
    assert_eq!(mp_pow_radix(10, 3), vec![1000u64]);
    assert_eq!(mp_pow_radix(2, 64), vec![0u64, 1u64]);
    // 10^19 still fits one limb; 10^20 needs two
    assert_eq!(mp_pow_radix(10, 19), vec![10_000_000_000_000_000_000u64]);
    let p20 = mp_pow_radix(10, 20);
    assert_eq!(p20.len(), 2);
    assert_eq!(p20[0], 7766279631452241920u64);
    assert_eq!(p20[1], 5u64);
}

#[test]
fn mul_pow_radix_exact_scale_up() {
    let three = from_ui(3);
    let mut r = bf_t::new();
    let st = bf_mul_pow_radix(&mut r, &three, 10, 2, 53, dbl_flags(BF_RNDN));
    assert_eq!(st, 0);
    assert!(bf_cmp_eq(&r, &from_ui(300)));
}

#[test]
fn mul_pow_radix_rounds_tenth() {
    // 3 / 10 at double precision is the usual 0.3 mantissa
    let three = from_ui(3);
    let mut r = bf_t::new();
    let st = bf_mul_pow_radix(&mut r, &three, 10, -1, 53, dbl_flags(BF_RNDN));
    assert_eq!(st, BF_ST_INEXACT);
    assert_eq!(r.sign, 0);
    assert_eq!(r.expn, -1);
    assert_eq!(r.tab, vec![0x9999999999999800u64]);
}

#[test]
fn ten_to_308_times_ten_overflows() {
    // the double nearest 1e308, then * 10: overflow to +infinity
    let one = from_ui(1);
    let mut x = bf_t::new();
    let st = bf_mul_pow_radix(&mut x, &one, 10, 308, 53, dbl_flags(BF_RNDN));
    assert_eq!(st, BF_ST_INEXACT);
    assert_eq!(x.expn, 1024);
    assert_eq!(x.tab, vec![0x8e679c2f5e450000u64]);
    let ten = from_ui(10);
    let mut r = bf_t::new();
    let st2 = bf_mul(&mut r, &x, &ten, 53, dbl_flags(BF_RNDN));
    assert_eq!(st2, BF_ST_OVERFLOW | BF_ST_INEXACT);
    assert_eq!(r.expn, BF_EXP_INF);
    assert_eq!(r.sign, 0);
}

#[test]
fn scale_up_then_down_roundtrips_small_integers() {
    // v * 10^6 * 10^-6 returns v exactly for small integers
    for v in [1u64, 7, 123456789] {
        let x = from_ui(v);
        let mut up = bf_t::new();
        let st = bf_mul_pow_radix(&mut up, &x, 10, 6, 53, dbl_flags(BF_RNDN));
        assert_eq!(st, 0);
        let mut back = bf_t::new();
        let st2 = bf_mul_pow_radix(&mut back, &up, 10, -6, 53, dbl_flags(BF_RNDN));
        assert_eq!(st2, 0);
        assert!(bf_cmp_eq(&back, &x));
    }
}
