//! Checks of the limb kernels and the faithful-rounding test through
//! their public entry points.

use libbf::dbuf::{dbuf_init, dbuf_len, dbuf_put, dbuf_putc, dbuf_set_error};
use libbf::div::{mp_divrem_bits, mp_get_bit};
use libbf::fastdiv::{fast_udiv, FastDivData};
use libbf::limb_ops::{mp_add, mp_cmp, mp_mul_basecase, mp_shl, mp_shr, mp_sub};
use libbf::num::{bf_set_exp_bits, bf_set_ui, bf_t, BF_RNDF, BF_RNDN, BF_RNDZ};
use libbf::round::bf_can_round;
use libbf::sqrt::{bf_isqrt, mp_isqrt};

#[test]
fn limb_add_carries_across_limbs() {
    let a = vec![u64::MAX, u64::MAX];
    let b = vec![1u64, 0u64];
    let (r, c) = mp_add(&a, &b, 0);
    assert_eq!(r, vec![0u64, 0u64]);
    assert_eq!(c, 1);
    let (d, brw) = mp_sub(&r, &b, 0);
    assert_eq!(d, vec![u64::MAX, u64::MAX]);
    assert_eq!(brw, 1);
}

#[test]
fn limb_mul_known_product() {
    let a = vec![0xFFFF_FFFF_FFFF_FFFFu64];
    let b = vec![0xFFFF_FFFF_FFFF_FFFFu64];
    let r = mp_mul_basecase(&a, &b);
    // (2^64-1)^2 = 2^128 - 2^65 + 1
    assert_eq!(r, vec![1u64, 0xFFFF_FFFF_FFFF_FFFEu64]);
}

#[test]
fn limb_shifts_roundtrip() {
    let a = vec![0x0123_4567_89AB_CDEFu64, 0x0000_0000_0000_0001u64];
    let (l, hi) = mp_shl(&a, 5);
    assert_eq!(hi, 0);
    let (r, rem) = mp_shr(&l, 5);
    assert_eq!(rem, 0);
    assert_eq!(r, a);
    assert_eq!(mp_cmp(&r, &a), 0);
}

#[test]
fn divrem_bits_matches_schoolbook() {
    // (7 * 2^10) / 3 = 2389 remainder 1
    let a = vec![7u64];
    let b = vec![3u64];
    let (q, sticky) = mp_divrem_bits(&a, &b, 10);
    assert!(sticky);
    assert_eq!(q[0], 2389);
    for limb in q.iter().skip(1) {
        assert_eq!(*limb, 0);
    }
    // exact case: (6 * 2^4) / 3 = 32
    let a2 = vec![6u64];
    let (q2, sticky2) = mp_divrem_bits(&a2, &b, 4);
    assert!(!sticky2);
    assert_eq!(q2[0], 32);
}

#[test]
fn isqrt_small_values() {
    for (n, s) in [(0u64, 0u64), (1, 1), (2, 1), (3, 1), (4, 2), (99, 9), (100, 10), (101, 10)] {
        let v = vec![n];
        let r = mp_isqrt(&v, 32);
        assert_eq!(r[0], s);
        for limb in r.iter().skip(1) {
            assert_eq!(*limb, 0);
        }
    }
}

#[test]
fn get_bit_reads_limbs() {
    let v = vec![0b1010u64, 1u64];
    assert!(!mp_get_bit(&v, 0));
    assert!(mp_get_bit(&v, 1));
    assert!(!mp_get_bit(&v, 2));
    assert!(mp_get_bit(&v, 3));
    assert!(mp_get_bit(&v, 64));
    assert!(!mp_get_bit(&v, 65));
}

#[test]
fn isqrt_of_limb_values() {
    assert_eq!(bf_isqrt(0), 0);
    assert_eq!(bf_isqrt(1), 1);
    assert_eq!(bf_isqrt(3), 1);
    assert_eq!(bf_isqrt(4), 2);
    assert_eq!(bf_isqrt(99), 9);
    assert_eq!(bf_isqrt(100), 10);
    assert_eq!(bf_isqrt(u64::MAX), 0xffff_ffff);
}

#[test]
fn fast_udiv_by_ten() {
    let ten = FastDivData { m1: 0x999999999999999a, shift1: 1, shift2: 3 };
    for a in [0u64, 1, 9, 10, 99, 100, 1_000_000_007, u64::MAX] {
        assert_eq!(fast_udiv(a, &ten), a / 10);
    }
}

#[test]
fn fast_udiv_other_divisors() {
    // triples prepared for 1 and for 7: m1 = floor(2^64*(2^l - d)/d) + 1
    let one = FastDivData { m1: 1, shift1: 0, shift2: 0 };
    let seven = FastDivData { m1: 0x2492492492492493, shift1: 1, shift2: 2 };
    for a in [0u64, 1, 6, 7, 8, 48, 49, 1_000_000_007, u64::MAX - 1, u64::MAX] {
        assert_eq!(fast_udiv(a, &one), a);
        assert_eq!(fast_udiv(a, &seven), a / 7);
    }
}

#[test]
fn can_round_detects_fences() {
    // mantissa 1.0000...: all bits after the round position are zero, so
    // a directed rounding cannot be decided from a faithful result
    let mut one = bf_t::new();
    bf_set_ui(&mut one, 1);
    assert!(!bf_can_round(&one, 10, BF_RNDZ, 30));
    // for nearest the pattern after the round position is 000... which is
    // not the 0111/1000 fence, so rounding is decided
    assert!(bf_can_round(&one, 10, BF_RNDN, 30));
    // a window too narrow never decides
    assert!(!bf_can_round(&one, 10, BF_RNDN, 11));
    // faithful needs only one extra bit
    assert!(bf_can_round(&one, 10, BF_RNDF, 11));
    // a sticky bit far below the round position decides directed modes
    // once the window reaches it
    let mut x = bf_t::new();
    bf_set_ui(&mut x, (1u64 << 63) + 1);
    assert!(!bf_can_round(&x, 10, BF_RNDZ, 30));
    assert!(bf_can_round(&x, 10, BF_RNDZ, 70));
    let _ = bf_set_exp_bits(11);
}

#[test]
fn dynamic_buffer_accumulates_until_error() {
    let mut d = dbuf_init();
    dbuf_putc(&mut d, b'4');
    dbuf_put(&mut d, &vec![b'2', b'!']);
    assert_eq!(dbuf_len(&d), 3);
    assert_eq!(d.buf, vec![b'4', b'2', b'!']);
    dbuf_set_error(&mut d);
    dbuf_putc(&mut d, b'x');
    dbuf_put(&mut d, &vec![b'y']);
    assert_eq!(d.buf, vec![b'4', b'2', b'!']);
}
