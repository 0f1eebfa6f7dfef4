//! The arbitrary-precision binary floating-point number: sign-magnitude
//! mantissa in 64-bit limbs, signed exponent with reserved values for
//! zero, infinity and NaN, and the constants of the flag and status
//! words.

use vstd::prelude::*;
use vstd::arithmetic::power2::{pow2, lemma_pow2_adds, lemma_pow2_pos, lemma_pow2_strictly_increases, lemma2_to64, lemma2_to64_rest};
use vstd::arithmetic::mul::{lemma_mul_inequality, lemma_mul_basics};
use crate::bits::{limbs_val, lemma_limbs_val_singleton, lemma_limbs_val_bound, lemma_limbs_val_split3};
use crate::dyadic::{dyadic_eq, bit_length, lemma_bit_length_unique};
use crate::limb_ops::lemma_clz_range;

verus! {

// Rounding modes (the low three bits of the flag word).
pub const BF_RNDN: u32 = 0;

pub const BF_RNDZ: u32 = 1;

pub const BF_RNDD: u32 = 2;

pub const BF_RNDU: u32 = 3;

pub const BF_RNDNA: u32 = 4;

pub const BF_RNDA: u32 = 5;

pub const BF_RNDF: u32 = 6;

// Flag bits beyond the rounding mode.
pub const BF_FLAG_SUBNORMAL: u32 = 8;

pub const BF_FLAG_RADPNT_PREC: u32 = 16;

// Status bits returned by operations.
pub const BF_ST_INVALID_OP: i32 = 1;

pub const BF_ST_DIVIDE_ZERO: i32 = 2;

pub const BF_ST_OVERFLOW: i32 = 4;

pub const BF_ST_UNDERFLOW: i32 = 8;

pub const BF_ST_INEXACT: i32 = 16;

pub const BF_ST_MEM_ERROR: i32 = 32;

// Reserved exponents.
pub const BF_EXP_ZERO: i64 = i64::MIN;

pub const BF_EXP_INF: i64 = i64::MAX - 1;

pub const BF_EXP_NAN: i64 = i64::MAX;

// Precision limits; BF_PREC_INF asks for no rounding at all.
pub const BF_PREC_MIN: u64 = 2;

pub const BF_PREC_MAX: u64 = 0x3fff_ffff_ffff_fffe;

pub const BF_PREC_INF: u64 = 0x3fff_ffff_ffff_ffff;

// Exponent-range sanity window for finite numbers: wide enough for every
// representable exponent (down to e_min - prec for subnormals), narrow
// enough that exponent arithmetic never overflows an i64.
pub const BF_EXP_SANE: i64 = 0x3000_0000_0000_0000;

// Cap on mantissa length in limbs, far beyond anything allocatable.
pub const BF_LIMBS_MAX: u64 = 0x4000_0000;

// Largest working precision, in bits, that rounding will materialise
// (the overflow path builds a mantissa of this many bits).
pub const BF_PREC_WORK_MAX: u64 = 0x8000_0000;

/// A binary floating-point number.  When finite and nonzero the value is
/// `(-1)^sign * limbs_val(tab) * 2^(expn - 64*len)`, the top limb has its
/// most significant bit set and the bottom limb is nonzero.
#[allow(non_camel_case_types)]
pub struct bf_t {
    pub sign: i32,
    pub expn: i64,
    pub tab: Vec<u64>,
}

pub open spec fn bf_is_nan(a: bf_t) -> bool {
    a.expn == BF_EXP_NAN
}

pub open spec fn bf_is_inf(a: bf_t) -> bool {
    a.expn == BF_EXP_INF
}

pub open spec fn bf_is_zero(a: bf_t) -> bool {
    a.expn == BF_EXP_ZERO
}

/// Finite includes zero.
pub open spec fn bf_is_finite(a: bf_t) -> bool {
    a.expn < BF_EXP_INF
}

pub open spec fn bf_is_fin_nonzero(a: bf_t) -> bool {
    BF_EXP_ZERO < a.expn < BF_EXP_INF
}

/// The mantissa as a natural number.
pub open spec fn bf_mant(a: bf_t) -> nat {
    limbs_val(a.tab@)
}

/// The exponent of the least significant mantissa bit: the magnitude is
/// `bf_mant(a) * 2^(bf_e2(a))`.
pub open spec fn bf_e2(a: bf_t) -> int {
    a.expn - 64 * a.tab.len()
}

pub open spec fn bf_neg_spec(a: bf_t) -> bool {
    a.sign == 1
}

/// Well-formedness: canonical NaN, empty mantissa for the reserved
/// exponents, and a normalised mantissa with nonzero bottom limb
/// otherwise.
pub open spec fn bf_wf(a: bf_t) -> bool {
    &&& (a.sign == 0 || a.sign == 1)
    &&& a.tab.len() <= BF_LIMBS_MAX
    &&& if a.expn == BF_EXP_NAN {
        a.tab.len() == 0 && a.sign == 0
    } else if a.expn == BF_EXP_INF || a.expn == BF_EXP_ZERO {
        a.tab.len() == 0
    } else {
        &&& a.tab.len() >= 1
        &&& a.tab[a.tab.len() - 1] >= 0x8000_0000_0000_0000
        &&& a.tab[0] != 0
        &&& -BF_EXP_SANE <= a.expn <= BF_EXP_SANE
    }
}

/// The magnitude of a well-formed finite nonzero number equals the
/// integer `v` (at the given binary scale `e`).
pub open spec fn bf_mag_eq(a: bf_t, m: nat, e: int) -> bool {
    dyadic_eq(bf_mant(a), bf_e2(a), m, e)
}

/// The number equals the (signed) integer `v`.
pub open spec fn bf_is_int(a: bf_t, v: int) -> bool {
    if v == 0 {
        bf_is_zero(a)
    } else if v > 0 {
        bf_is_fin_nonzero(a) && a.sign == 0 && bf_mag_eq(a, v as nat, 0)
    } else {
        bf_is_fin_nonzero(a) && a.sign == 1 && bf_mag_eq(a, (-v) as nat, 0)
    }
}

/// A normalised mantissa of `l` limbs has bit length `64*l`.
pub proof fn lemma_wf_bit_length(a: bf_t)
    requires
        bf_wf(a),
        bf_is_fin_nonzero(a),
    ensures
        bf_mant(a) >= pow2((64 * a.tab.len() - 1) as nat),
        bf_mant(a) < pow2(64 * a.tab.len() as nat),
        bit_length(bf_mant(a)) == 64 * a.tab.len(),
{
    let l = a.tab.len() as int;
    lemma_limbs_val_bound(a.tab@);
    lemma_limbs_val_split3(a.tab@, l - 1);
    assert(a.tab@.subrange(l, l) =~= Seq::<u64>::empty());
    lemma_pow2_pos((64 * (l - 1)) as nat);
    lemma_mul_basics(pow2((64 * (l - 1)) as nat) as int);
    assert(a.tab@[l - 1] * pow2((64 * (l - 1)) as nat) >= 0x8000_0000_0000_0000 * pow2(
        (64 * (l - 1)) as nat,
    )) by {
        lemma_mul_inequality(
            0x8000_0000_0000_0000,
            a.tab@[l - 1] as int,
            pow2((64 * (l - 1)) as nat) as int,
        );
    }
    assert(0x8000_0000_0000_0000 == pow2(63)) by {
        lemma2_to64_rest();
    }
    lemma_pow2_adds(63, (64 * (l - 1)) as nat);
    assert(63 + 64 * (l - 1) == 64 * l - 1);
    lemma_mul_basics(limbs_val(a.tab@.subrange(0, l - 1)) as int);
    lemma_limbs_val_bound(a.tab@.subrange(0, l - 1));
    lemma_bit_length_unique(bf_mant(a), (64 * l) as nat);
}

impl bf_t {
    /// A fresh number, initialised to +0.
    pub fn new() -> (r: bf_t)
        ensures
            bf_wf(r),
            bf_is_zero(r),
            r.sign == 0,
    {
        bf_t { sign: 0, expn: BF_EXP_ZERO, tab: Vec::new() }
    }
}

/// Reset to +0.
pub fn bf_init(r: &mut bf_t)
    ensures
        bf_wf(*final(r)),
        bf_is_zero(*final(r)),
        final(r).sign == 0,
{
    r.sign = 0;
    r.expn = BF_EXP_ZERO;
    r.tab = Vec::new();
}

pub fn bf_set_nan(r: &mut bf_t)
    ensures
        bf_wf(*final(r)),
        bf_is_nan(*final(r)),
{
    r.sign = 0;
    r.expn = BF_EXP_NAN;
    r.tab = Vec::new();
}

pub fn bf_set_zero(r: &mut bf_t, is_neg: i32)
    requires
        is_neg == 0 || is_neg == 1,
    ensures
        bf_wf(*final(r)),
        bf_is_zero(*final(r)),
        final(r).sign == is_neg,
{
    r.sign = is_neg;
    r.expn = BF_EXP_ZERO;
    r.tab = Vec::new();
}

pub fn bf_set_inf(r: &mut bf_t, is_neg: i32)
    requires
        is_neg == 0 || is_neg == 1,
    ensures
        bf_wf(*final(r)),
        bf_is_inf(*final(r)),
        final(r).sign == is_neg,
{
    r.sign = is_neg;
    r.expn = BF_EXP_INF;
    r.tab = Vec::new();
}

/// Negate in place; NaN stays canonical.
pub fn bf_neg(r: &mut bf_t)
    requires
        bf_wf(*old(r)),
    ensures
        bf_wf(*final(r)),
        final(r).expn == old(r).expn,
        final(r).tab@ == old(r).tab@,
        !bf_is_nan(*old(r)) ==> final(r).sign == 1 - old(r).sign,
        bf_is_nan(*old(r)) ==> final(r).sign == 0,
{
    if r.expn != BF_EXP_NAN {
        r.sign = 1 - r.sign;
    }
}

pub fn bf_is_finite_exec(a: &bf_t) -> (r: bool)
    ensures
        r == bf_is_finite(*a),
{
    a.expn < BF_EXP_INF
}

pub fn bf_is_nan_exec(a: &bf_t) -> (r: bool)
    ensures
        r == bf_is_nan(*a),
{
    a.expn == BF_EXP_NAN
}

pub fn bf_is_zero_exec(a: &bf_t) -> (r: bool)
    ensures
        r == bf_is_zero(*a),
{
    a.expn == BF_EXP_ZERO
}

/// Set to the unsigned integer `a`, exactly; zero comes out as +0.
pub fn bf_set_ui(r: &mut bf_t, a: u64) -> (status: i32)
    ensures
        bf_wf(*final(r)),
        bf_is_int(*final(r), a as int),
        final(r).sign == 0,
        status == 0,
{
    if a == 0 {
        bf_set_zero(r, 0);
        return 0;
    }
    let lz: u32 = a.leading_zeros();
    proof {
        lemma_clz_range(a);
    }
    let v: u64 = a << (lz as u64);
    proof {
        lemma_pow2_pos(lz as nat);
        assert(a * pow2(lz as nat) < pow2((64 - lz) as nat) * pow2(lz as nat)) by {
            vstd::arithmetic::mul::lemma_mul_strict_inequality(
                a as int,
                pow2((64 - lz) as nat) as int,
                pow2(lz as nat) as int,
            );
        }
        lemma_pow2_adds((64 - lz) as nat, lz as nat);
        lemma2_to64_rest();
        vstd::bits::lemma_u64_shl_is_mul(a, lz as u64);
        assert(a * pow2(lz as nat) >= pow2((63 - lz) as nat) * pow2(lz as nat)) by {
            lemma_mul_inequality(
                pow2((63 - lz) as nat) as int,
                a as int,
                pow2(lz as nat) as int,
            );
        }
        lemma_pow2_adds((63 - lz) as nat, lz as nat);
    }
    let mut tab: Vec<u64> = Vec::new();
    tab.push(v);
    r.sign = 0;
    r.expn = 64 - (lz as i64);
    r.tab = tab;
    proof {
        lemma_limbs_val_singleton(r.tab@);
        assert(bf_mant(*r) == v);
        assert(bf_e2(*r) == -(lz as int));
        assert(dyadic_eq(v as nat, -(lz as int), a as nat, 0)) by {
            assert(a * pow2(lz as nat) == v);
            if lz == 0 {
                lemma2_to64();
                lemma_mul_basics(v as int);
            }
        }
    }
    0
}

/// Set to the signed integer `a`, exactly; a nonnegative `a` (zero
/// included) comes out with sign 0.
pub fn bf_set_si(r: &mut bf_t, a: i64) -> (status: i32)
    ensures
        bf_wf(*final(r)),
        bf_is_int(*final(r), a as int),
        a >= 0 ==> final(r).sign == 0,
        status == 0,
{
    if a >= 0 {
        bf_set_ui(r, a as u64)
    } else {
        let mag: u64 = ((-(a as i128)) as u64);
        let st = bf_set_ui(r, mag);
        r.sign = 1;
        st
    }
}

/// Copy the value of `a` into `r`.
pub fn bf_set(r: &mut bf_t, a: &bf_t) -> (status: i32)
    requires
        bf_wf(*a),
    ensures
        bf_wf(*final(r)),
        final(r).sign == a.sign,
        final(r).expn == a.expn,
        final(r).tab@ == a.tab@,
        status == 0,
{
    let n = a.tab.len();
    let mut tab: Vec<u64> = Vec::new();
    let mut i: usize = 0;
    while i < n
        invariant
            i <= n,
            n == a.tab.len(),
            tab.len() == i,
            tab@ =~= a.tab@.subrange(0, i as int),
        decreases n - i,
    {
        tab.push(a.tab[i]);
        i = i + 1;
    }
    proof {
        assert(a.tab@.subrange(0, n as int) =~= a.tab@);
    }
    r.sign = a.sign;
    r.expn = a.expn;
    r.tab = tab;
    0
}

/// Number of exponent bits encoded in the flag word.
pub fn bf_get_exp_bits(flags: u32) -> (r: i64)
    ensures
        r == spec_exp_bits(flags),
{
    let e: u32 = (flags >> 5) & 0x3f;
    if e == 0x3f {
        62
    } else {
        61 - (e as i64)
    }
}

pub open spec fn spec_exp_bits(flags: u32) -> int {
    let e = (flags >> 5u32) & 0x3f;
    if e == 0x3f {
        62
    } else {
        61 - e
    }
}

/// Encode an exponent-bit count into the flag word's field.
pub fn bf_set_exp_bits(n: i64) -> (r: u32)
    requires
        3 <= n <= 62,
    ensures
        r == spec_exp_bits_flag(n),
{
    (((61 - n) as u32) & 0x3f) << 5
}

pub open spec fn spec_exp_bits_flag(n: i64) -> u32 {
    (((61 - n) as u32) & 0x3f) << 5u32
}

/// A flag word whose exponent field decodes to a usable width and whose
/// low bits name a rounding mode.
pub open spec fn flags_wf(flags: u32) -> bool {
    3 <= spec_exp_bits(flags) <= 62 && (flags & 7u32) <= 6
}

/// The exponent range that a flag word selects, IEEE-754 style.
pub open spec fn spec_e_range(flags: u32) -> int {
    pow2((spec_exp_bits(flags) - 1) as nat) as int
}

pub open spec fn spec_e_min(flags: u32) -> int {
    -spec_e_range(flags) + 3
}

pub open spec fn spec_e_max(flags: u32) -> int {
    spec_e_range(flags)
}

/// The rounding mode held in the low bits of the flag word.
pub open spec fn spec_rnd_mode(flags: u32) -> u32 {
    flags & 7
}

pub fn bf_get_rnd_mode(flags: u32) -> (r: u32)
    ensures
        r == spec_rnd_mode(flags),
{
    flags & 7
}

/// Exponent bounds as executable values.
pub fn bf_exp_bounds(flags: u32) -> (r: (i64, i64))
    requires
        flags_wf(flags),
    ensures
        r.0 == spec_e_min(flags),
        r.1 == spec_e_max(flags),
        4 <= r.1 <= 0x2000_0000_0000_0000,
        -0x2000_0000_0000_0000 + 3 <= r.0 <= -1,
{
    let eb = bf_get_exp_bits(flags);
    proof {
        vstd::bits::lemma_u64_pow2_no_overflow((eb - 1) as nat);
        lemma_mul_basics(pow2((eb - 1) as nat) as int);
        vstd::bits::lemma_u64_shl_is_mul(1u64, (eb - 1) as u64);
        lemma2_to64();
        assert(pow2(61) == 0x2000_0000_0000_0000) by {
            lemma2_to64_rest();
        }
        if eb < 62 {
            vstd::arithmetic::power2::lemma_pow2_strictly_increases((eb - 1) as nat, 61);
        }
        assert(pow2(2) == 4) by {
            lemma2_to64();
        }
        if eb > 3 {
            vstd::arithmetic::power2::lemma_pow2_strictly_increases(2, (eb - 1) as nat);
        }
    }
    let er_u: u64 = 1u64 << ((eb - 1) as u64);
    let e_range: i64 = er_u as i64;
    (-e_range + 3, e_range)
}


/// The integer part of a finite nonzero magnitude: the mantissa with
/// everything below the radix point cut off.
pub open spec fn spec_trunc_mag(a: bf_t) -> nat {
    bf_mant(a) / pow2((64 * a.tab.len() - a.expn) as nat)
}

/// Truncate toward zero into a 64-bit signed integer.  Out-of-range
/// values clamp and report an invalid operation; `-2^63` itself fits.
pub fn bf_get_int64(a: &bf_t) -> (res: (i64, i32))
    requires
        bf_wf(*a),
    ensures
        bf_is_nan(*a) ==> res == (i64::MAX, BF_ST_INVALID_OP),
        bf_is_inf(*a) ==> res == (if a.sign == 1 {
            (i64::MIN, BF_ST_INVALID_OP)
        } else {
            (i64::MAX, BF_ST_INVALID_OP)
        }),
        bf_is_zero(*a) ==> res == (0i64, 0i32),
        bf_is_fin_nonzero(*a) ==> ({
            let t = spec_trunc_mag(*a);
            if a.expn <= 0 {
                res == (0i64, 0i32)
            } else if a.expn <= 63 {
                res == (if a.sign == 1 {
                    ((-(t as int)) as i64, 0i32)
                } else {
                    (t as i64, 0i32)
                })
            } else if a.sign == 1 && a.expn == 64 && t == pow2(63) {
                res == (i64::MIN, 0i32)
            } else {
                res == (if a.sign == 1 {
                    (i64::MIN, BF_ST_INVALID_OP)
                } else {
                    (i64::MAX, BF_ST_INVALID_OP)
                })
            }
        }),
{
    if a.expn == BF_EXP_NAN {
        return (i64::MAX, BF_ST_INVALID_OP);
    }
    if a.expn == BF_EXP_INF {
        if a.sign == 1 {
            return (i64::MIN, BF_ST_INVALID_OP);
        }
        return (i64::MAX, BF_ST_INVALID_OP);
    }
    if a.expn == BF_EXP_ZERO {
        return (0, 0);
    }
    if a.expn <= 0 {
        return (0, 0);
    }
    let l = a.tab.len();
    let top = a.tab[l - 1];
    if a.expn <= 64 {
        proof {
            lemma_trunc_is_top_shift(*a);
        }
        if a.expn <= 63 {
            let t: u64 = top >> ((64 - a.expn) as u64);
            proof {
                vstd::bits::lemma_u64_shr_is_div(top, (64 - a.expn) as u64);
                lemma_pow2_pos((64 - a.expn) as nat);
                assert(t < pow2(63)) by {
                    lemma_limbs_val_bound(a.tab@);
                    lemma_pow2_adds((64 - a.expn) as nat, a.expn as nat);
                    lemma2_to64_rest();
                    assert(top < pow2((64 - a.expn) as nat) * pow2(a.expn as nat));
                    vstd::arithmetic::div_mod::lemma_multiply_divide_lt(
                        top as int,
                        pow2((64 - a.expn) as nat) as int,
                        pow2(a.expn as nat) as int,
                    );
                    assert(pow2(a.expn as nat) <= pow2(63)) by {
                        if a.expn < 63 {
                            lemma_pow2_strictly_increases(a.expn as nat, 63);
                        }
                    }
                    lemma2_to64_rest();
                }
                lemma2_to64_rest();
            }
            if a.sign == 1 {
                return (-(t as i64), 0);
            }
            return (t as i64, 0);
        }
        // expn == 64: only -2^63 fits
        if a.sign == 1 && top == 0x8000_0000_0000_0000u64 {
            proof {
                lemma2_to64_rest();
                lemma2_to64();
                lemma_mul_basics(top as int);
                vstd::arithmetic::div_mod::lemma_fundamental_div_mod_converse(
                    top as int,
                    1,
                    top as int,
                    0,
                );
                assert(spec_trunc_mag(*a) == pow2(63));
            }
            return (i64::MIN, 0);
        }
        proof {
            lemma2_to64_rest();
            lemma2_to64();
            lemma_mul_basics(top as int);
            vstd::arithmetic::div_mod::lemma_fundamental_div_mod_converse(
                top as int,
                1,
                top as int,
                0,
            );
            assert(spec_trunc_mag(*a) == top);
        }
        if a.sign == 1 {
            return (i64::MIN, BF_ST_INVALID_OP);
        }
        return (i64::MAX, BF_ST_INVALID_OP);
    }
    if a.sign == 1 {
        return (i64::MIN, BF_ST_INVALID_OP);
    }
    (i64::MAX, BF_ST_INVALID_OP)
}

/// Truncate toward zero into a 64-bit unsigned integer.  Anything
/// negative at or beyond one truncates to zero with an invalid-operation
/// status; values above the range clamp to the maximum.
pub fn bf_get_uint64(a: &bf_t) -> (res: (u64, i32))
    requires
        bf_wf(*a),
    ensures
        bf_is_nan(*a) ==> res == (u64::MAX, BF_ST_INVALID_OP),
        bf_is_inf(*a) ==> res == (if a.sign == 1 {
            (0u64, BF_ST_INVALID_OP)
        } else {
            (u64::MAX, BF_ST_INVALID_OP)
        }),
        bf_is_zero(*a) ==> res == (0u64, 0i32),
        bf_is_fin_nonzero(*a) ==> ({
            let t = spec_trunc_mag(*a);
            if a.expn <= 0 {
                res == (0u64, 0i32)
            } else if a.sign == 1 {
                res == (0u64, BF_ST_INVALID_OP)
            } else if a.expn <= 64 {
                res == (t as u64, 0i32)
            } else {
                res == (u64::MAX, BF_ST_INVALID_OP)
            }
        }),
{
    if a.expn == BF_EXP_NAN {
        return (u64::MAX, BF_ST_INVALID_OP);
    }
    if a.expn <= 0 {
        // covers zero; a magnitude below one truncates to zero exactly
        return (0, 0);
    }
    if a.sign == 1 {
        // covers negative infinity too
        return (0, BF_ST_INVALID_OP);
    }
    if a.expn <= 64 {
        let l = a.tab.len();
        let top = a.tab[l - 1];
        let t: u64 = top >> ((64 - a.expn) as u64);
        proof {
            lemma_trunc_is_top_shift(*a);
            vstd::bits::lemma_u64_shr_is_div(top, (64 - a.expn) as u64);
        }
        return (t, 0);
    }
    (u64::MAX, BF_ST_INVALID_OP)
}

/// Truncate toward zero into a 32-bit signed integer.  Out-of-range
/// values clamp and report an invalid operation; `-2^31` itself fits.
pub fn bf_get_int32(a: &bf_t) -> (res: (i32, i32))
    requires
        bf_wf(*a),
    ensures
        bf_is_nan(*a) ==> res == (i32::MAX, BF_ST_INVALID_OP),
        bf_is_inf(*a) ==> res == (if a.sign == 1 {
            (i32::MIN, BF_ST_INVALID_OP)
        } else {
            (i32::MAX, BF_ST_INVALID_OP)
        }),
        bf_is_zero(*a) ==> res == (0i32, 0i32),
        bf_is_fin_nonzero(*a) ==> ({
            let t = spec_trunc_mag(*a);
            if a.expn <= 0 {
                res == (0i32, 0i32)
            } else if a.expn <= 31 {
                res == (if a.sign == 1 {
                    ((-(t as int)) as i32, 0i32)
                } else {
                    (t as i32, 0i32)
                })
            } else if a.sign == 1 && a.expn == 32 && t == pow2(31) {
                res == (i32::MIN, 0i32)
            } else {
                res == (if a.sign == 1 {
                    (i32::MIN, BF_ST_INVALID_OP)
                } else {
                    (i32::MAX, BF_ST_INVALID_OP)
                })
            }
        }),
{
    if a.expn == BF_EXP_NAN {
        return (i32::MAX, BF_ST_INVALID_OP);
    }
    if a.expn == BF_EXP_INF {
        if a.sign == 1 {
            return (i32::MIN, BF_ST_INVALID_OP);
        }
        return (i32::MAX, BF_ST_INVALID_OP);
    }
    if a.expn == BF_EXP_ZERO {
        return (0, 0);
    }
    if a.expn <= 0 {
        return (0, 0);
    }
    let l = a.tab.len();
    let top = a.tab[l - 1];
    if a.expn <= 32 {
        proof {
            lemma_trunc_is_top_shift(*a);
        }
        if a.expn <= 31 {
            let t: u64 = top >> ((64 - a.expn) as u64);
            proof {
                vstd::bits::lemma_u64_shr_is_div(top, (64 - a.expn) as u64);
                lemma_pow2_pos((64 - a.expn) as nat);
                assert(t < pow2(31)) by {
                    lemma_limbs_val_bound(a.tab@);
                    lemma_pow2_adds((64 - a.expn) as nat, a.expn as nat);
                    lemma2_to64_rest();
                    assert(top < pow2((64 - a.expn) as nat) * pow2(a.expn as nat));
                    vstd::arithmetic::div_mod::lemma_multiply_divide_lt(
                        top as int,
                        pow2((64 - a.expn) as nat) as int,
                        pow2(a.expn as nat) as int,
                    );
                    assert(pow2(a.expn as nat) <= pow2(31)) by {
                        if a.expn < 31 {
                            lemma_pow2_strictly_increases(a.expn as nat, 31);
                        }
                    }
                    lemma2_to64();
                }
                lemma2_to64();
            }
            if a.sign == 1 {
                return (-(t as i32), 0);
            }
            return (t as i32, 0);
        }
        // expn == 32: only -2^31 fits
        let t: u64 = top >> 32u64;
        proof {
            vstd::bits::lemma_u64_shr_is_div(top, 32u64);
            lemma2_to64();
        }
        if a.sign == 1 && t == 0x8000_0000u64 {
            return (i32::MIN, 0);
        }
        if a.sign == 1 {
            return (i32::MIN, BF_ST_INVALID_OP);
        }
        return (i32::MAX, BF_ST_INVALID_OP);
    }
    if a.sign == 1 {
        return (i32::MIN, BF_ST_INVALID_OP);
    }
    (i32::MAX, BF_ST_INVALID_OP)
}

/// For an exponent of at most 64, the integer part is the top limb
/// shifted down by the unused bit count.
proof fn lemma_trunc_is_top_shift(a: bf_t)
    requires
        bf_wf(a),
        bf_is_fin_nonzero(a),
        1 <= a.expn <= 64,
    ensures
        spec_trunc_mag(a) == a.tab[a.tab.len() - 1] as nat / pow2((64 - a.expn) as nat),
{
    let l = a.tab.len() as int;
    let top = a.tab[l - 1];
    let g = (64 * (l - 1)) as nat;
    let s = (64 - a.expn) as nat;
    let m = bf_mant(a);
    crate::bits::lemma_limbs_val_split3(a.tab@, l - 1);
    assert(a.tab@.subrange(l, l) =~= Seq::<u64>::empty());
    lemma_mul_basics(pow2(g) as int);
    lemma_mul_basics(pow2(64) as int);
    let low = limbs_val(a.tab@.subrange(0, l - 1));
    assert(m == low + top * pow2(g));
    crate::bits::lemma_limbs_val_bound(a.tab@.subrange(0, l - 1));
    lemma_pow2_pos(s);
    lemma_pow2_pos(g);
    vstd::arithmetic::div_mod::lemma_fundamental_div_mod(top as int, pow2(s) as int);
    vstd::arithmetic::div_mod::lemma_mod_division_less_than_divisor(top as int, pow2(s) as int);
    let q = top as nat / pow2(s);
    let rr = top as nat % pow2(s);
    // m == q * 2^(g+s) + (rr * 2^g + low), with the remainder in range
    lemma_pow2_adds(s, g);
    assert(m == q * pow2((s + g) as nat) + (rr * pow2(g) + low)) by (nonlinear_arith)
        requires
            m == low + top * pow2(g),
            top == pow2(s) * q + rr,
            pow2((s + g) as nat) == pow2(s) * pow2(g),
    ;
    assert(rr * pow2(g) + low < pow2((s + g) as nat)) by (nonlinear_arith)
        requires
            rr < pow2(s),
            low < pow2(g),
            pow2((s + g) as nat) == pow2(s) * pow2(g),
            pow2(g) > 0,
    ;
    vstd::arithmetic::div_mod::lemma_fundamental_div_mod_converse(
        m as int,
        pow2((s + g) as nat) as int,
        q as int,
        (rr * pow2(g) + low) as int,
    );
    assert((s + g) as nat == (64 * l - a.expn) as nat);
}

} // verus!
