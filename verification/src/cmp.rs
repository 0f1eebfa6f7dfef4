//! Ordering of numbers: magnitude comparison of aligned mantissas, the
//! IEEE-style partial order with NaN, and the total order variant.

use vstd::prelude::*;
use vstd::arithmetic::power2::{pow2, lemma_pow2_adds, lemma_pow2_pos, lemma_pow2_strictly_increases, lemma2_to64};
use vstd::arithmetic::mul::{lemma_mul_inequality, lemma_mul_basics, lemma_mul_strict_inequality};
use crate::bits::{limbs_val, lemma_limbs_val_split, lemma_limbs_val_zero, lemma_limbs_val_bound, lemma_norm_val_range};
use crate::dyadic::{dyadic_eq, dyadic_le, bit_length, lemma_dyadic_le_common, lemma_dyadic_eq_common};
use crate::limb_ops::mp_cmp;
use crate::num::{bf_t, bf_wf, bf_mant, bf_e2, bf_is_zero, bf_is_inf, bf_is_nan, bf_is_fin_nonzero, lemma_wf_bit_length, BF_EXP_ZERO, BF_EXP_INF, BF_EXP_NAN};

verus! {

/// Strict order on magnitudes: `m1*2^e1 < m2*2^e2`.
pub open spec fn dyadic_lt(m1: nat, e1: int, m2: nat, e2: int) -> bool {
    dyadic_le(m1, e1, m2, e2) && !dyadic_eq(m1, e1, m2, e2)
}

/// Append `k` zero limbs below, multiplying the value by `2^(64*k)`.
pub(crate) fn pad_low(a: &Vec<u64>, k: usize) -> (r: Vec<u64>)
    requires
        a.len() + k <= usize::MAX,
    ensures
        r.len() == a.len() + k,
        limbs_val(r@) == limbs_val(a@) * pow2(64 * k as nat),
{
    let mut r: Vec<u64> = Vec::new();
    let mut i: usize = 0;
    while i < k
        invariant
            i <= k,
            r.len() == i,
            forall|j: int| 0 <= j < i ==> r@[j] == 0,
        decreases k - i,
    {
        r.push(0u64);
        i = i + 1;
    }
    let mut j: usize = 0;
    while j < a.len()
        invariant
            j <= a.len(),
            r.len() == k + j,
            forall|t: int| 0 <= t < k ==> r@[t] == 0,
            r@.subrange(k as int, (k + j) as int) =~= a@.subrange(0, j as int),
        decreases a.len() - j,
    {
        r.push(a[j]);
        j = j + 1;
    }
    proof {
        lemma_limbs_val_split(r@, k as int);
        assert(r@.subrange(0, k as int).len() == k);
        assert forall|t: int| 0 <= t < k implies r@.subrange(0, k as int)[t] == 0 by {
            assert(r@[t] == 0);
        }
        lemma_limbs_val_zero(r@.subrange(0, k as int));
        assert(r@.subrange(k as int, r.len() as int) =~= a@.subrange(0, a.len() as int));
        assert(a@.subrange(0, a.len() as int) =~= a@);
    }
    r
}

/// Rank of a magnitude class, in the order the reserved exponents give:
/// zero below every finite magnitude, finite below infinity, infinity
/// below NaN.
pub open spec fn spec_mag_rank(a: bf_t) -> int {
    if bf_is_zero(a) {
        0
    } else if bf_is_fin_nonzero(a) {
        1
    } else if bf_is_inf(a) {
        2
    } else {
        3
    }
}

/// Magnitude order of any two numbers: classes in reserved-exponent
/// order (zero < finite < infinity < NaN), finite magnitudes by value.
pub open spec fn spec_bf_cmpu(a: bf_t, b: bf_t) -> int {
    if spec_mag_rank(a) < spec_mag_rank(b) {
        -1
    } else if spec_mag_rank(a) > spec_mag_rank(b) {
        1
    } else if bf_is_fin_nonzero(a) {
        if dyadic_eq(bf_mant(a), bf_e2(a), bf_mant(b), bf_e2(b)) {
            0
        } else if dyadic_lt(bf_mant(a), bf_e2(a), bf_mant(b), bf_e2(b)) {
            -1
        } else {
            1
        }
    } else {
        0
    }
}

/// Compare the magnitudes of two well-formed numbers; the reserved
/// exponents order zero below every finite number and infinity and NaN
/// above all of them.
pub fn bf_cmpu(a: &bf_t, b: &bf_t) -> (r: i32)
    requires
        bf_wf(*a),
        bf_wf(*b),
    ensures
        r == 1 || r == -1 || r == 0,
        r == spec_bf_cmpu(*a, *b),
        bf_is_fin_nonzero(*a) && bf_is_fin_nonzero(*b) ==> {
            &&& (r == 0 <==> dyadic_eq(bf_mant(*a), bf_e2(*a), bf_mant(*b), bf_e2(*b)))
            &&& (r == -1 <==> dyadic_lt(bf_mant(*a), bf_e2(*a), bf_mant(*b), bf_e2(*b)))
            &&& (r == 1 <==> dyadic_lt(bf_mant(*b), bf_e2(*b), bf_mant(*a), bf_e2(*a)))
        },
{
    if a.expn != b.expn {
        if a.expn < b.expn {
            proof {
                lemma_cmpu_expn_order(*a, *b);
            }
            return -1;
        } else {
            proof {
                lemma_cmpu_expn_order(*b, *a);
            }
            return 1;
        }
    }
    // equal exponents: the reserved values name the same class on both sides
    if a.expn == BF_EXP_ZERO || a.expn == BF_EXP_INF || a.expn == BF_EXP_NAN {
        return 0;
    }
    proof {
        lemma_wf_bit_length(*a);
        lemma_wf_bit_length(*b);
    }
    // same exponent: compare mantissas aligned at the top
    let la = a.tab.len();
    let lb = b.tab.len();
    let n = if la < lb {
        lb
    } else {
        la
    };
    let pa = pad_low(&a.tab, n - la);
    let pb = pad_low(&b.tab, n - lb);
    let c = mp_cmp(&pa, &pb);
    proof {
        let ma = bf_mant(*a);
        let mb = bf_mant(*b);
        let ea = bf_e2(*a);
        let eb = bf_e2(*b);
        let e = a.expn - 64 * n;
        assert(ea - e == 64 * (n - la));
        assert(eb - e == 64 * (n - lb));
        lemma_dyadic_le_common(ma, ea, mb, eb, e);
        lemma_dyadic_le_common(mb, eb, ma, ea, e);
        lemma_dyadic_eq_common(ma, ea, mb, eb, e);
        lemma_dyadic_eq_common(mb, eb, ma, ea, e);
        assert(limbs_val(pa@) == ma * pow2((ea - e) as nat));
        assert(limbs_val(pb@) == mb * pow2((eb - e) as nat));
        // trichotomy of the padded values decides each dyadic relation
        assert(c == 0 ==> dyadic_eq(ma, ea, mb, eb));
        assert(c == -1 ==> dyadic_lt(ma, ea, mb, eb));
        assert(c == 1 ==> dyadic_lt(mb, eb, ma, ea));
        assert(dyadic_eq(ma, ea, mb, eb) ==> limbs_val(pa@) == limbs_val(pb@));
        assert(dyadic_lt(ma, ea, mb, eb) ==> limbs_val(pa@) < limbs_val(pb@));
        assert(dyadic_lt(mb, eb, ma, ea) ==> limbs_val(pb@) < limbs_val(pa@));
    }
    c
}

/// A smaller stored exponent means a smaller magnitude, across the
/// reserved classes too.
proof fn lemma_cmpu_expn_order(lo: bf_t, hi: bf_t)
    requires
        bf_wf(lo),
        bf_wf(hi),
        lo.expn < hi.expn,
    ensures
        spec_bf_cmpu(lo, hi) == -1,
        spec_bf_cmpu(hi, lo) == 1,
{
    if bf_is_fin_nonzero(lo) && bf_is_fin_nonzero(hi) {
        lemma_cmp_by_expn(lo, hi);
        let ml = bf_mant(lo);
        let mh = bf_mant(hi);
        let el = bf_e2(lo);
        let eh = bf_e2(hi);
        let e = if el <= eh {
            el
        } else {
            eh
        };
        lemma_dyadic_le_common(ml, el, mh, eh, e);
        lemma_dyadic_le_common(mh, eh, ml, el, e);
        lemma_dyadic_eq_common(ml, el, mh, eh, e);
        lemma_dyadic_eq_common(mh, eh, ml, el, e);
    } else {
        assert(spec_mag_rank(lo) < spec_mag_rank(hi));
    }
}

/// A larger stored exponent means a strictly larger magnitude.
proof fn lemma_cmp_by_expn(lo: bf_t, hi: bf_t)
    requires
        bf_wf(lo),
        bf_wf(hi),
        bf_is_fin_nonzero(lo),
        bf_is_fin_nonzero(hi),
        lo.expn < hi.expn,
    ensures
        dyadic_lt(bf_mant(lo), bf_e2(lo), bf_mant(hi), bf_e2(hi)),
{
    lemma_wf_bit_length(lo);
    lemma_wf_bit_length(hi);
    let ml = bf_mant(lo);
    let mh = bf_mant(hi);
    let el = bf_e2(lo);
    let eh = bf_e2(hi);
    let e = if el <= eh {
        el
    } else {
        eh
    };
    lemma_dyadic_le_common(ml, el, mh, eh, e);
    lemma_dyadic_eq_common(ml, el, mh, eh, e);
    // ml * 2^(el-e) < 2^(expn_lo - e) <= 2^(expn_hi - 1 - e) <= mh * 2^(eh-e)
    let ll = lo.tab.len() as int;
    let lh = hi.tab.len() as int;
    assert(ml < pow2((64 * ll) as nat));
    assert(mh >= pow2((64 * lh - 1) as nat));
    assert(ml * pow2((el - e) as nat) < pow2((64 * ll) as nat) * pow2((el - e) as nat)) by {
        lemma_pow2_pos((el - e) as nat);
        lemma_mul_strict_inequality(ml as int, pow2((64 * ll) as nat) as int, pow2((el - e) as nat) as int);
    }
    lemma_pow2_adds((64 * ll) as nat, (el - e) as nat);
    assert((64 * ll) as nat + (el - e) as nat == (lo.expn - e) as nat);
    assert(mh * pow2((eh - e) as nat) >= pow2((64 * lh - 1) as nat) * pow2((eh - e) as nat)) by {
        lemma_pow2_pos((eh - e) as nat);
        lemma_mul_inequality(pow2((64 * lh - 1) as nat) as int, mh as int, pow2((eh - e) as nat) as int);
    }
    lemma_pow2_adds((64 * lh - 1) as nat, (eh - e) as nat);
    assert((64 * lh - 1) as nat + (eh - e) as nat == (hi.expn - 1 - e) as nat);
    assert(pow2((lo.expn - e) as nat) <= pow2((hi.expn - 1 - e) as nat)) by {
        if lo.expn < hi.expn - 1 {
            lemma_pow2_strictly_increases((lo.expn - e) as nat, (hi.expn - 1 - e) as nat);
        }
    }
}

/// IEEE comparison of two well-formed numbers: 2 when either operand is
/// NaN (unordered), otherwise -1, 0 or 1 as the values order, with zeros
/// of either sign equal.
pub fn bf_cmp(a: &bf_t, b: &bf_t) -> (r: i32)
    requires
        bf_wf(*a),
        bf_wf(*b),
    ensures
        r == 2 || r == 1 || r == -1 || r == 0,
        (bf_is_nan(*a) || bf_is_nan(*b)) <==> r == 2,
        !bf_is_nan(*a) && !bf_is_nan(*b) ==> r as int == spec_bf_cmp(*a, *b),
{
    if a.expn == BF_EXP_NAN || b.expn == BF_EXP_NAN {
        return 2;
    }
    if a.sign != b.sign {
        if bf_is_zero_both(a, b) {
            return 0;
        }
        if a.sign == 1 {
            return -1;
        } else {
            return 1;
        }
    }
    // same sign
    let neg = a.sign == 1;
    if a.expn == BF_EXP_ZERO && b.expn == BF_EXP_ZERO {
        return 0;
    }
    if a.expn == BF_EXP_ZERO {
        if neg {
            return 1;
        } else {
            return -1;
        }
    }
    if b.expn == BF_EXP_ZERO {
        if neg {
            return -1;
        } else {
            return 1;
        }
    }
    if a.expn == BF_EXP_INF && b.expn == BF_EXP_INF {
        return 0;
    }
    if a.expn == BF_EXP_INF {
        if neg {
            return -1;
        } else {
            return 1;
        }
    }
    if b.expn == BF_EXP_INF {
        proof {
            assert(!bf_is_zero(*a) && !bf_is_zero(*b));
            assert(!bf_is_inf(*a) && bf_is_inf(*b));
            assert(spec_bf_cmp(*a, *b) == if a.sign == 1 {
                1int
            } else {
                -1int
            });
        }
        if neg {
            return 1;
        } else {
            return -1;
        }
    }
    let c = bf_cmpu(a, b);
    if neg {
        -c
    } else {
        c
    }
}

fn bf_is_zero_both(a: &bf_t, b: &bf_t) -> (r: bool)
    ensures
        r == (bf_is_zero(*a) && bf_is_zero(*b)),
{
    a.expn == BF_EXP_ZERO && b.expn == BF_EXP_ZERO
}

/// The value order on non-NaN numbers: -1, 0 or 1 as `a < b`, `a == b`
/// (zeros of either sign are equal) or `a > b`.
pub open spec fn spec_bf_cmp(a: bf_t, b: bf_t) -> int {
    if bf_is_zero(a) && bf_is_zero(b) {
        0
    } else if bf_is_zero(a) {
        if b.sign == 1 {
            1
        } else {
            -1
        }
    } else if bf_is_zero(b) {
        if a.sign == 1 {
            -1
        } else {
            1
        }
    } else if a.sign != b.sign {
        if a.sign == 1 {
            -1
        } else {
            1
        }
    } else {
        let mag: int = if bf_is_inf(a) && bf_is_inf(b) {
            0
        } else if bf_is_inf(a) {
            1
        } else if bf_is_inf(b) {
            -1
        } else if dyadic_eq(bf_mant(a), bf_e2(a), bf_mant(b), bf_e2(b)) {
            0
        } else if dyadic_lt(bf_mant(a), bf_e2(a), bf_mant(b), bf_e2(b)) {
            -1
        } else {
            1
        };
        if a.sign == 1 {
            (-1) * mag
        } else {
            mag
        }
    }
}

/// The total order: -0 below +0, NaN equal to NaN and above every other
/// value, all remaining pairs by signed value.
pub open spec fn spec_bf_cmp_full(a: bf_t, b: bf_t) -> int {
    if bf_is_nan(a) && bf_is_nan(b) {
        0
    } else if bf_is_nan(a) {
        1
    } else if bf_is_nan(b) {
        -1
    } else if a.sign != b.sign {
        if a.sign == 1 {
            -1
        } else {
            1
        }
    } else if a.sign == 1 {
        -spec_bf_cmpu(a, b)
    } else {
        spec_bf_cmpu(a, b)
    }
}

/// Total-order comparison of two well-formed numbers: -0 sorts below +0,
/// NaN equals NaN and sits above every number.
pub fn bf_cmp_full(a: &bf_t, b: &bf_t) -> (r: i32)
    requires
        bf_wf(*a),
        bf_wf(*b),
    ensures
        r == 1 || r == -1 || r == 0,
        r == spec_bf_cmp_full(*a, *b),
{
    if a.expn == BF_EXP_NAN || b.expn == BF_EXP_NAN {
        if a.expn == b.expn {
            0
        } else if a.expn == BF_EXP_NAN {
            1
        } else {
            -1
        }
    } else if a.sign != b.sign {
        1 - 2 * a.sign
    } else {
        let c = bf_cmpu(a, b);
        if a.sign != 0 {
            -c
        } else {
            c
        }
    }
}

pub fn bf_cmp_eq(a: &bf_t, b: &bf_t) -> (r: bool)
    requires
        bf_wf(*a),
        bf_wf(*b),
    ensures
        r == (!bf_is_nan(*a) && !bf_is_nan(*b) && spec_bf_cmp(*a, *b) == 0),
{
    if a.expn == BF_EXP_NAN || b.expn == BF_EXP_NAN {
        return false;
    }
    bf_cmp(a, b) == 0
}

pub fn bf_cmp_lt(a: &bf_t, b: &bf_t) -> (r: bool)
    requires
        bf_wf(*a),
        bf_wf(*b),
    ensures
        r == (!bf_is_nan(*a) && !bf_is_nan(*b) && spec_bf_cmp(*a, *b) < 0),
{
    if a.expn == BF_EXP_NAN || b.expn == BF_EXP_NAN {
        return false;
    }
    bf_cmp(a, b) < 0
}

pub fn bf_cmp_le(a: &bf_t, b: &bf_t) -> (r: bool)
    requires
        bf_wf(*a),
        bf_wf(*b),
    ensures
        r == (!bf_is_nan(*a) && !bf_is_nan(*b) && spec_bf_cmp(*a, *b) <= 0),
{
    if a.expn == BF_EXP_NAN || b.expn == BF_EXP_NAN {
        return false;
    }
    bf_cmp(a, b) <= 0
}

} // verus!
