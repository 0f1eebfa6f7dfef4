//! Library-wide laws of the rounding engine, stated and proved over the
//! same spec functions the operation contracts use.

use vstd::prelude::*;
use vstd::arithmetic::power2::{pow2, lemma_pow2_adds, lemma_pow2_pos, lemma_pow2_strictly_increases, lemma2_to64};
use vstd::arithmetic::mul::{lemma_mul_inequality, lemma_mul_basics, lemma_mul_strict_inequality, lemma_mul_strictly_positive};
use vstd::arithmetic::div_mod::{lemma_fundamental_div_mod, lemma_mod_division_less_than_divisor, lemma_basic_div, lemma_multiply_divide_lt};
use crate::dyadic::{dyadic_eq, dyadic_le, bit_length, lemma_bit_length_bounds, lemma_bit_length_unique, lemma_bit_length_shift, lemma_dyadic_le_common, lemma_round_scale, spec_round_mant, spec_round_inexact, spec_rnd_up, spec_round_bit, spec_sticky_bit};
use crate::num::{bf_t, flags_wf, spec_e_min, spec_e_max, spec_rnd_mode, BF_RNDF, BF_RNDD, BF_RNDU, BF_RNDA, BF_FLAG_SUBNORMAL, BF_FLAG_RADPNT_PREC, BF_PREC_INF, BF_ST_INEXACT};
use crate::round::{Rounded, spec_round, spec_round_status, spec_eff_prec, spec_ovf_is_inf};

verus! {


/// Numeric range of the exponent bounds a well-formed flag word selects.
pub proof fn lemma_flags_range(flags: u32)
    requires
        flags_wf(flags),
    ensures
        4 <= spec_e_max(flags),
        spec_e_min(flags) == -spec_e_max(flags) + 3,
        spec_e_min(flags) <= -1,
{
    let eb = crate::num::spec_exp_bits(flags);
    lemma2_to64();
    assert(pow2(2) == 4);
    if 2 < eb - 1 {
        lemma_pow2_strictly_increases(2, (eb - 1) as nat);
    }
}

/// Rounding moves the value by less than one unit in the last place:
/// `q2 * 2^d` lies within `2^d` of `m`.
pub proof fn lemma_round_error_bound(mode: u32, neg: bool, m: nat, d: nat)
    ensures
        (spec_round_mant(mode, neg, m, d) * pow2(d)) + pow2(d) > m,
        (spec_round_mant(mode, neg, m, d) * pow2(d)) <= m + pow2(d),
{
    let q = m / pow2(d);
    lemma_pow2_pos(d);
    lemma_fundamental_div_mod(m as int, pow2(d) as int);
    lemma_mod_division_less_than_divisor(m as int, pow2(d) as int);
    let q2 = spec_round_mant(mode, neg, m, d);
    assert(q2 == q || q2 == q + 1);
    assert(q * pow2(d) <= m) by {
        vstd::arithmetic::mul::lemma_mul_is_commutative(q as int, pow2(d) as int);
    }
    assert((q + 1) * pow2(d) > m) by {
        vstd::arithmetic::mul::lemma_mul_is_distributive_add_other_way(
            pow2(d) as int,
            q as int,
            1,
        );
        vstd::arithmetic::mul::lemma_mul_is_commutative(q as int, pow2(d) as int);
        lemma_mul_basics(pow2(d) as int);
    }
    vstd::arithmetic::mul::lemma_mul_is_distributive_add_other_way(pow2(d) as int, q as int, 1);
    lemma_mul_basics(pow2(d) as int);
}

/// The rounded mantissa at an effective precision `p >= 1` with at least
/// one dropped bit lies in `[2^(p-1), 2^p]`.
proof fn lemma_round_mant_range(mode: u32, neg: bool, m: nat, p: int)
    requires
        p >= 1,
        bit_length(m) > p,
    ensures
        pow2((p - 1) as nat) <= spec_round_mant(mode, neg, m, (bit_length(m) - p) as nat),
        spec_round_mant(mode, neg, m, (bit_length(m) - p) as nat) <= pow2(p as nat),
{
    let n = bit_length(m) as int;
    let d = (n - p) as nat;
    let q = m / pow2(d);
    lemma_bit_length_bounds(m);
    lemma_pow2_pos(d);
    lemma_pow2_pos((p - 1) as nat);
    assert(q >= pow2((p - 1) as nat)) by {
        assert(m >= pow2((n - 1) as nat));
        lemma_pow2_adds(d, (p - 1) as nat);
        assert(d + (p - 1) as nat == (n - 1) as nat);
        // m / 2^d >= 2^(n-1) / 2^d = 2^(p-1)
        vstd::arithmetic::div_mod::lemma_div_is_ordered(
            pow2((n - 1) as nat) as int,
            m as int,
            pow2(d) as int,
        );
        vstd::arithmetic::div_mod::lemma_div_by_multiple(
            pow2((p - 1) as nat) as int,
            pow2(d) as int,
        );
        vstd::arithmetic::mul::lemma_mul_is_commutative(
            pow2((p - 1) as nat) as int,
            pow2(d) as int,
        );
    }
    assert(q < pow2(p as nat)) by {
        lemma_pow2_adds(d, p as nat);
        assert(m < pow2(d) * pow2(p as nat));
        lemma_multiply_divide_lt(m as int, pow2(d) as int, pow2(p as nat) as int);
    }
    let q2 = spec_round_mant(mode, neg, m, d);
    assert(q2 == q || q2 == q + 1);
}

/// Rounding is idempotent: rounding a finite rounded result again, at
/// the same precision and flags, returns the same value exactly (and
/// reports it exact).  Stated for precision measured from the leading
/// digit (not the radix point).
pub proof fn lemma_round_idempotent(
    m: nat,
    e: int,
    neg: bool,
    prec1: u64,
    flags: u32,
    m2: nat,
    e2: int,
)
    requires
        m > 0,
        flags_wf(flags),
        prec1 >= 2,
        flags & BF_FLAG_RADPNT_PREC == 0,
        spec_round(m, e, neg, prec1, flags) == Rounded::Fin(m2, e2),
    ensures
        m2 > 0,
        (match spec_round(m2, e2, neg, prec1, flags) {
            Rounded::Fin(m3, e3) => dyadic_eq(m3, e3, m2, e2),
            _ => false,
        }),
        spec_round_status(m2, e2, neg, prec1, flags) == (if spec_rnd_mode(flags) == BF_RNDF {
            BF_ST_INEXACT
        } else {
            0
        }),
{
    let n = bit_length(m) as int;
    let expn = e + n;
    let mode = spec_rnd_mode(flags);
    let prec = spec_eff_prec(prec1, flags, expn);
    let e_min = spec_e_min(flags);
    let e_max = spec_e_max(flags);
    lemma_bit_length_bounds(m);
    if prec >= n {
        // the first rounding was exact: the second is the very same call
        assert(m2 == m && e2 == e);
        assert(spec_round(m2, e2, neg, prec1, flags) == Rounded::Fin(m2, e2));
        lemma2_to64();
        lemma_mul_basics(m2 as int);
        assert(dyadic_eq(m2, e2, m2, e2));
    } else {
        let drop = (n - prec) as nat;
        let q2 = spec_round_mant(mode, neg, m, drop);
        if prec <= 0 {
            // result is the smallest kept magnitude, 2^(expn - prec)
            assert(m2 == 1 && e2 == expn - prec);
            // precision from the leading digit only narrows below e_min
            assert(expn < e_min && flags & BF_FLAG_SUBNORMAL != 0);
            assert(prec == prec1 - (e_min - expn));
            let n2 = bit_length(1nat) as int;
            assert(n2 == 1) by {
                lemma2_to64();
                lemma_bit_length_unique(1nat, 1nat);
            }
            let expn2 = e2 + 1;
            assert(expn2 == e_min - prec1 + 1 + 1 || expn2 == expn - prec + 1);
            assert(expn - prec == e_min - prec1);
            // second effective precision is exactly 1
            assert(expn2 < e_min);
            assert(spec_eff_prec(prec1, flags, expn2) == prec1 - (e_min - expn2));
            assert(prec1 - (e_min - expn2) == 1 + 1 - 1);
            lemma_flags_range(flags);
            assert(expn2 <= e_max);
            assert(spec_round(m2, e2, neg, prec1, flags) == Rounded::Fin(1, e2));
            lemma2_to64();
            lemma_mul_basics(1int);
            assert(dyadic_eq(1, e2, 1, e2));
        } else {
            assert(m2 == q2 && e2 == e + drop);
            lemma_round_mant_range(mode, neg, m, prec);
            lemma_pow2_pos((prec - 1) as nat);
            assert(m2 > 0);
            let n2 = bit_length(q2) as int;
            assert(n2 == prec || (n2 == prec + 1 && q2 == pow2(prec as nat))) by {
                lemma_bit_length_bounds(q2);
                if q2 < pow2(prec as nat) {
                    lemma_bit_length_unique(q2, prec as nat);
                } else {
                    lemma_pow2_adds(prec as nat, 1);
                    lemma2_to64();
                    lemma_bit_length_unique(q2, (prec + 1) as nat);
                }
            }
            let expn2 = e2 + n2;
            assert(expn2 == expn + (n2 - prec));
            // the first rounding kept the result, so it is in range
            assert(!(expn2 < e_min && flags & BF_FLAG_SUBNORMAL == 0));
            assert(expn2 <= e_max);
            let prec_b = spec_eff_prec(prec1, flags, expn2);
            if expn2 < e_min {
                // subnormal kept: the second effective precision is its size
                assert(flags & BF_FLAG_SUBNORMAL != 0);
                assert(expn < e_min);
                assert(prec == prec1 - (e_min - expn));
                assert(prec_b == prec1 - (e_min - expn2));
                assert(prec_b == n2);
                assert(spec_round(m2, e2, neg, prec1, flags) == Rounded::Fin(m2, e2));
                lemma2_to64();
                lemma_mul_basics(m2 as int);
                assert(dyadic_eq(m2, e2, m2, e2));
            } else {
                assert(prec_b == prec1 as int);
                assert(prec <= prec1);
                if n2 <= prec1 {
                    assert(spec_round(m2, e2, neg, prec1, flags) == Rounded::Fin(m2, e2));
                    lemma2_to64();
                    lemma_mul_basics(m2 as int);
                    assert(dyadic_eq(m2, e2, m2, e2));
                } else {
                    // q2 == 2^prec1: one even bit is dropped, exactly
                    assert(n2 == prec1 + 1 && q2 == pow2(prec1 as nat));
                    assert(prec == prec1);
                    let d2 = (n2 - prec_b) as nat;
                    assert(d2 == 1);
                    lemma2_to64();
                    lemma_pow2_adds((prec1 - 1) as nat, 1);
                    assert(q2 == pow2((prec1 - 1) as nat) * 2);
                    assert(q2 / pow2(1) == pow2((prec1 - 1) as nat)) by {
                        vstd::arithmetic::div_mod::lemma_fundamental_div_mod_converse(
                            q2 as int,
                            2,
                            pow2((prec1 - 1) as nat) as int,
                            0,
                        );
                    }
                    assert(q2 % pow2(1) == 0) by {
                        vstd::arithmetic::div_mod::lemma_fundamental_div_mod_converse(
                            q2 as int,
                            2,
                            pow2((prec1 - 1) as nat) as int,
                            0,
                        );
                    }
                    assert(!spec_round_bit(q2, 1)) by {
                        assert((q2 / pow2(0)) % 2 == 0) by {
                            lemma_mul_basics(q2 as int);
                            vstd::arithmetic::div_mod::lemma_fundamental_div_mod_converse(
                                q2 as int,
                                1,
                                q2 as int,
                                0,
                            );
                            vstd::arithmetic::div_mod::lemma_fundamental_div_mod_converse(
                                q2 as int,
                                2,
                                pow2((prec1 - 1) as nat) as int,
                                0,
                            );
                        }
                    }
                    assert(!spec_sticky_bit(q2, 1)) by {
                        assert(q2 % pow2(0) == 0) by {
                            vstd::arithmetic::div_mod::lemma_fundamental_div_mod_converse(
                                q2 as int,
                                1,
                                q2 as int,
                                0,
                            );
                            lemma_mul_basics(q2 as int);
                        }
                    }
                    let q3 = spec_round_mant(mode, neg, q2, 1);
                    assert(q3 == pow2((prec1 - 1) as nat));
                    let n3 = bit_length(q3) as int;
                    assert(n3 == prec1) by {
                        lemma_pow2_pos((prec1 - 1) as nat);
                        lemma_pow2_adds((prec1 - 1) as nat, 1);
                        lemma_bit_length_unique(q3, prec1 as nat);
                    }
                    assert(spec_round_inexact(q2, 1) == false) by {
                        assert(q2 % pow2(1) == 0);
                    }
                    assert(spec_round(m2, e2, neg, prec1, flags) == Rounded::Fin(q3, e2 + 1));
                    assert(dyadic_eq(q3, e2 + 1, q2, e2)) by {
                        assert(q3 * pow2(1) == q2);
                    }
                }
            }
        }
    }
}


/// Monotonicity of the rounding primitive: at a fixed dropped-bit count,
/// a larger mantissa never rounds below a smaller one.
pub proof fn lemma_round_mant_monotone(mode: u32, neg: bool, m1: nat, m2: nat, d: nat)
    requires
        m1 <= m2,
        d >= 1,
    ensures
        spec_round_mant(mode, neg, m1, d) <= spec_round_mant(mode, neg, m2, d),
{
    let q1 = m1 / pow2(d);
    let q2 = m2 / pow2(d);
    lemma_pow2_pos(d);
    lemma_pow2_pos((d - 1) as nat);
    assert(q1 <= q2) by {
        vstd::arithmetic::div_mod::lemma_div_is_ordered(m1 as int, m2 as int, pow2(d) as int);
    }
    let h1 = m1 / pow2((d - 1) as nat);
    let h2 = m2 / pow2((d - 1) as nat);
    assert(h1 <= h2) by {
        vstd::arithmetic::div_mod::lemma_div_is_ordered(
            m1 as int,
            m2 as int,
            pow2((d - 1) as nat) as int,
        );
    }
    // h = 2q + rb
    crate::dyadic::lemma_div_div_pow2(m1, (d - 1) as nat, 1);
    crate::dyadic::lemma_div_div_pow2(m2, (d - 1) as nat, 1);
    assert((d - 1) as nat + 1 == d);
    lemma2_to64();
    lemma_fundamental_div_mod(h1 as int, 2);
    lemma_fundamental_div_mod(h2 as int, 2);
    lemma_mod_division_less_than_divisor(h1 as int, 2);
    lemma_mod_division_less_than_divisor(h2 as int, 2);
    assert(h1 / pow2(1) == q1);
    assert(h2 / pow2(1) == q2);
    let rb1 = spec_round_bit(m1, d);
    let rb2 = spec_round_bit(m2, d);
    let sb1 = spec_sticky_bit(m1, d);
    let sb2 = spec_sticky_bit(m2, d);
    if q1 < q2 {
        // even rounding up the smaller cannot pass the larger
        assert(spec_round_mant(mode, neg, m1, d) <= q1 + 1);
        assert(spec_round_mant(mode, neg, m2, d) >= q2);
    } else {
        // same quotient: the tail of m1 is at most the tail of m2
        assert(h1 == 2 * q1 + (if rb1 {
            1int
        } else {
            0int
        }));
        assert(h2 == 2 * q2 + (if rb2 {
            1int
        } else {
            0int
        }));
        assert(rb1 ==> rb2);
        lemma_fundamental_div_mod(m1 as int, pow2((d - 1) as nat) as int);
        lemma_fundamental_div_mod(m2 as int, pow2((d - 1) as nat) as int);
        lemma_mod_division_less_than_divisor(m1 as int, pow2((d - 1) as nat) as int);
        lemma_mod_division_less_than_divisor(m2 as int, pow2((d - 1) as nat) as int);
        let r1 = m1 % pow2((d - 1) as nat);
        let r2 = m2 % pow2((d - 1) as nat);
        if h1 == h2 {
            // equal down to the round bit: the sticky of m1 implies m2's
            assert(m1 == pow2((d - 1) as nat) * h1 + r1);
            assert(m2 == pow2((d - 1) as nat) * h2 + r2);
            assert(r1 <= r2);
            assert(sb1 ==> sb2);
            assert(spec_rnd_up(mode, neg, q1, rb1, sb1) ==> spec_rnd_up(mode, neg, q2, rb2, sb2));
        } else {
            // h1 < h2 with equal quotients: rb1 == 0, rb2 == 1
            assert(h1 < h2);
            assert(!rb1 && rb2);
            // if m1 rounds up, its tail is nonzero, so is m2's round bit
            if spec_rnd_up(mode, neg, q1, rb1, sb1) {
                // only the directed away-from-zero modes round on sticky alone
                assert(sb1 || rb1);
                assert(mode == BF_RNDD || mode == BF_RNDU || mode == BF_RNDA);
                assert(spec_rnd_up(mode, neg, q2, rb2, sb2));
            }
        }
    }
}


/// Order on rounded outcomes: zero below finite below the overflow
/// results, finite magnitudes by value.
pub open spec fn spec_rounded_le(r1: Rounded, r2: Rounded, prec1: u64, flags: u32) -> bool {
    match r1 {
        Rounded::Zero => true,
        Rounded::Fin(a, ea) => match r2 {
            Rounded::Zero => false,
            Rounded::Fin(b, eb) => crate::dyadic::dyadic_le(a, ea, b, eb),
            Rounded::Inf => true,
            Rounded::Max => crate::dyadic::dyadic_le(
                a,
                ea,
                (pow2(prec1 as nat) - 1) as nat,
                spec_e_max(flags) - prec1,
            ),
        },
        Rounded::Max => match r2 {
            Rounded::Zero => false,
            Rounded::Fin(b, eb) => crate::dyadic::dyadic_le(
                (pow2(prec1 as nat) - 1) as nat,
                spec_e_max(flags) - prec1,
                b,
                eb,
            ),
            Rounded::Inf => true,
            Rounded::Max => true,
        },
        Rounded::Inf => r2 == Rounded::Inf,
    }
}

/// Scaling a magnitude by a power of two (and lowering its scale to
/// match) does not change how it rounds; the finite results are the
/// same value.
#[verifier::rlimit(100)]
pub proof fn lemma_round_scale_value(m: nat, e: int, t: nat, neg: bool, prec1: u64, flags: u32)
    requires
        m >= 1,
        prec1 >= 2,
    ensures
        (match (spec_round(m, e, neg, prec1, flags), spec_round(
            (m * pow2(t)) as nat,
            e - t,
            neg,
            prec1,
            flags,
        )) {
            (Rounded::Zero, Rounded::Zero) => true,
            (Rounded::Inf, Rounded::Inf) => true,
            (Rounded::Max, Rounded::Max) => true,
            (Rounded::Fin(a, ea), Rounded::Fin(b, eb)) => dyadic_eq(a, ea, b, eb),
            _ => false,
        }),
{
    let n = bit_length(m) as int;
    let mm = (m * pow2(t)) as nat;
    crate::dyadic::lemma_bit_length_shift(m, t);
    lemma_pow2_pos(t);
    lemma_mul_strictly_positive(m as int, pow2(t) as int);
    let n2 = bit_length(mm) as int;
    assert(n2 == n + t);
    let expn = e + n;
    assert((e - t) + n2 == expn);
    let p = spec_eff_prec(prec1, flags, expn);
    let mode = spec_rnd_mode(flags);
    lemma_bit_length_bounds(m);
    if p >= n2 {
        // both exact (t == 0 collapses the two calls)
        assert(p >= n);
        lemma2_to64();
        lemma_mul_basics(m as int);
        assert(dyadic_eq(m, e, mm, e - t)) by {
            assert(m * pow2(t) == mm);
        }
    } else if p >= n {
        // the unscaled call is exact; the scaled one drops only zero bits
        let d2 = (n2 - p) as nat;
        assert(1 <= d2 <= t);
        // mm / 2^d2 == m * 2^(t - d2), remainder zero
        lemma_pow2_adds((t - d2) as nat, d2);
        assert(mm == (m * pow2((t - d2) as nat)) * pow2(d2)) by {
            vstd::arithmetic::mul::lemma_mul_is_associative(
                m as int,
                pow2((t - d2) as nat) as int,
                pow2(d2) as int,
            );
        }
        crate::dyadic::lemma_div_mod_scale((m * pow2((t - d2) as nat)) as nat, 0, d2);
        lemma2_to64();
        lemma_pow2_pos(d2);
        lemma_pow2_pos((t - d2) as nat);
        assert(mm / pow2(d2) == m * pow2((t - d2) as nat)) by {
            lemma_mul_basics((m * pow2((t - d2) as nat)) as int);
            vstd::arithmetic::div_mod::lemma_fundamental_div_mod_converse(
                mm as int,
                pow2(d2) as int,
                (m * pow2((t - d2) as nat)) as int,
                0,
            );
        }
        assert(mm % pow2(d2) == 0) by {
            vstd::arithmetic::div_mod::lemma_fundamental_div_mod_converse(
                mm as int,
                pow2(d2) as int,
                (m * pow2((t - d2) as nat)) as int,
                0,
            );
        }
        // round bit and sticky bit are zero
        assert(!spec_round_bit(mm, d2) && !spec_sticky_bit(mm, d2)) by {
            crate::dyadic::lemma_mod_split_pow2(mm, (d2 - 1) as nat, 1);
            lemma_pow2_pos((d2 - 1) as nat);
            assert(mm % pow2((d2 - 1) as nat) == 0);
            assert((mm / pow2((d2 - 1) as nat)) % 2 == 0) by {
                assert((d2 - 1) as nat + 1 == d2);
            }
        }
        let q2 = spec_round_mant(mode, neg, mm, d2);
        assert(q2 == mm / pow2(d2));
        assert(!spec_round_inexact(mm, d2));
        let nb2 = bit_length(q2) as int;
        assert(nb2 == n + t - d2) by {
            crate::dyadic::lemma_bit_length_shift(m, (t - d2) as nat);
        }
        assert((e - t) + d2 + nb2 == expn);
        assert(dyadic_eq(m, e, q2, e - t + d2)) by {
            crate::dyadic::lemma_dyadic_eq_common(m, e, q2, e - t + d2, e - t + d2);
            assert(m * pow2((t - d2) as nat) == q2);
        }
    } else {
        // both round: the dropped data coincides
        let d = (n - p) as nat;
        crate::dyadic::lemma_round_scale(mode, neg, m, d, t);
        assert((n2 - p) as nat == d + t);
        let q2 = spec_round_mant(mode, neg, m, d);
        assert(spec_round_mant(mode, neg, mm, (d + t) as nat) == q2);
        assert(e + d == (e - t) + (d + t));
        lemma2_to64();
        lemma_mul_basics(q2 as int);
        lemma_mul_basics(1int);
        if p <= 0 {
            assert(dyadic_eq(1, expn - p, 1, expn - p));
        } else {
            lemma_round_mant_range(mode, neg, m, p);
            lemma_pow2_pos((p - 1) as nat);
            assert(q2 >= 1);
            assert(dyadic_eq(q2, e + d, q2, (e - t) + (d + t)));
        }
    }
}


/// Bit length is monotone.
proof fn lemma_bit_length_monotone(a: nat, b: nat)
    requires
        a <= b,
    ensures
        bit_length(a) <= bit_length(b),
{
    if a >= 1 && bit_length(a) > bit_length(b) {
        lemma_bit_length_bounds(a);
        lemma_bit_length_bounds(b);
        if bit_length(b) < bit_length(a) - 1 {
            lemma_pow2_strictly_increases(bit_length(b), (bit_length(a) - 1) as nat);
        }
    }
}

/// Inequality of dyadic values survives replacing both sides by
/// dyadically equal pairs.
proof fn lemma_dyadic_le_compat(
    a: nat, ea: int, a2: nat, ea2: int, b: nat, eb: int, b2: nat, eb2: int,
)
    requires
        dyadic_eq(a, ea, a2, ea2),
        dyadic_eq(b, eb, b2, eb2),
        crate::dyadic::dyadic_le(a2, ea2, b2, eb2),
    ensures
        crate::dyadic::dyadic_le(a, ea, b, eb),
{
    let e = if ea <= ea2 && ea <= eb && ea <= eb2 {
        ea
    } else if ea2 <= eb && ea2 <= eb2 {
        ea2
    } else if eb <= eb2 {
        eb
    } else {
        eb2
    };
    crate::dyadic::lemma_dyadic_eq_common(a, ea, a2, ea2, e);
    crate::dyadic::lemma_dyadic_eq_common(b, eb, b2, eb2, e);
    crate::dyadic::lemma_dyadic_le_common(a2, ea2, b2, eb2, e);
    crate::dyadic::lemma_dyadic_le_common(a, ea, b, eb, e);
}

/// Rounding is monotone on magnitudes that share a binade: a larger
/// value never rounds below a smaller one (precision measured from the
/// leading digit).
#[verifier::rlimit(100)]
#[verifier::spinoff_prover]
proof fn lemma_round_monotone_binade(
    m1: nat, e1: int, m2: nat, e2: int, neg: bool, prec1: u64, flags: u32,
)
    requires
        m1 >= 1,
        m2 >= 1,
        flags_wf(flags),
        prec1 >= 2,
        flags & BF_FLAG_RADPNT_PREC == 0,
        e1 + bit_length(m1) == e2 + bit_length(m2),
        crate::dyadic::dyadic_le(m1, e1, m2, e2),
    ensures
        spec_rounded_le(
            spec_round(m1, e1, neg, prec1, flags),
            spec_round(m2, e2, neg, prec1, flags),
            prec1,
            flags,
        ),
{
    let ec = if e1 <= e2 {
        e1
    } else {
        e2
    };
    let t1 = (e1 - ec) as nat;
    let t2 = (e2 - ec) as nat;
    let mm1 = (m1 * pow2(t1)) as nat;
    let mm2 = (m2 * pow2(t2)) as nat;
    lemma_round_scale_value(m1, e1, t1, neg, prec1, flags);
    lemma_round_scale_value(m2, e2, t2, neg, prec1, flags);
    crate::dyadic::lemma_bit_length_shift(m1, t1);
    crate::dyadic::lemma_bit_length_shift(m2, t2);
    crate::dyadic::lemma_dyadic_le_common(m1, e1, m2, e2, ec);
    let n = bit_length(mm1) as int;
    assert(bit_length(mm2) == n);
    assert(mm1 <= mm2);
    lemma_pow2_pos(t1);
    lemma_pow2_pos(t2);
    lemma_mul_strictly_positive(m1 as int, pow2(t1) as int);
    lemma_mul_strictly_positive(m2 as int, pow2(t2) as int);
    let r1c = spec_round(mm1, ec, neg, prec1, flags);
    let r2c = spec_round(mm2, ec, neg, prec1, flags);
    // the core: monotonicity at a common scale and bit length
    let expn = ec + n;
    let mode = spec_rnd_mode(flags);
    let p = spec_eff_prec(prec1, flags, expn);
    let e_min = spec_e_min(flags);
    let e_max = spec_e_max(flags);
    lemma2_to64();
    lemma_mul_basics(mm1 as int);
    lemma_mul_basics(mm2 as int);
    lemma_mul_basics(1int);
    lemma_flags_range(flags);
    if p >= n {
        assert(spec_rounded_le(r1c, r2c, prec1, flags));
    } else {
        let d = (n - p) as nat;
        let q1 = spec_round_mant(mode, neg, mm1, d);
        let q2 = spec_round_mant(mode, neg, mm2, d);
        lemma_round_mant_monotone(mode, neg, mm1, mm2, d);
        if p <= 0 {
            // quotients are zero; the addend is at most one on each side
            lemma_pow2_pos(d);
            assert(mm1 / pow2(d) == 0 && mm2 / pow2(d) == 0) by {
                lemma_bit_length_bounds(mm1);
                lemma_bit_length_bounds(mm2);
                assert(mm1 < pow2(d)) by {
                    if (n as nat) != d {
                        lemma_pow2_strictly_increases(n as nat, d);
                    }
                }
                assert(mm2 < pow2(d)) by {
                    if (n as nat) != d {
                        lemma_pow2_strictly_increases(n as nat, d);
                    }
                }
                vstd::arithmetic::div_mod::lemma_basic_div(mm1 as int, pow2(d) as int);
                vstd::arithmetic::div_mod::lemma_basic_div(mm2 as int, pow2(d) as int);
            }
            assert(q1 <= 1 && q2 <= 1);
            assert(spec_rounded_le(r1c, r2c, prec1, flags)) by {
                if q1 > 0 {
                    assert(q2 > 0);
                    assert(dyadic_eq(1, expn - p, 1, expn - p));
                }
            }
        } else {
            lemma_round_mant_range(mode, neg, mm1, p);
            lemma_round_mant_range(mode, neg, mm2, p);
            lemma_pow2_pos((p - 1) as nat);
            let nb1 = bit_length(q1) as int;
            let nb2 = bit_length(q2) as int;
            lemma_bit_length_monotone(q1, q2);
            // each rounded mantissa has p or p+1 bits
            assert(nb1 == p || (nb1 == p + 1 && q1 == pow2(p as nat))) by {
                lemma_bit_length_bounds(q1);
                if q1 < pow2(p as nat) {
                    lemma_bit_length_unique(q1, p as nat);
                } else {
                    lemma_pow2_adds(p as nat, 1);
                    lemma_bit_length_unique(q1, (p + 1) as nat);
                }
            }
            assert(nb2 == p || (nb2 == p + 1 && q2 == pow2(p as nat))) by {
                lemma_bit_length_bounds(q2);
                if q2 < pow2(p as nat) {
                    lemma_bit_length_unique(q2, p as nat);
                } else {
                    lemma_pow2_adds(p as nat, 1);
                    lemma_bit_length_unique(q2, (p + 1) as nat);
                }
            }
            let x1 = ec + d + nb1;
            let x2 = ec + d + nb2;
            assert(x1 <= x2);
            // precision from the leading digit is never wider than prec1
            assert(p <= prec1);
            if x2 < e_min && flags & BF_FLAG_SUBNORMAL == 0 {
                assert(x1 < e_min);
                assert(spec_rounded_le(r1c, r2c, prec1, flags));
            } else if x2 <= e_max {
                assert(spec_rounded_le(r1c, r2c, prec1, flags)) by {
                    if !(x1 < e_min && flags & BF_FLAG_SUBNORMAL == 0) {
                        assert(x1 <= e_max);
                        lemma_mul_basics(q1 as int);
                        lemma_mul_basics(q2 as int);
                        assert(crate::dyadic::dyadic_le(q1, ec + d, q2, ec + d));
                    }
                }
            } else {
                // the larger side overflowed
                if x1 > e_max {
                    assert(spec_rounded_le(r1c, r2c, prec1, flags));
                } else if x1 < e_min && flags & BF_FLAG_SUBNORMAL == 0 {
                    assert(spec_rounded_le(r1c, r2c, prec1, flags));
                } else {
                    // r1 finite against the overflow result
                    if spec_ovf_is_inf(mode, neg, prec1) {
                        assert(spec_rounded_le(r1c, r2c, prec1, flags));
                    } else {
                        // expn sits exactly at e_max; the kept value is at
                        // most the largest finite magnitude
                        assert(x1 == expn && x2 == expn + 1);
                        assert(nb1 == p);
                        assert(expn == e_max);
                        // subnormal narrowing is off at e_max, so p == prec1
                        assert(p == prec1);
                        assert(ec + d == e_max - prec1);
                        assert(q1 <= pow2(prec1 as nat) - 1) by {
                            lemma_bit_length_bounds(q1);
                        }
                        lemma_mul_basics(q1 as int);
                        lemma_mul_basics((pow2(prec1 as nat) - 1) as int);
                        assert(crate::dyadic::dyadic_le(
                            q1,
                            ec + d,
                            (pow2(prec1 as nat) - 1) as nat,
                            e_max - prec1,
                        ));
                        assert(spec_rounded_le(r1c, r2c, prec1, flags));
                    }
                }
            }
        }
    }
    // transfer back through the scale equivalences
    assert(spec_rounded_le(
        spec_round(m1, e1, neg, prec1, flags),
        spec_round(m2, e2, neg, prec1, flags),
        prec1,
        flags,
    )) by {
        let ra = spec_round(m1, e1, neg, prec1, flags);
        let rb = spec_round(m2, e2, neg, prec1, flags);
        match (ra, r1c, rb, r2c) {
            (
                Rounded::Fin(a, eaa),
                Rounded::Fin(a2, ea2),
                Rounded::Fin(b, ebb),
                Rounded::Fin(b2, eb2),
            ) => {
                lemma_dyadic_le_compat(a, eaa, a2, ea2, b, ebb, b2, eb2);
            },
            (Rounded::Fin(a, eaa), Rounded::Fin(a2, ea2), _, _) => {
                if r2c is Max {
                    lemma_dyadic_le_compat(
                        a,
                        eaa,
                        a2,
                        ea2,
                        (pow2(prec1 as nat) - 1) as nat,
                        spec_e_max(flags) - prec1,
                        (pow2(prec1 as nat) - 1) as nat,
                        spec_e_max(flags) - prec1,
                    );
                    assert(dyadic_eq(
                        (pow2(prec1 as nat) - 1) as nat,
                        spec_e_max(flags) - prec1,
                        (pow2(prec1 as nat) - 1) as nat,
                        spec_e_max(flags) - prec1,
                    )) by {
                        lemma_pow2_pos(prec1 as nat);
                        lemma_mul_basics((pow2(prec1 as nat) - 1) as int);
                    }
                }
            },
            _ => {
            },
        }
    }
}

/// `2^x <= 2^y` as dyadic values when `x <= y`.
proof fn lemma_dyadic_le_pow2(x: int, y: int)
    requires
        x <= y,
    ensures
        dyadic_le(1, x, 1, y),
{
    lemma2_to64();
    lemma_mul_basics(1int);
    if x < y {
        lemma_pow2_pos((y - x) as nat);
        lemma_mul_basics(pow2((y - x) as nat) as int);
    }
}

/// Transitivity of the dyadic order.
proof fn lemma_dyadic_le_trans(m1: nat, e1: int, m2: nat, e2: int, m3: nat, e3: int)
    requires
        dyadic_le(m1, e1, m2, e2),
        dyadic_le(m2, e2, m3, e3),
    ensures
        dyadic_le(m1, e1, m3, e3),
{
    let e = if e1 <= e2 && e1 <= e3 {
        e1
    } else if e2 <= e3 {
        e2
    } else {
        e3
    };
    lemma_dyadic_le_common(m1, e1, m2, e2, e);
    lemma_dyadic_le_common(m2, e2, m3, e3, e);
    lemma_dyadic_le_common(m1, e1, m3, e3, e);
}

/// A positive magnitude sits between the powers of two its bit length
/// names, as dyadic values.
proof fn lemma_dyadic_le_lead(m: nat, e: int)
    requires
        m >= 1,
    ensures
        dyadic_le(1, e + bit_length(m) - 1, m, e),
        dyadic_le(m, e, 1, e + bit_length(m)),
{
    lemma_bit_length_bounds(m);
    let n = bit_length(m) as int;
    lemma_mul_basics(pow2((n - 1) as nat) as int);
    lemma_mul_basics(pow2(n as nat) as int);
}

/// The largest finite magnitude at the target precision is at least
/// `2^(e_max - 1)`.
proof fn lemma_vmax_lb(prec1: u64, flags: u32)
    requires
        flags_wf(flags),
        prec1 >= 2,
    ensures
        dyadic_le(
            1,
            spec_e_max(flags) - 1,
            (pow2(prec1 as nat) - 1) as nat,
            spec_e_max(flags) - prec1,
        ),
{
    lemma_pow2_adds((prec1 - 1) as nat, 1);
    lemma2_to64();
    lemma_pow2_pos((prec1 - 1) as nat);
    lemma_mul_basics(pow2((prec1 - 1) as nat) as int);
    assert(pow2(prec1 as nat) == 2 * pow2((prec1 - 1) as nat));
}

/// The rounded mantissa at effective precision `p >= 1` has `p` bits, or
/// is exactly `2^p` and has `p + 1`.
proof fn lemma_round_mant_bits(mode: u32, neg: bool, m: nat, p: int)
    requires
        p >= 1,
        bit_length(m) > p,
    ensures
        ({
            let q2 = spec_round_mant(mode, neg, m, (bit_length(m) - p) as nat);
            let nb = bit_length(q2) as int;
            q2 >= 1 && p <= nb && (nb == p || (nb == p + 1 && q2 == pow2(p as nat)))
        }),
{
    lemma_round_mant_range(mode, neg, m, p);
    let q2 = spec_round_mant(mode, neg, m, (bit_length(m) - p) as nat);
    lemma_pow2_pos((p - 1) as nat);
    lemma_bit_length_bounds(q2);
    if q2 < pow2(p as nat) {
        lemma_bit_length_unique(q2, p as nat);
    } else {
        lemma_pow2_adds(p as nat, 1);
        lemma2_to64();
        lemma_bit_length_unique(q2, (p + 1) as nat);
    }
}

/// Where overflow strikes: only at a leading exponent at or above
/// `e_max`, always above it, and the mode alone picks infinity or the
/// largest finite magnitude.
proof fn lemma_round_ovf(m: nat, e: int, neg: bool, prec1: u64, flags: u32)
    requires
        m >= 1,
        flags_wf(flags),
        prec1 >= 2,
        flags & BF_FLAG_RADPNT_PREC == 0,
    ensures
        (spec_round(m, e, neg, prec1, flags) is Inf || spec_round(m, e, neg, prec1, flags)
            is Max) ==> e + bit_length(m) >= spec_e_max(flags),
        spec_round(m, e, neg, prec1, flags) is Inf ==> spec_ovf_is_inf(
            spec_rnd_mode(flags),
            neg,
            prec1,
        ),
        spec_round(m, e, neg, prec1, flags) is Max ==> !spec_ovf_is_inf(
            spec_rnd_mode(flags),
            neg,
            prec1,
        ),
        e + bit_length(m) > spec_e_max(flags) ==> spec_round(m, e, neg, prec1, flags) == (
        if spec_ovf_is_inf(spec_rnd_mode(flags), neg, prec1) {
            Rounded::Inf
        } else {
            Rounded::Max
        }),
{
    let n = bit_length(m) as int;
    let expn = e + n;
    let mode = spec_rnd_mode(flags);
    let p = spec_eff_prec(prec1, flags, expn);
    let e_min = spec_e_min(flags);
    let e_max = spec_e_max(flags);
    lemma_flags_range(flags);
    lemma_bit_length_bounds(m);
    if p >= n {
        // only the exact branch's own guard can overflow
    } else if p <= 0 {
        // this branch returns zero or the smallest subnormal, never overflow
        assert(expn < e_min);
    } else {
        lemma_round_mant_bits(mode, neg, m, p);
        let q2 = spec_round_mant(mode, neg, m, (n - p) as nat);
        let nb = bit_length(q2) as int;
        assert(e + (n - p) + nb <= expn + 1);
        assert(e + (n - p) + nb >= expn);
        if expn > e_max {
            // no narrowing above the range: the effective precision is prec1
            assert(p == prec1);
        }
    }
    if expn > e_max {
        assert(spec_eff_prec(prec1, flags, expn) == prec1 as int);
    }
}

/// Any finite rounded result is at least the smallest representable
/// magnitude `2^(e_min - prec1)`.
proof fn lemma_round_fin_lb(m: nat, e: int, neg: bool, prec1: u64, flags: u32)
    requires
        m >= 1,
        flags_wf(flags),
        prec1 >= 2,
        flags & BF_FLAG_RADPNT_PREC == 0,
    ensures
        (match spec_round(m, e, neg, prec1, flags) {
            Rounded::Fin(q, f) => dyadic_le(1, spec_e_min(flags) - prec1, q, f),
            _ => true,
        }),
{
    let n = bit_length(m) as int;
    let expn = e + n;
    let mode = spec_rnd_mode(flags);
    let p = spec_eff_prec(prec1, flags, expn);
    let e_min = spec_e_min(flags);
    let e_max = spec_e_max(flags);
    lemma_flags_range(flags);
    lemma_bit_length_bounds(m);
    match spec_round(m, e, neg, prec1, flags) {
        Rounded::Fin(q, f) => {
            if p >= n {
                assert(q == m && f == e);
                lemma_dyadic_le_lead(m, e);
                if expn < e_min && flags & BF_FLAG_SUBNORMAL != 0 {
                    // narrowed: p = prec1 - (e_min - expn) >= n >= 1
                    assert(expn - 1 >= e_min - prec1);
                } else {
                    assert(expn >= e_min);
                    assert(expn - 1 >= e_min - prec1);
                }
                lemma_dyadic_le_pow2(e_min - prec1, expn - 1);
                lemma_dyadic_le_trans(1, e_min - prec1, 1, expn - 1, m, e);
            } else if p <= 0 {
                assert(expn < e_min && flags & BF_FLAG_SUBNORMAL != 0);
                assert(q == 1 && f == expn - p);
                assert(f == e_min - prec1);
                lemma_dyadic_le_pow2(e_min - prec1, f);
            } else {
                let drop = (n - p) as nat;
                lemma_round_mant_bits(mode, neg, m, p);
                let q2 = spec_round_mant(mode, neg, m, drop);
                let nb = bit_length(q2) as int;
                assert(q == q2 && f == e + drop);
                let x = f + nb;
                lemma_dyadic_le_lead(q2, f);
                if expn < e_min && flags & BF_FLAG_SUBNORMAL != 0 {
                    // narrowed subnormal: the scale is pinned at e_min - prec1
                    assert(p == prec1 - (e_min - expn));
                    assert(f == e_min - prec1);
                    assert(x - 1 >= e_min - prec1);
                } else {
                    // kept results sit at or above e_min
                    assert(p == prec1);
                    assert(!(x < e_min && flags & BF_FLAG_SUBNORMAL == 0));
                    if flags & BF_FLAG_SUBNORMAL != 0 {
                        assert(expn >= e_min);
                        assert(x >= e_min);
                    } else {
                        assert(x >= e_min);
                    }
                    assert(x - 1 >= e_min - prec1);
                }
                lemma_dyadic_le_pow2(e_min - prec1, x - 1);
                lemma_dyadic_le_trans(1, e_min - prec1, 1, x - 1, q2, f);
            }
        },
        _ => {
        },
    }
}

/// Any finite rounded result is at least `2^(expn - 1)`, the bottom of
/// the input's binade.
proof fn lemma_round_fin_lb_expn(m: nat, e: int, neg: bool, prec1: u64, flags: u32)
    requires
        m >= 1,
        flags_wf(flags),
        prec1 >= 2,
        flags & BF_FLAG_RADPNT_PREC == 0,
    ensures
        (match spec_round(m, e, neg, prec1, flags) {
            Rounded::Fin(q, f) => dyadic_le(1, e + bit_length(m) - 1, q, f),
            _ => true,
        }),
{
    let n = bit_length(m) as int;
    let expn = e + n;
    let mode = spec_rnd_mode(flags);
    let p = spec_eff_prec(prec1, flags, expn);
    let e_min = spec_e_min(flags);
    lemma_flags_range(flags);
    lemma_bit_length_bounds(m);
    match spec_round(m, e, neg, prec1, flags) {
        Rounded::Fin(q, f) => {
            if p >= n {
                lemma_dyadic_le_lead(m, e);
            } else if p <= 0 {
                // the smallest subnormal is above the whole binade
                assert(q == 1 && f == expn - p);
                assert(f >= expn);
                lemma_dyadic_le_pow2(expn - 1, f);
            } else {
                let drop = (n - p) as nat;
                lemma_round_mant_bits(mode, neg, m, p);
                let q2 = spec_round_mant(mode, neg, m, drop);
                let nb = bit_length(q2) as int;
                assert(q == q2 && f == e + drop);
                let x = f + nb;
                assert(x >= expn);
                lemma_dyadic_le_lead(q2, f);
                lemma_dyadic_le_pow2(expn - 1, x - 1);
                lemma_dyadic_le_trans(1, expn - 1, 1, x - 1, q2, f);
            }
        },
        _ => {
        },
    }
}

/// Any finite rounded result is at most `2^expn`, except the smallest
/// subnormal, which names itself.
proof fn lemma_round_fin_ub(m: nat, e: int, neg: bool, prec1: u64, flags: u32)
    requires
        m >= 1,
        flags_wf(flags),
        prec1 >= 2,
        flags & BF_FLAG_RADPNT_PREC == 0,
    ensures
        (match spec_round(m, e, neg, prec1, flags) {
            Rounded::Fin(q, f) => dyadic_le(q, f, 1, e + bit_length(m)) || (q == 1 && f
                == spec_e_min(flags) - prec1),
            _ => true,
        }),
{
    let n = bit_length(m) as int;
    let expn = e + n;
    let mode = spec_rnd_mode(flags);
    let p = spec_eff_prec(prec1, flags, expn);
    let e_min = spec_e_min(flags);
    lemma_flags_range(flags);
    lemma_bit_length_bounds(m);
    match spec_round(m, e, neg, prec1, flags) {
        Rounded::Fin(q, f) => {
            if p >= n {
                lemma_dyadic_le_lead(m, e);
            } else if p <= 0 {
                assert(q == 1 && f == expn - p);
                assert(f == e_min - prec1);
            } else {
                let drop = (n - p) as nat;
                lemma_round_mant_range(mode, neg, m, p);
                let q2 = spec_round_mant(mode, neg, m, drop);
                assert(q == q2 && f == e + drop);
                // q2 <= 2^p at scale e + drop is 2^expn
                assert(dyadic_le(q2, f, 1, expn)) by {
                    lemma_mul_basics(pow2(p as nat) as int);
                    assert(expn - f == p);
                }
            }
        },
        _ => {
        },
    }
}

/// Any finite rounded result is at most the largest finite magnitude at
/// the target precision, `(2^prec1 - 1) * 2^(e_max - prec1)`.
proof fn lemma_round_fin_ub_max(m: nat, e: int, neg: bool, prec1: u64, flags: u32)
    requires
        m >= 1,
        flags_wf(flags),
        prec1 >= 2,
        flags & BF_FLAG_RADPNT_PREC == 0,
    ensures
        (match spec_round(m, e, neg, prec1, flags) {
            Rounded::Fin(q, f) => dyadic_le(
                q,
                f,
                (pow2(prec1 as nat) - 1) as nat,
                spec_e_max(flags) - prec1,
            ),
            _ => true,
        }),
{
    let n = bit_length(m) as int;
    let expn = e + n;
    let mode = spec_rnd_mode(flags);
    let p = spec_eff_prec(prec1, flags, expn);
    let e_min = spec_e_min(flags);
    let e_max = spec_e_max(flags);
    let vm = (pow2(prec1 as nat) - 1) as nat;
    lemma_flags_range(flags);
    lemma_bit_length_bounds(m);
    lemma_vmax_lb(prec1, flags);
    lemma_pow2_pos(prec1 as nat);
    match spec_round(m, e, neg, prec1, flags) {
        Rounded::Fin(q, f) => {
            if p >= n {
                assert(q == m && f == e);
                assert(expn <= e_max);
                if expn <= e_max - 1 {
                    lemma_dyadic_le_lead(m, e);
                    lemma_dyadic_le_pow2(expn, e_max - 1);
                    lemma_dyadic_le_trans(m, e, 1, expn, 1, e_max - 1);
                    lemma_dyadic_le_trans(m, e, 1, e_max - 1, vm, e_max - prec1);
                } else {
                    // expn == e_max: not narrowed, so n <= prec1
                    assert(p == prec1 as int);
                    assert(n <= prec1);
                    // at scale e_max - prec1: m * 2^(prec1-n) <= 2^prec1 - 1
                    assert(dyadic_le(m, e, vm, e_max - prec1)) by {
                        assert(e - (e_max - prec1) == prec1 - n);
                        lemma_pow2_adds((prec1 - n) as nat, n as nat);
                        assert(m * pow2((prec1 - n) as nat) <= (pow2(n as nat) - 1) * pow2(
                            (prec1 - n) as nat,
                        )) by {
                            lemma_mul_inequality(
                                m as int,
                                pow2(n as nat) - 1,
                                pow2((prec1 - n) as nat) as int,
                            );
                        }
                        assert((pow2(n as nat) - 1) * pow2((prec1 - n) as nat) == pow2(
                            prec1 as nat,
                        ) - pow2((prec1 - n) as nat)) by (nonlinear_arith)
                            requires
                                pow2(prec1 as nat) == pow2((prec1 - n) as nat) * pow2(n as nat),
                        ;
                        lemma_pow2_pos((prec1 - n) as nat);
                    }
                }
            } else if p <= 0 {
                assert(q == 1 && f == expn - p);
                assert(f == e_min - prec1);
                lemma_dyadic_le_pow2(e_min - prec1, e_max - 1);
                lemma_dyadic_le_trans(1, f, 1, e_max - 1, vm, e_max - prec1);
            } else {
                let drop = (n - p) as nat;
                lemma_round_mant_bits(mode, neg, m, p);
                let q2 = spec_round_mant(mode, neg, m, drop);
                let nb = bit_length(q2) as int;
                assert(q == q2 && f == e + drop);
                let x = f + nb;
                assert(x <= e_max);
                assert(p <= prec1);
                if nb == p + 1 {
                    // q2 == 2^p: the value is exactly 2^(x-1)
                    assert(dyadic_le(q2, f, 1, x - 1)) by {
                        lemma_mul_basics(pow2(p as nat) as int);
                        assert((x - 1) - f == p);
                    }
                    lemma_dyadic_le_pow2(x - 1, e_max - 1);
                    lemma_dyadic_le_trans(q2, f, 1, x - 1, 1, e_max - 1);
                    lemma_dyadic_le_trans(q2, f, 1, e_max - 1, vm, e_max - prec1);
                } else if x <= e_max - 1 {
                    lemma_dyadic_le_lead(q2, f);
                    lemma_dyadic_le_pow2(x, e_max - 1);
                    lemma_dyadic_le_trans(q2, f, 1, x, 1, e_max - 1);
                    lemma_dyadic_le_trans(q2, f, 1, e_max - 1, vm, e_max - prec1);
                } else {
                    // x == e_max with nb == p: q2 <= 2^p - 1 at scale e_max - p
                    assert(nb == p && x == e_max);
                    assert(q2 <= pow2(p as nat) - 1) by {
                        lemma_bit_length_bounds(q2);
                    }
                    assert(dyadic_le(q2, f, vm, e_max - prec1)) by {
                        assert(f - (e_max - prec1) == prec1 - p);
                        lemma_pow2_adds((prec1 - p) as nat, p as nat);
                        assert(q2 * pow2((prec1 - p) as nat) <= (pow2(p as nat) - 1) * pow2(
                            (prec1 - p) as nat,
                        )) by {
                            lemma_mul_inequality(
                                q2 as int,
                                pow2(p as nat) - 1,
                                pow2((prec1 - p) as nat) as int,
                            );
                        }
                        assert((pow2(p as nat) - 1) * pow2((prec1 - p) as nat) == pow2(
                            prec1 as nat,
                        ) - pow2((prec1 - p) as nat)) by (nonlinear_arith)
                            requires
                                pow2(prec1 as nat) == pow2((prec1 - p) as nat) * pow2(p as nat),
                        ;
                        lemma_pow2_pos((prec1 - p) as nat);
                    }
                }
            }
        },
        _ => {
        },
    }
}

/// When the larger of two ordered magnitudes rounds to zero, so does
/// the smaller.
proof fn lemma_round_zero_forces(
    m1: nat, e1: int, m2: nat, e2: int, neg: bool, prec1: u64, flags: u32,
)
    requires
        m1 >= 1,
        m2 >= 1,
        flags_wf(flags),
        prec1 >= 2,
        flags & BF_FLAG_RADPNT_PREC == 0,
        dyadic_le(m1, e1, m2, e2),
        e1 + bit_length(m1) < e2 + bit_length(m2),
        spec_round(m2, e2, neg, prec1, flags) == Rounded::Zero,
    ensures
        spec_round(m1, e1, neg, prec1, flags) == Rounded::Zero,
{
    let n1 = bit_length(m1) as int;
    let n2 = bit_length(m2) as int;
    let expn1 = e1 + n1;
    let expn2 = e2 + n2;
    let mode = spec_rnd_mode(flags);
    let e_min = spec_e_min(flags);
    let e_max = spec_e_max(flags);
    let p1 = spec_eff_prec(prec1, flags, expn1);
    let p2 = spec_eff_prec(prec1, flags, expn2);
    lemma_flags_range(flags);
    lemma_bit_length_bounds(m1);
    lemma_bit_length_bounds(m2);
    if flags & BF_FLAG_SUBNORMAL == 0 {
        // zero comes only from underflow: expn2 < e_min, and m1 sits lower
        assert(p2 == prec1 as int);
        assert(expn2 < e_min) by {
            if expn2 >= e_min {
                if p2 >= n2 {
                    assert(!(spec_round(m2, e2, neg, prec1, flags) is Zero));
                } else {
                    lemma_round_mant_bits(mode, neg, m2, p2);
                    let q2 = spec_round_mant(mode, neg, m2, (n2 - p2) as nat);
                    assert(e2 + (n2 - p2) + bit_length(q2) >= expn2);
                }
            }
        }
        assert(p1 == prec1 as int);
        if p1 >= n1 {
            assert(expn1 < e_min);
        } else {
            lemma_round_mant_bits(mode, neg, m1, p1);
            let q1 = spec_round_mant(mode, neg, m1, (n1 - p1) as nat);
            assert(e1 + (n1 - p1) + bit_length(q1) <= expn1 + 1);
            assert(expn1 + 1 <= expn2);
        }
    } else {
        // zero comes only from the all-dropped branch: p2 <= 0 and no round-up
        assert(p2 <= 0 && p2 < n2) by {
            if p2 >= n2 {
                assert(!(spec_round(m2, e2, neg, prec1, flags) is Zero));
            } else if p2 > 0 {
                assert(!(spec_round(m2, e2, neg, prec1, flags) is Zero));
            }
        }
        assert(expn2 < e_min);
        assert(p2 == prec1 - (e_min - expn2));
        let drop2 = (n2 - p2) as nat;
        assert(spec_round_mant(mode, neg, m2, drop2) == 0);
        assert(expn1 < e_min);
        assert(p1 == prec1 - (e_min - expn1));
        assert(p1 < p2);
        assert(p1 <= 0 && p1 < n1);
        let drop1 = (n1 - p1) as nat;
        // both cuts sit at the absolute scale e_min - prec1
        assert(e1 + drop1 == e_min - prec1);
        assert(e2 + drop2 == e_min - prec1);
        let ec = if e1 <= e2 {
            e1
        } else {
            e2
        };
        let t1 = (e1 - ec) as nat;
        let t2 = (e2 - ec) as nat;
        let dd = (e_min - prec1 - ec) as nat;
        lemma_dyadic_le_common(m1, e1, m2, e2, ec);
        lemma_round_scale(mode, neg, m1, drop1, t1);
        lemma_round_scale(mode, neg, m2, drop2, t2);
        assert(drop1 + t1 == dd && drop2 + t2 == dd);
        lemma_round_mant_monotone(mode, neg, (m1 * pow2(t1)) as nat, (m2 * pow2(t2)) as nat, dd);
        assert(spec_round_mant(mode, neg, m1, drop1) == 0);
    }
}

/// Rounding is monotone: a larger magnitude never rounds below a
/// smaller one, in every mode and at every precision and exponent
/// policy (precision measured from the leading digit).
#[verifier::rlimit(100)]
#[verifier::spinoff_prover]
pub proof fn lemma_round_monotone(
    m1: nat, e1: int, m2: nat, e2: int, neg: bool, prec1: u64, flags: u32,
)
    requires
        m1 >= 1,
        m2 >= 1,
        flags_wf(flags),
        prec1 >= 2,
        flags & BF_FLAG_RADPNT_PREC == 0,
        dyadic_le(m1, e1, m2, e2),
    ensures
        spec_rounded_le(
            spec_round(m1, e1, neg, prec1, flags),
            spec_round(m2, e2, neg, prec1, flags),
            prec1,
            flags,
        ),
{
    let n1 = bit_length(m1) as int;
    let n2 = bit_length(m2) as int;
    let expn1 = e1 + n1;
    let expn2 = e2 + n2;
    let mode = spec_rnd_mode(flags);
    let e_min = spec_e_min(flags);
    let e_max = spec_e_max(flags);
    lemma_flags_range(flags);
    lemma_bit_length_bounds(m1);
    lemma_bit_length_bounds(m2);
    // the leading exponents are ordered
    assert(expn1 <= expn2) by {
        let ec = if e1 <= e2 {
            e1
        } else {
            e2
        };
        lemma_dyadic_le_common(m1, e1, m2, e2, ec);
        lemma_bit_length_shift(m1, (e1 - ec) as nat);
        lemma_bit_length_shift(m2, (e2 - ec) as nat);
        lemma_bit_length_bounds((m1 * pow2((e1 - ec) as nat)) as nat);
        lemma_bit_length_bounds((m2 * pow2((e2 - ec) as nat)) as nat);
        lemma_pow2_pos((e1 - ec) as nat);
        lemma_pow2_pos((e2 - ec) as nat);
        lemma_mul_strictly_positive(m1 as int, pow2((e1 - ec) as nat) as int);
        lemma_mul_strictly_positive(m2 as int, pow2((e2 - ec) as nat) as int);
        if expn1 > expn2 {
            // 2^(expn1-1) <= v1 <= v2 < 2^expn2 <= 2^(expn1-1)
            assert(pow2((expn2 - ec) as nat) <= pow2((expn1 - 1 - ec) as nat)) by {
                if expn2 < expn1 - 1 {
                    lemma_pow2_strictly_increases((expn2 - ec) as nat, (expn1 - 1 - ec) as nat);
                }
            }
        }
    }
    if expn1 == expn2 {
        lemma_round_monotone_binade(m1, e1, m2, e2, neg, prec1, flags);
    } else {
        let r1 = spec_round(m1, e1, neg, prec1, flags);
        let r2 = spec_round(m2, e2, neg, prec1, flags);
        lemma_round_ovf(m1, e1, neg, prec1, flags);
        lemma_round_ovf(m2, e2, neg, prec1, flags);
        if r1 is Inf || r1 is Max {
            // the larger side overflows the same way
            assert(expn2 > e_max);
            assert(spec_rounded_le(r1, r2, prec1, flags));
        } else if r1 is Zero {
            assert(spec_rounded_le(r1, r2, prec1, flags));
        } else {
            match r1 {
                Rounded::Fin(q1, f1) => {
                    if r2 is Zero {
                        lemma_round_zero_forces(m1, e1, m2, e2, neg, prec1, flags);
                        assert(false);
                    } else if r2 is Inf {
                        assert(spec_rounded_le(r1, r2, prec1, flags));
                    } else if r2 is Max {
                        lemma_round_fin_ub_max(m1, e1, neg, prec1, flags);
                        assert(spec_rounded_le(r1, r2, prec1, flags));
                    } else {
                        match r2 {
                            Rounded::Fin(q2, f2) => {
                                lemma_round_fin_ub(m1, e1, neg, prec1, flags);
                                if q1 == 1 && f1 == e_min - prec1 {
                                    // the smallest subnormal bounds every kept result
                                    lemma_round_fin_lb(m2, e2, neg, prec1, flags);
                                } else {
                                    // value(r1) <= 2^expn1 <= 2^(expn2-1) <= value(r2)
                                    lemma_round_fin_lb_expn(m2, e2, neg, prec1, flags);
                                    lemma_dyadic_le_pow2(expn1, expn2 - 1);
                                    lemma_dyadic_le_trans(q1, f1, 1, expn1, 1, expn2 - 1);
                                    lemma_dyadic_le_trans(q1, f1, 1, expn2 - 1, q2, f2);
                                }
                                assert(spec_rounded_le(r1, r2, prec1, flags));
                            },
                            _ => {
                            },
                        }
                    }
                },
                _ => {
                },
            }
        }
    }
}

} // verus!
