//! The mathematical model behind the contracts: bit lengths of natural
//! numbers, equality and order of dyadic values `m * 2^e`, and the
//! rounding function on mantissas that every operation's contract refers
//! to.

use vstd::prelude::*;
use vstd::arithmetic::power2::{pow2, lemma_pow2_adds, lemma_pow2_pos, lemma_pow2_strictly_increases, lemma2_to64};
use vstd::arithmetic::mul::{lemma_mul_inequality, lemma_mul_basics, lemma_mul_is_associative, lemma_mul_strict_inequality};
use vstd::arithmetic::div_mod::{lemma_fundamental_div_mod, lemma_fundamental_div_mod_converse};

verus! {

/// Number of bits of a natural number (0 for 0).
pub open spec fn bit_length(m: nat) -> nat
    decreases m,
{
    if m == 0 {
        0
    } else {
        (1 + bit_length(m / 2)) as nat
    }
}

/// A positive number lies between the two powers of two its bit length
/// names.
pub proof fn lemma_bit_length_bounds(m: nat)
    requires
        m > 0,
    ensures
        bit_length(m) >= 1,
        pow2((bit_length(m) - 1) as nat) <= m < pow2(bit_length(m)),
    decreases m,
{
    if m == 1 {
        lemma2_to64();
        assert(bit_length(1nat) == 1 + bit_length(0nat));
        assert(bit_length(0nat) == 0);
    } else {
        lemma_bit_length_bounds(m / 2);
        let bl = bit_length(m / 2);
        assert(bit_length(m) == bl + 1);
        lemma_fundamental_div_mod(m as int, 2);
        assert(pow2((bl - 1) as nat) <= m / 2 < pow2(bl));
        assert(pow2(bl) == 2 * pow2((bl - 1) as nat)) by {
            lemma_pow2_adds(1, (bl - 1) as nat);
            lemma2_to64();
        }
        assert(pow2((bl + 1) as nat) == 2 * pow2(bl)) by {
            lemma_pow2_adds(1, bl);
            lemma2_to64();
        }
        assert(m == 2 * (m / 2) + m % 2);
        assert(m % 2 < 2);
        assert(m >= 2 * pow2((bl - 1) as nat));
        assert(m < 2 * pow2(bl));
    }
}

/// The bit length is determined by any enclosing power-of-two interval.
pub proof fn lemma_bit_length_unique(m: nat, n: nat)
    requires
        n >= 1,
        pow2((n - 1) as nat) <= m < pow2(n),
    ensures
        bit_length(m) == n,
{
    lemma_pow2_pos((n - 1) as nat);
    lemma_bit_length_bounds(m);
    let bl = bit_length(m);
    if bl < n {
        lemma_pow2_strictly_increases(bl, n);
        assert(pow2(bl) <= pow2((n - 1) as nat)) by {
            if bl < n - 1 {
                lemma_pow2_strictly_increases(bl, (n - 1) as nat);
            }
        }
        assert(false);
    }
    if bl > n {
        assert(pow2(n) <= pow2((bl - 1) as nat)) by {
            if n < bl - 1 {
                lemma_pow2_strictly_increases(n, (bl - 1) as nat);
            }
        }
        assert(false);
    }
}

/// Multiplying by `2^k` adds `k` to the bit length.
pub proof fn lemma_bit_length_shift(m: nat, k: nat)
    requires
        m > 0,
    ensures
        bit_length(m * pow2(k)) == bit_length(m) + k,
{
    lemma_bit_length_bounds(m);
    let bl = bit_length(m);
    lemma_pow2_pos(k);
    assert(m * pow2(k) >= pow2((bl - 1) as nat) * pow2(k)) by {
        lemma_mul_inequality(pow2((bl - 1) as nat) as int, m as int, pow2(k) as int);
    }
    assert(m * pow2(k) < pow2(bl) * pow2(k)) by {
        lemma_mul_strict_inequality(m as int, pow2(bl) as int, pow2(k) as int);
    }
    lemma_pow2_adds((bl - 1) as nat, k);
    lemma_pow2_adds(bl, k);
    lemma_pow2_pos((bl - 1) as nat);
    assert(m * pow2(k) > 0) by {
        lemma_pow2_pos(k);
        vstd::arithmetic::mul::lemma_mul_strictly_positive(m as int, pow2(k) as int);
    }
    lemma_bit_length_unique(m * pow2(k), bl + k);
}

/// `m * 2^e1 == n * 2^e2`, stated without rationals by scaling the side
/// with the larger exponent.
pub open spec fn dyadic_eq(m1: nat, e1: int, m2: nat, e2: int) -> bool {
    if e1 >= e2 {
        m1 * pow2((e1 - e2) as nat) == m2
    } else {
        m2 * pow2((e2 - e1) as nat) == m1
    }
}

/// `m1 * 2^e1 <= m2 * 2^e2`, scaled the same way.
pub open spec fn dyadic_le(m1: nat, e1: int, m2: nat, e2: int) -> bool {
    if e1 >= e2 {
        m1 * pow2((e1 - e2) as nat) <= m2
    } else {
        m1 <= m2 * pow2((e2 - e1) as nat)
    }
}

/// Both scalings agree: comparing at any common exponent below both gives
/// the same answer.
pub proof fn lemma_dyadic_le_common(m1: nat, e1: int, m2: nat, e2: int, e: int)
    requires
        e <= e1,
        e <= e2,
    ensures
        dyadic_le(m1, e1, m2, e2) <==> m1 * pow2((e1 - e) as nat) <= m2 * pow2((e2 - e) as nat),
{
    if e1 >= e2 {
        lemma_pow2_adds((e1 - e2) as nat, (e2 - e) as nat);
        lemma_mul_is_associative(m1 as int, pow2((e1 - e2) as nat) as int, pow2((e2 - e) as nat) as int);
        lemma_pow2_pos((e2 - e) as nat);
        assert(m1 * pow2((e1 - e) as nat) == (m1 * pow2((e1 - e2) as nat)) * pow2((e2 - e) as nat));
        if m1 * pow2((e1 - e2) as nat) <= m2 {
            lemma_mul_inequality((m1 * pow2((e1 - e2) as nat)) as int, m2 as int, pow2((e2 - e) as nat) as int);
        }
        if (m1 * pow2((e1 - e2) as nat)) * pow2((e2 - e) as nat) <= m2 * pow2((e2 - e) as nat) {
            lemma_mul_cancel_le((m1 * pow2((e1 - e2) as nat)) as int, m2 as int, pow2((e2 - e) as nat) as int);
        }
    } else {
        lemma_pow2_adds((e2 - e1) as nat, (e1 - e) as nat);
        lemma_mul_is_associative(m2 as int, pow2((e2 - e1) as nat) as int, pow2((e1 - e) as nat) as int);
        lemma_pow2_pos((e1 - e) as nat);
        assert(m2 * pow2((e2 - e) as nat) == (m2 * pow2((e2 - e1) as nat)) * pow2((e1 - e) as nat));
        if m1 <= m2 * pow2((e2 - e1) as nat) {
            lemma_mul_inequality(m1 as int, (m2 * pow2((e2 - e1) as nat)) as int, pow2((e1 - e) as nat) as int);
        }
        if m1 * pow2((e1 - e) as nat) <= (m2 * pow2((e2 - e1) as nat)) * pow2((e1 - e) as nat) {
            lemma_mul_cancel_le(m1 as int, (m2 * pow2((e2 - e1) as nat)) as int, pow2((e1 - e) as nat) as int);
        }
    }
}

/// Cancel a positive factor in a product inequality.
pub proof fn lemma_mul_cancel_le(x: int, y: int, p: int) by (nonlinear_arith)
    requires
        p > 0,
        x * p <= y * p,
    ensures
        x <= y,
{
}

/// The same, for equality of dyadic pairs at a common exponent.
pub proof fn lemma_dyadic_eq_common(m1: nat, e1: int, m2: nat, e2: int, e: int)
    requires
        e <= e1,
        e <= e2,
    ensures
        dyadic_eq(m1, e1, m2, e2) <==> m1 * pow2((e1 - e) as nat) == m2 * pow2((e2 - e) as nat),
{
    lemma_dyadic_le_common(m1, e1, m2, e2, e);
    lemma_dyadic_le_common(m2, e2, m1, e1, e);
    lemma2_to64();
    lemma_mul_basics(m1 as int);
    lemma_mul_basics(m2 as int);
    if e1 >= e2 {
        assert(dyadic_le(m2, e2, m1, e1) <==> m2 <= m1 * pow2((e1 - e2) as nat));
    } else {
        assert(dyadic_le(m1, e1, m2, e2) <==> m1 <= m2 * pow2((e2 - e1) as nat));
    }
}

/// Rounding modes, as the flag word's low bits name them.
pub open spec fn spec_rnd_up(mode: u32, neg: bool, q: nat, rb: bool, sb: bool) -> bool {
    if mode == 0 {  // nearest, ties to even
        rb && (sb || q % 2 == 1)
    } else if mode == 1 {  // toward zero
        false
    } else if mode == 2 {  // toward -infinity
        (rb || sb) && neg
    } else if mode == 3 {  // toward +infinity
        (rb || sb) && !neg
    } else if mode == 4 {  // nearest, ties away from zero
        rb
    } else if mode == 5 {  // away from zero
        rb || sb
    } else {  // faithful: round bit decides, inexactness is not tracked
        rb
    }
}

/// The round bit: bit `drop-1` of `m` (0 when there is no such bit).
pub open spec fn spec_round_bit(m: nat, drop: nat) -> bool {
    if drop >= 1 {
        (m / pow2((drop - 1) as nat)) % 2 == 1
    } else {
        false
    }
}

/// The sticky bit: OR of the bits of `m` strictly below `drop-1`.
pub open spec fn spec_sticky_bit(m: nat, drop: nat) -> bool {
    if drop >= 1 {
        m % pow2((drop - 1) as nat) != 0
    } else {
        false
    }
}

/// Rounding `m` with its low `drop` bits discarded: the truncated
/// quotient, plus one when the mode asks for it.
pub open spec fn spec_round_mant(mode: u32, neg: bool, m: nat, drop: nat) -> nat {
    let q = m / pow2(drop);
    if spec_rnd_up(mode, neg, q, spec_round_bit(m, drop), spec_sticky_bit(m, drop)) {
        q + 1
    } else {
        q
    }
}

/// Whether discarding the low `drop` bits of `m` loses information.
pub open spec fn spec_round_inexact(m: nat, drop: nat) -> bool {
    m % pow2(drop) != 0
}


/// Dyadic equality is transitive.
pub proof fn lemma_dyadic_eq_trans(m1: nat, e1: int, m2: nat, e2: int, m3: nat, e3: int)
    requires
        dyadic_eq(m1, e1, m2, e2),
        dyadic_eq(m2, e2, m3, e3),
    ensures
        dyadic_eq(m1, e1, m3, e3),
{
    let e = if e1 <= e2 && e1 <= e3 {
        e1
    } else if e2 <= e3 {
        e2
    } else {
        e3
    };
    lemma_dyadic_eq_common(m1, e1, m2, e2, e);
    lemma_dyadic_eq_common(m2, e2, m3, e3, e);
    lemma_dyadic_eq_common(m1, e1, m3, e3, e);
}

/// Scaling both the number and the dropped-bit count leaves quotient and
/// remainder structure intact.
pub proof fn lemma_div_mod_scale(m: nat, d: nat, k: nat)
    ensures
        (m * pow2(k)) / pow2((d + k) as nat) == m / pow2(d),
        (m * pow2(k)) % pow2((d + k) as nat) == (m % pow2(d)) * pow2(k),
{
    lemma_pow2_pos(d);
    lemma_pow2_pos(k);
    lemma_pow2_pos((d + k) as nat);
    lemma_pow2_adds(d, k);
    lemma_fundamental_div_mod(m as int, pow2(d) as int);
    let q = m as int / pow2(d) as int;
    let r = m as int % pow2(d) as int;
    assert(m == q * pow2(d) + r);
    assert(m * pow2(k) == (q * pow2(d) + r) * pow2(k)) by {
        lemma_mul_eq_left(m as int, q * pow2(d) + r, pow2(k) as int);
    }
    assert((q * pow2(d) + r) * pow2(k) == (q * pow2(d)) * pow2(k) + r * pow2(k)) by {
        vstd::arithmetic::mul::lemma_mul_is_distributive_add_other_way(
            pow2(k) as int,
            q * pow2(d),
            r,
        );
    }
    assert((q * pow2(d)) * pow2(k) == q * pow2((d + k) as nat)) by {
        lemma_mul_is_associative(q, pow2(d) as int, pow2(k) as int);
    }
    assert(r * pow2(k) < pow2((d + k) as nat)) by {
        vstd::arithmetic::mul::lemma_mul_strict_inequality(r, pow2(d) as int, pow2(k) as int);
    }
    assert(r * pow2(k) >= 0) by {
        vstd::arithmetic::mul::lemma_mul_nonnegative(r, pow2(k) as int);
    }
    lemma_fundamental_div_mod_converse(
        (m * pow2(k)) as int,
        pow2((d + k) as nat) as int,
        q,
        r * pow2(k),
    );
}

/// Multiplying equal quantities by the same factor.
proof fn lemma_mul_eq_left(x: int, y: int, p: int) by (nonlinear_arith)
    requires
        x == y,
    ensures
        x * p == y * p,
{
}

/// The rounding decision only looks at the quotient, round bit and sticky
/// bit, so it is invariant under scaling by a power of two.
pub proof fn lemma_round_scale(mode: u32, neg: bool, m: nat, d: nat, k: nat)
    requires
        d >= 1,
    ensures
        spec_round_mant(mode, neg, m * pow2(k), (d + k) as nat) == spec_round_mant(mode, neg, m, d),
        spec_round_inexact(m * pow2(k), (d + k) as nat) == spec_round_inexact(m, d),
        spec_round_bit(m * pow2(k), (d + k) as nat) == spec_round_bit(m, d),
        spec_sticky_bit(m * pow2(k), (d + k) as nat) == spec_sticky_bit(m, d),
{
    lemma_div_mod_scale(m, d, k);
    lemma_div_mod_scale(m, (d - 1) as nat, k);
    lemma_pow2_pos(k);
    lemma_pow2_pos(d);
    lemma_pow2_pos((d - 1) as nat);
    assert((d - 1) as nat + k == (d + k - 1) as nat);
    // sticky: the scaled remainder is zero exactly when the plain one is
    assert(((m % pow2((d - 1) as nat)) * pow2(k) == 0) == (m % pow2((d - 1) as nat) == 0)) by {
        lemma_mul_zero_iff((m % pow2((d - 1) as nat)) as int, pow2(k) as int);
    }
    assert(((m % pow2(d)) * pow2(k) == 0) == (m % pow2(d) == 0)) by {
        lemma_mul_zero_iff((m % pow2(d)) as int, pow2(k) as int);
    }
}

/// A product with a positive factor vanishes only with the other factor.
proof fn lemma_mul_zero_iff(x: int, p: int) by (nonlinear_arith)
    requires
        p > 0,
        x >= 0,
    ensures
        (x * p == 0) == (x == 0),
{
}

/// Composing two divisions by powers of two.
pub proof fn lemma_div_div_pow2(m: nat, a: nat, b: nat)
    ensures
        (m / pow2(a)) / pow2(b) == m / pow2((a + b) as nat),
{
    lemma_pow2_pos(a);
    lemma_pow2_pos(b);
    lemma_pow2_adds(a, b);
    vstd::arithmetic::div_mod::lemma_div_denominator(m as int, pow2(a) as int, pow2(b) as int);
}

/// Splitting a remainder by a product of powers of two into low and
/// middle parts.
pub proof fn lemma_mod_split_pow2(m: nat, a: nat, b: nat)
    ensures
        (m % pow2((a + b) as nat) == 0) <==> (m % pow2(a) == 0 && (m / pow2(a)) % pow2(b) == 0),
        (m % pow2((a + b) as nat) != 0) <==> (m % pow2(a) != 0 || (m / pow2(a)) % pow2(b) != 0),
{
    lemma_pow2_pos(a);
    lemma_pow2_pos(b);
    lemma_pow2_adds(a, b);
    vstd::arithmetic::div_mod::lemma_breakdown(m as int, pow2(a) as int, pow2(b) as int);
    let lo = m % pow2(a);
    let mid = (m / pow2(a)) % pow2(b);
    assert(m as int % (pow2(a) * pow2(b)) as int == pow2(a) * mid + lo);
    assert(pow2(a) * mid >= 0) by {
        vstd::arithmetic::mul::lemma_mul_nonnegative(pow2(a) as int, mid as int);
    }
    assert((pow2(a) * mid == 0) == (mid == 0)) by {
        lemma_mul_zero_iff(mid as int, pow2(a) as int);
        vstd::arithmetic::mul::lemma_mul_is_commutative(pow2(a) as int, mid as int);
    }
}

/// The parity of a value is the parity of its bottom limb.
pub proof fn lemma_parity_low(q: nat, b: nat)
    requires
        b >= 1,
    ensures
        q % 2 == (q % pow2(b)) % 2,
{
    lemma_mod_split_pow2(q, 1, (b - 1) as nat);
    lemma_pow2_pos(b);
    lemma_pow2_pos((b - 1) as nat);
    lemma2_to64();
    // q % 2^b == 2 * ((q/2) % 2^(b-1)) + q % 2
    vstd::arithmetic::div_mod::lemma_breakdown(q as int, 2, pow2((b - 1) as nat) as int);
    lemma_pow2_adds(1, (b - 1) as nat);
    let inner = (q / 2) % pow2((b - 1) as nat);
    assert(q % pow2(b) == 2 * inner + q % 2);
    assert((2 * inner + q % 2) % 2 == q % 2) by {
        vstd::arithmetic::div_mod::lemma_mod_multiples_vanish(
            inner as int,
            (q % 2) as int,
            2,
        );
        vstd::arithmetic::mul::lemma_mul_is_commutative(2, inner as int);
    }
}

} // verus!
