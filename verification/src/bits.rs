//! The mathematical view of a limb array: its value as a natural number,
//! written little-endian in base 2^64, together with the lemmas that
//! connect prefixes, suffixes and single limbs of the array to the
//! quotient and remainder of that value by powers of two.

use vstd::prelude::*;
use vstd::arithmetic::power2::*;
use vstd::arithmetic::div_mod::*;
use vstd::arithmetic::mul::*;

verus! {

/// Value of a little-endian limb array: `s[0] + s[1]*2^64 + s[2]*2^128 + ...`.
pub open spec fn limbs_val(s: Seq<u64>) -> nat
    decreases s.len(),
{
    if s.len() == 0 {
        0
    } else {
        (s[0] + limbs_val(s.subrange(1, s.len() as int)) * pow2(64)) as nat
    }
}

pub proof fn lemma_limbs_val_singleton(s: Seq<u64>)
    requires
        s.len() == 1,
    ensures
        limbs_val(s) == s[0],
{
    assert(limbs_val(s.subrange(1, 1)) == 0);
    assert(limbs_val(s) == (s[0] + 0 * pow2(64)) as nat);
}

/// Appending a limb adds its value at weight `2^(64*len)`.
pub proof fn lemma_limbs_val_push(s: Seq<u64>, x: u64)
    ensures
        limbs_val(s.push(x)) == limbs_val(s) + x * pow2(64 * s.len()),
    decreases s.len(),
{
    if s.len() == 0 {
        assert(s.push(x) =~= seq![x]);
        lemma_limbs_val_singleton(s.push(x));
        assert(pow2(0) == 1) by {
            lemma2_to64();
        }
    } else {
        let t = s.subrange(1, s.len() as int);
        assert(s.push(x).subrange(1, s.push(x).len() as int) =~= t.push(x));
        lemma_limbs_val_push(t, x);
        assert(limbs_val(s.push(x)) == s[0] + (limbs_val(t) + x * pow2(64 * t.len())) * pow2(64));
        lemma_mul_is_distributive_add_other_way(pow2(64) as int, limbs_val(t) as int, (x * pow2(64 * t.len())) as int);
        lemma_mul_is_associative(x as int, pow2(64 * t.len()) as int, pow2(64) as int);
        lemma_pow2_adds(64 * t.len(), 64);
        assert(64 * t.len() + 64 == 64 * s.len());
    }
}

/// The value of `len` limbs is below `2^(64*len)`.
pub proof fn lemma_limbs_val_bound(s: Seq<u64>)
    ensures
        limbs_val(s) < pow2(64 * s.len()),
    decreases s.len(),
{
    if s.len() == 0 {
        assert(pow2(0) == 1) by {
            lemma2_to64();
        }
    } else {
        let t = s.subrange(1, s.len() as int);
        lemma_limbs_val_bound(t);
        lemma_pow2_adds(64, 64 * t.len());
        assert(64 + 64 * t.len() == 64 * s.len());
        assert(limbs_val(t) * pow2(64) <= (pow2(64 * t.len()) - 1) * pow2(64)) by {
            lemma_mul_inequality(limbs_val(t) as int, pow2(64 * t.len()) - 1, pow2(64) as int);
        }
        lemma_mul_is_distributive_sub_other_way(pow2(64) as int, pow2(64 * t.len()) as int, 1);
        assert(s[0] < pow2(64)) by {
            lemma2_to64_rest();
        }
        lemma_mul_is_commutative(pow2(64 * t.len()) as int, pow2(64) as int);
        assert(limbs_val(t) * pow2(64) <= pow2(64 * s.len()) - pow2(64));
    }
}

/// Splitting the array at `i` splits the value: the low `i` limbs plus
/// the rest scaled by `2^(64*i)`.
pub proof fn lemma_limbs_val_split(s: Seq<u64>, i: int)
    requires
        0 <= i <= s.len(),
    ensures
        limbs_val(s) == limbs_val(s.subrange(0, i)) + limbs_val(
            s.subrange(i, s.len() as int),
        ) * pow2(64 * i as nat),
    decreases i,
{
    if i == 0 {
        assert(s.subrange(0, s.len() as int) =~= s);
        assert(pow2(0) == 1) by {
            lemma2_to64();
        }
        lemma_mul_basics(limbs_val(s) as int);
    } else {
        let t = s.subrange(1, s.len() as int);
        lemma_limbs_val_split(t, i - 1);
        assert(t.subrange(0, i - 1) =~= s.subrange(0, i).subrange(1, i));
        assert(t.subrange(i - 1, t.len() as int) =~= s.subrange(i, s.len() as int));
        let a = limbs_val(t.subrange(0, i - 1)) as int;
        let hi = limbs_val(s.subrange(i, s.len() as int)) as int;
        let p1 = pow2(64 * (i - 1) as nat) as int;
        let p64 = pow2(64) as int;
        assert(limbs_val(s.subrange(0, i)) == s[0] + a * p64);
        assert(limbs_val(t) == a + hi * p1);
        assert(limbs_val(s) == s[0] + (a + hi * p1) * p64);
        assert((a + hi * p1) * p64 == a * p64 + (hi * p1) * p64) by {
            lemma_mul_is_distributive_add_other_way(p64, a, hi * p1);
        }
        assert((hi * p1) * p64 == hi * (p1 * p64)) by {
            lemma_mul_is_associative(hi, p1, p64);
        }
        assert(p1 * p64 == pow2(64 * i as nat)) by {
            lemma_pow2_adds(64 * (i - 1) as nat, 64);
            assert(64 * (i - 1) as nat + 64 == 64 * i as nat);
        }
    }
}

/// The low `i` limbs are the value reduced modulo `2^(64*i)`, and the rest
/// is the quotient.
pub proof fn lemma_limbs_val_div_mod(s: Seq<u64>, i: int)
    requires
        0 <= i <= s.len(),
    ensures
        limbs_val(s.subrange(0, i)) == limbs_val(s) % pow2(64 * i as nat),
        limbs_val(s.subrange(i, s.len() as int)) == limbs_val(s) / pow2(64 * i as nat),
{
    lemma_limbs_val_split(s, i);
    lemma_limbs_val_bound(s.subrange(0, i));
    lemma_pow2_pos(64 * i as nat);
    let p = pow2(64 * i as nat) as int;
    let lo = limbs_val(s.subrange(0, i)) as int;
    let hi = limbs_val(s.subrange(i, s.len() as int)) as int;
    lemma_fundamental_div_mod_converse(lo + hi * p, p, hi, lo);
}

/// All limbs zero means value zero, and conversely.
pub proof fn lemma_limbs_val_zero(s: Seq<u64>)
    ensures
        limbs_val(s) == 0 <==> (forall|j: int| 0 <= j < s.len() ==> s[j] == 0),
    decreases s.len(),
{
    if s.len() > 0 {
        let t = s.subrange(1, s.len() as int);
        lemma_limbs_val_zero(t);
        lemma_pow2_pos(64);
        if limbs_val(s) == 0 {
            lemma_mul_nonnegative(limbs_val(t) as int, pow2(64) as int);
            assert(s[0] == 0);
            assert(limbs_val(t) * pow2(64) == 0);
            assert(limbs_val(t) == 0) by (nonlinear_arith)
                requires
                    limbs_val(t) * pow2(64) == 0,
                    pow2(64) > 0,
            ;
            assert forall|j: int| 0 <= j < s.len() implies s[j] == 0 by {
                if j > 0 {
                    assert(t[j - 1] == 0);
                }
            }
        } else {
            if forall|j: int| 0 <= j < s.len() ==> s[j] == 0 {
                assert forall|j: int| 0 <= j < t.len() implies t[j] == 0 by {
                    assert(s[j + 1] == 0);
                }
                assert(limbs_val(t) == 0);
                assert(false);
            }
        }
    }
}


/// Three-way split of the value at one limb index.
pub proof fn lemma_limbs_val_split3(s: Seq<u64>, k: int)
    requires
        0 <= k < s.len(),
    ensures
        limbs_val(s) == limbs_val(s.subrange(0, k)) + s[k] * pow2(64 * k as nat) + (limbs_val(
            s.subrange(k + 1, s.len() as int),
        ) * pow2(64)) * pow2(64 * k as nat),
{
    lemma_limbs_val_split(s, k);
    let t = s.subrange(k, s.len() as int);
    assert(limbs_val(t) == t[0] + limbs_val(t.subrange(1, t.len() as int)) * pow2(64));
    assert(t.subrange(1, t.len() as int) =~= s.subrange(k + 1, s.len() as int));
    let a = s[k] as int;
    let h = limbs_val(s.subrange(k + 1, s.len() as int)) as int;
    let p = pow2(64 * k as nat) as int;
    let p64 = pow2(64) as int;
    assert((a + h * p64) * p == a * p + (h * p64) * p) by {
        lemma_mul_is_distributive_add_other_way(p, a, h * p64);
    }
}

/// Updating one limb changes the value by the weighted difference.
pub proof fn lemma_limbs_val_update(s: Seq<u64>, k: int, v: u64)
    requires
        0 <= k < s.len(),
    ensures
        limbs_val(s.update(k, v)) == limbs_val(s) + (v - s[k]) * pow2(64 * k as nat),
{
    let s2 = s.update(k, v);
    lemma_limbs_val_split3(s, k);
    lemma_limbs_val_split3(s2, k);
    assert(s2.subrange(0, k) =~= s.subrange(0, k));
    assert(s2.subrange(k + 1, s.len() as int) =~= s.subrange(k + 1, s.len() as int));
    let a = s[k] as int;
    let b = v as int;
    let p = pow2(64 * k as nat) as int;
    assert(b * p - a * p == (b - a) * p) by {
        lemma_mul_is_distributive_sub_other_way(p, b, a);
    }
}

/// Equal-length arrays that agree above index `k` compare at index `k`.
pub proof fn lemma_limbs_val_cmp_at(a: Seq<u64>, b: Seq<u64>, k: int)
    requires
        a.len() == b.len(),
        0 <= k < a.len(),
        a[k] > b[k],
        forall|j: int| k < j < a.len() ==> a[j] == b[j],
    ensures
        limbs_val(a) > limbs_val(b),
{
    lemma_limbs_val_split3(a, k);
    lemma_limbs_val_split3(b, k);
    assert(a.subrange(k + 1, a.len() as int) =~= b.subrange(k + 1, b.len() as int));
    let p = pow2(64 * k as nat) as int;
    lemma_pow2_pos(64 * k as nat);
    lemma_limbs_val_bound(b.subrange(0, k));
    assert(a[k] * p >= b[k] * p + p) by {
        lemma_mul_inequality(b[k] as int + 1, a[k] as int, p);
        lemma_mul_is_distributive_add_other_way(p, b[k] as int, 1);
    }
}
/// A single limb read is the digit of the value in base 2^64.
pub proof fn lemma_limbs_val_index(s: Seq<u64>, i: int)
    requires
        0 <= i < s.len(),
    ensures
        s[i] == (limbs_val(s) / pow2(64 * i as nat)) % pow2(64),
{
    lemma_limbs_val_div_mod(s, i);
    let t = s.subrange(i, s.len() as int);
    lemma_limbs_val_div_mod(t, 1);
    assert(t.subrange(0, 1) =~= seq![s[i]]);
    lemma_limbs_val_singleton(t.subrange(0, 1));
}


/// A limb array whose top limb has its high bit set holds a value in
/// `[2^(64*len-1), 2^(64*len))`.
pub proof fn lemma_norm_val_range(s: Seq<u64>)
    requires
        s.len() >= 1,
        s[s.len() - 1] >= 0x8000_0000_0000_0000,
    ensures
        pow2((64 * s.len() - 1) as nat) <= limbs_val(s) < pow2(64 * s.len()),
{
    let l = s.len() as int;
    lemma_limbs_val_bound(s);
    lemma_limbs_val_split3(s, l - 1);
    assert(s.subrange(l, l) =~= Seq::<u64>::empty());
    lemma_pow2_pos((64 * (l - 1)) as nat);
    lemma_mul_basics(pow2((64 * (l - 1)) as nat) as int);
    assert(s[l - 1] * pow2((64 * (l - 1)) as nat) >= 0x8000_0000_0000_0000 * pow2(
        (64 * (l - 1)) as nat,
    )) by {
        lemma_mul_inequality(
            0x8000_0000_0000_0000,
            s[l - 1] as int,
            pow2((64 * (l - 1)) as nat) as int,
        );
    }
    assert(0x8000_0000_0000_0000 == pow2(63)) by {
        lemma2_to64_rest();
    }
    lemma_pow2_adds(63, (64 * (l - 1)) as nat);
    assert(63 + 64 * (l - 1) == 64 * l - 1);
    lemma_mul_basics(limbs_val(s.subrange(0, l - 1)) as int);
    lemma_limbs_val_bound(s.subrange(0, l - 1));
}

/// Conversely, a value at least `2^(64*len-1)` forces the top limb's high
/// bit.
pub proof fn lemma_val_range_norm(s: Seq<u64>)
    requires
        s.len() >= 1,
        limbs_val(s) >= pow2((64 * s.len() - 1) as nat),
    ensures
        s[s.len() - 1] >= 0x8000_0000_0000_0000,
{
    let l = s.len() as int;
    if s[l - 1] < 0x8000_0000_0000_0000 {
        lemma_limbs_val_split3(s, l - 1);
        assert(s.subrange(l, l) =~= Seq::<u64>::empty());
        lemma_mul_basics(pow2((64 * (l - 1)) as nat) as int);
        lemma_mul_basics(pow2(64) as int);
        lemma_pow2_pos((64 * (l - 1)) as nat);
        assert(0x8000_0000_0000_0000 == pow2(63)) by {
            lemma2_to64_rest();
        }
        assert(s[l - 1] * pow2((64 * (l - 1)) as nat) <= (pow2(63) - 1) * pow2(
            (64 * (l - 1)) as nat,
        )) by {
            lemma_mul_inequality(s[l - 1] as int, pow2(63) - 1, pow2((64 * (l - 1)) as nat) as int);
        }
        lemma_mul_is_distributive_sub_other_way(
            pow2((64 * (l - 1)) as nat) as int,
            pow2(63) as int,
            1,
        );
        lemma_pow2_adds(63, (64 * (l - 1)) as nat);
        assert(63 + 64 * (l - 1) == 64 * l - 1);
        lemma_limbs_val_bound(s.subrange(0, l - 1));
        assert(limbs_val(s) < pow2((64 * l - 1) as nat));
        assert(false);
    }
}

} // verus!
