//! Limb-level kernels: add, subtract, multiply-by-limb and compare on
//! little-endian arrays of 64-bit limbs.  Each contract relates the limb
//! arrays through `limbs_val`, so callers reason about natural numbers.

use vstd::prelude::*;
use vstd::arithmetic::power2::{pow2, lemma_pow2_adds, lemma_pow2_pos, lemma_pow2_strictly_increases, lemma2_to64, lemma2_to64_rest};
use vstd::arithmetic::mul::{lemma_mul_is_associative, lemma_mul_basics, lemma_mul_is_distributive_add, lemma_mul_is_distributive_add_other_way, lemma_mul_is_distributive_sub_other_way, lemma_mul_inequality};
use crate::bits::{limbs_val, lemma_limbs_val_push, lemma_limbs_val_split, lemma_limbs_val_update, lemma_limbs_val_zero, lemma_limbs_val_bound, lemma_limbs_val_cmp_at};

verus! {

/// One step of a carry-propagating addition loop, at limb weight `p`.
proof fn lemma_add_step(
    rv_old: int, rv_new: int, a_old: int, a_new: int, b_old: int, b_new: int,
    la: int, lb: int, s: int, c_old: int, c_new: int, cin: int, p: int, p64: int, pq: int,
) by (nonlinear_arith)
    requires
        rv_old + c_old * p == a_old + b_old + cin,
        rv_new == rv_old + s * p,
        a_new == a_old + la * p,
        b_new == b_old + lb * p,
        s + c_new * p64 == la + lb + c_old,
        pq == p64 * p,
    ensures
        rv_new + c_new * pq == a_new + b_new + cin,
{
}

/// One step of a borrow-propagating subtraction loop, at limb weight `p`.
proof fn lemma_sub_step(
    rv_old: int, rv_new: int, a_old: int, a_new: int, b_old: int, b_new: int,
    la: int, lb: int, d: int, c_old: int, c_new: int, bin: int, p: int, p64: int, pq: int,
) by (nonlinear_arith)
    requires
        rv_old == a_old - b_old - bin + c_old * p,
        rv_new == rv_old + d * p,
        a_new == a_old + la * p,
        b_new == b_old + lb * p,
        d == la - lb - c_old + c_new * p64,
        pq == p64 * p,
    ensures
        rv_new == a_new - b_new - bin + c_new * pq,
{
}

/// One step of propagating a single added limb through the array.
proof fn lemma_add_ui_step(
    rv_old: int, rv_new: int, a_old: int, a_new: int,
    la: int, s: int, c_old: int, c_new: int, b: int, p: int, p64: int, pq: int,
) by (nonlinear_arith)
    requires
        rv_old + c_old * p == a_old + b,
        rv_new == rv_old + s * p,
        a_new == a_old + la * p,
        s + c_new * p64 == la + c_old,
        pq == p64 * p,
    ensures
        rv_new + c_new * pq == a_new + b,
{
}

/// Limb-array addition with carry-in; returns the sum limbs and carry-out.
/// The result is the exact sum of the two values and the carry, split at
/// weight `2^(64*n)`.
pub fn mp_add(op1: &Vec<u64>, op2: &Vec<u64>, carry_in: u64) -> (r: (Vec<u64>, u64))
    requires
        op1.len() == op2.len(),
        carry_in <= 1,
    ensures
        r.0.len() == op1.len(),
        r.1 <= 1,
        limbs_val(r.0@) + r.1 * pow2(64 * op1.len() as nat) == limbs_val(op1@) + limbs_val(op2@)
            + carry_in,
{
    let n = op1.len();
    let mut res: Vec<u64> = Vec::new();
    let mut carry: u64 = carry_in;
    let mut i: usize = 0;
    proof {
        lemma2_to64();
        lemma2_to64_rest();
        assert(op1@.subrange(0, 0) =~= Seq::<u64>::empty());
        assert(op2@.subrange(0, 0) =~= Seq::<u64>::empty());
        lemma_mul_basics(carry_in as int);
        assert(carry_in * pow2(0) == carry_in);
    }
    while i < n
        invariant
            i <= n,
            n == op1.len() == op2.len(),
            res.len() == i,
            carry <= 1,
            pow2(64) == 0x1_0000_0000_0000_0000,
            limbs_val(res@) + carry * pow2(64 * i as nat) == limbs_val(op1@.subrange(0, i as int))
                + limbs_val(op2@.subrange(0, i as int)) + carry_in,
        decreases n - i,
    {
        let a = op1[i];
        let b = op2[i];
        let s1 = a.wrapping_add(b);
        let o1: bool = s1 < a;
        let s2 = s1.wrapping_add(carry);
        let o2: bool = s2 < carry;
        let new_carry: u64 = if o1 || o2 {
            1u64
        } else {
            0u64
        };
        proof {
            assert(s2 + new_carry * pow2(64) == a + b + carry);
            lemma_limbs_val_push(res@, s2);
            lemma_limbs_val_push(op1@.subrange(0, i as int), a);
            lemma_limbs_val_push(op2@.subrange(0, i as int), b);
            assert(op1@.subrange(0, i as int).push(a) =~= op1@.subrange(0, i as int + 1));
            assert(op2@.subrange(0, i as int).push(b) =~= op2@.subrange(0, i as int + 1));
            lemma_pow2_adds(64, 64 * i as nat);
            assert(64 + 64 * i as nat == 64 * (i + 1) as nat);
            lemma_add_step(
                limbs_val(res@) as int,
                limbs_val(res@.push(s2)) as int,
                limbs_val(op1@.subrange(0, i as int)) as int,
                limbs_val(op1@.subrange(0, i as int + 1)) as int,
                limbs_val(op2@.subrange(0, i as int)) as int,
                limbs_val(op2@.subrange(0, i as int + 1)) as int,
                a as int,
                b as int,
                s2 as int,
                carry as int,
                new_carry as int,
                carry_in as int,
                pow2(64 * i as nat) as int,
                pow2(64) as int,
                pow2(64 * (i + 1) as nat) as int,
            );
        }
        res.push(s2);
        carry = new_carry;
        i = i + 1;
    }
    proof {
        assert(op1@.subrange(0, n as int) =~= op1@);
        assert(op2@.subrange(0, n as int) =~= op2@);
    }
    (res, carry)
}

/// Limb-array subtraction with borrow-in; returns difference limbs and
/// borrow-out: `r == op1 - op2 - borrow_in + borrow_out*2^(64*n)`.
pub fn mp_sub(op1: &Vec<u64>, op2: &Vec<u64>, borrow_in: u64) -> (r: (Vec<u64>, u64))
    requires
        op1.len() == op2.len(),
        borrow_in <= 1,
    ensures
        r.0.len() == op1.len(),
        r.1 <= 1,
        limbs_val(r.0@) == limbs_val(op1@) - limbs_val(op2@) - borrow_in + r.1 * pow2(
            64 * op1.len() as nat,
        ),
{
    let n = op1.len();
    let mut res: Vec<u64> = Vec::new();
    let mut borrow: u64 = borrow_in;
    let mut i: usize = 0;
    proof {
        lemma2_to64();
        lemma2_to64_rest();
        assert(op1@.subrange(0, 0) =~= Seq::<u64>::empty());
        assert(op2@.subrange(0, 0) =~= Seq::<u64>::empty());
        lemma_mul_basics(borrow_in as int);
        assert(borrow_in * pow2(0) == borrow_in);
    }
    while i < n
        invariant
            i <= n,
            n == op1.len() == op2.len(),
            res.len() == i,
            borrow <= 1,
            pow2(64) == 0x1_0000_0000_0000_0000,
            limbs_val(res@) == limbs_val(op1@.subrange(0, i as int)) - limbs_val(
                op2@.subrange(0, i as int),
            ) - borrow_in + borrow * pow2(64 * i as nat),
        decreases n - i,
    {
        let a = op1[i];
        let b = op2[i];
        let d1 = a.wrapping_sub(b);
        let o1: bool = a < b;
        let d2 = d1.wrapping_sub(borrow);
        let o2: bool = d1 < borrow;
        let new_borrow: u64 = if o1 || o2 {
            1u64
        } else {
            0u64
        };
        proof {
            assert(d2 == a - b - borrow + new_borrow * pow2(64));
            lemma_limbs_val_push(res@, d2);
            lemma_limbs_val_push(op1@.subrange(0, i as int), a);
            lemma_limbs_val_push(op2@.subrange(0, i as int), b);
            assert(op1@.subrange(0, i as int).push(a) =~= op1@.subrange(0, i as int + 1));
            assert(op2@.subrange(0, i as int).push(b) =~= op2@.subrange(0, i as int + 1));
            lemma_pow2_adds(64, 64 * i as nat);
            assert(64 + 64 * i as nat == 64 * (i + 1) as nat);
            lemma_sub_step(
                limbs_val(res@) as int,
                limbs_val(res@.push(d2)) as int,
                limbs_val(op1@.subrange(0, i as int)) as int,
                limbs_val(op1@.subrange(0, i as int + 1)) as int,
                limbs_val(op2@.subrange(0, i as int)) as int,
                limbs_val(op2@.subrange(0, i as int + 1)) as int,
                a as int,
                b as int,
                d2 as int,
                borrow as int,
                new_borrow as int,
                borrow_in as int,
                pow2(64 * i as nat) as int,
                pow2(64) as int,
                pow2(64 * (i + 1) as nat) as int,
            );
        }
        res.push(d2);
        borrow = new_borrow;
        i = i + 1;
    }
    proof {
        assert(op1@.subrange(0, n as int) =~= op1@);
        assert(op2@.subrange(0, n as int) =~= op2@);
    }
    (res, borrow)
}

/// Two arrays that agree from position `i` up contribute equally above it.
proof fn lemma_sub_chunks_equal(a: Seq<u64>, b: Seq<u64>, i: int)
    requires
        a.len() == b.len(),
        0 <= i <= a.len(),
        a.subrange(i, a.len() as int) =~= b.subrange(i, b.len() as int),
    ensures
        limbs_val(a) - limbs_val(a.subrange(0, i)) == limbs_val(b) - limbs_val(b.subrange(0, i)),
{
    lemma_limbs_val_split(a, i);
    lemma_limbs_val_split(b, i);
}

/// Add a single limb into the array, propagating the carry; returns the
/// carry out of the top: `r + carry*2^(64*n) == old value + b`.
pub fn mp_add_ui(tab: &mut Vec<u64>, b: u64) -> (carry: u64)
    ensures
        final(tab).len() == old(tab).len(),
        carry <= 1 || old(tab).len() == 0,
        limbs_val(final(tab)@) + carry * pow2(64 * old(tab).len() as nat) == limbs_val(old(tab)@)
            + b,
{
    let n = tab.len();
    let mut carry: u64 = b;
    let mut i: usize = 0;
    proof {
        lemma2_to64();
        lemma2_to64_rest();
        assert(tab@.subrange(0, 0) =~= Seq::<u64>::empty());
        lemma_mul_basics(b as int);
        assert(b * pow2(0) == b);
    }
    while i < n
        invariant
            i <= n,
            n == tab.len() == old(tab).len(),
            i > 0 ==> carry <= 1,
            pow2(64) == 0x1_0000_0000_0000_0000,
            tab@.subrange(i as int, n as int) =~= old(tab)@.subrange(i as int, n as int),
            limbs_val(tab@.subrange(0, i as int)) + carry * pow2(64 * i as nat) == limbs_val(
                old(tab)@.subrange(0, i as int),
            ) + b,
        decreases n - i,
    {
        if carry == 0 {
            proof {
                lemma_sub_chunks_equal(tab@, old(tab)@, i as int);
                lemma_mul_basics(pow2(64 * i as nat) as int);
                lemma_mul_basics(pow2(64 * n as nat) as int);
            }
            return 0u64;
        }
        let a = tab[i];
        let s = a.wrapping_add(carry);
        let o: bool = s < a;
        let ghost pre = tab@;
        tab.set(i, s);
        let new_carry: u64 = if o {
            1u64
        } else {
            0u64
        };
        proof {
            assert(s + new_carry * pow2(64) == a + carry);
            assert forall|j: int| i <= j < n implies pre[j] == old(tab)@[j] by {
                assert(pre.subrange(i as int, n as int)[j - i] == old(tab)@.subrange(
                    i as int,
                    n as int,
                )[j - i]);
            }
            assert(tab@ =~= pre.update(i as int, s));
            assert(tab@.subrange(0, i as int) =~= pre.subrange(0, i as int));
            assert(tab@.subrange(i as int + 1, n as int) =~= old(tab)@.subrange(
                i as int + 1,
                n as int,
            ));
            lemma_limbs_val_push(pre.subrange(0, i as int), s);
            lemma_limbs_val_push(old(tab)@.subrange(0, i as int), a);
            assert(pre.subrange(0, i as int).push(s) =~= tab@.subrange(0, i as int + 1));
            assert(old(tab)@.subrange(0, i as int).push(a) =~= old(tab)@.subrange(
                0,
                i as int + 1,
            ));
            lemma_pow2_adds(64, 64 * i as nat);
            assert(64 + 64 * i as nat == 64 * (i + 1) as nat);
            lemma_add_ui_step(
                limbs_val(pre.subrange(0, i as int)) as int,
                limbs_val(tab@.subrange(0, i as int + 1)) as int,
                limbs_val(old(tab)@.subrange(0, i as int)) as int,
                limbs_val(old(tab)@.subrange(0, i as int + 1)) as int,
                a as int,
                s as int,
                carry as int,
                new_carry as int,
                b as int,
                pow2(64 * i as nat) as int,
                pow2(64) as int,
                pow2(64 * (i + 1) as nat) as int,
            );
        }
        carry = new_carry;
        i = i + 1;
    }
    proof {
        assert(tab@.subrange(0, n as int) =~= tab@);
        assert(old(tab)@.subrange(0, n as int) =~= old(tab)@);
    }
    carry
}


/// Splitting a u128 into its low and high 64-bit halves.
proof fn lemma_u128_split(t: u128)
    ensures
        (t as u64) + ((t >> 64u128) as u64) * pow2(64) == t,
{
    assert(t as u64 == t % 0x1_0000_0000_0000_0000) by (bit_vector);
    assert((t >> 64u128) == t / 0x1_0000_0000_0000_0000) by (bit_vector);
    assert((t / 0x1_0000_0000_0000_0000) < 0x1_0000_0000_0000_0000) by (bit_vector);
    lemma2_to64_rest();
    assert((t >> 64u128) as u64 == t / 0x1_0000_0000_0000_0000);
}

/// One step of a multiply-by-limb loop.
proof fn lemma_mul1_step(
    rv_old: int, rv_new: int, a_old: int, a_new: int,
    la: int, b: int, lo: int, c_old: int, c_new: int, cin: int, p: int, p64: int, pq: int,
) by (nonlinear_arith)
    requires
        rv_old + c_old * p == a_old * b + cin,
        rv_new == rv_old + lo * p,
        a_new == a_old + la * p,
        lo + c_new * p64 == la * b + c_old,
        pq == p64 * p,
    ensures
        rv_new + c_new * pq == a_new * b + cin,
{
}

/// Multiply a limb array by a single limb, with carry-in:
/// `r + carry*2^(64*n) == op1 * b + carry_in`.
pub fn mp_mul1(op1: &Vec<u64>, b: u64, carry_in: u64) -> (r: (Vec<u64>, u64))
    ensures
        r.0.len() == op1.len(),
        limbs_val(r.0@) + r.1 * pow2(64 * op1.len() as nat) == limbs_val(op1@) * b + carry_in,
{
    let n = op1.len();
    let mut res: Vec<u64> = Vec::new();
    let mut carry: u64 = carry_in;
    let mut i: usize = 0;
    proof {
        lemma2_to64();
        lemma2_to64_rest();
        assert(op1@.subrange(0, 0) =~= Seq::<u64>::empty());
        lemma_mul_basics(carry_in as int);
        lemma_mul_basics(0int);
        assert(limbs_val(op1@.subrange(0, 0)) * b == 0) by (nonlinear_arith)
            requires
                limbs_val(op1@.subrange(0, 0)) == 0,
        ;
    }
    while i < n
        invariant
            i <= n,
            n == op1.len(),
            res.len() == i,
            pow2(64) == 0x1_0000_0000_0000_0000,
            limbs_val(res@) + carry * pow2(64 * i as nat) == limbs_val(op1@.subrange(0, i as int))
                * b + carry_in,
        decreases n - i,
    {
        let a = op1[i];
        proof {
            assert(a as u128 * b as u128 + carry as u128 <= 0xffff_ffff_ffff_ffff_ffff_ffff_ffff_ffff)
                by (nonlinear_arith)
                requires
                    a <= 0xffff_ffff_ffff_ffff,
                    b <= 0xffff_ffff_ffff_ffff,
                    carry <= 0xffff_ffff_ffff_ffff,
            ;
        }
        let t: u128 = a as u128 * b as u128 + carry as u128;
        let lo: u64 = t as u64;
        let hi: u64 = (t >> 64u128) as u64;
        proof {
            lemma_u128_split(t);
            lemma_limbs_val_push(res@, lo);
            lemma_limbs_val_push(op1@.subrange(0, i as int), a);
            assert(op1@.subrange(0, i as int).push(a) =~= op1@.subrange(0, i as int + 1));
            lemma_pow2_adds(64, 64 * i as nat);
            assert(64 + 64 * i as nat == 64 * (i + 1) as nat);
            lemma_mul1_step(
                limbs_val(res@) as int,
                limbs_val(res@.push(lo)) as int,
                limbs_val(op1@.subrange(0, i as int)) as int,
                limbs_val(op1@.subrange(0, i as int + 1)) as int,
                a as int,
                b as int,
                lo as int,
                carry as int,
                hi as int,
                carry_in as int,
                pow2(64 * i as nat) as int,
                pow2(64) as int,
                pow2(64 * (i + 1) as nat) as int,
            );
        }
        res.push(lo);
        carry = hi;
        i = i + 1;
    }
    proof {
        assert(op1@.subrange(0, n as int) =~= op1@);
    }
    (res, carry)
}

/// One step of adding a shifted array into an accumulator, with the
/// limb weight `pw` already combined with the offset weight.
proof fn lemma_add_at_step(
    rv_old: int, rv_new: int, xw_old: int, xw_new: int,
    lx: int, lr: int, snew: int, c_old: int, c_new: int, pw: int, p64: int, pqw: int, r0: int,
) by (nonlinear_arith)
    requires
        rv_old == r0 + xw_old - c_old * pw,
        rv_new == rv_old + (snew - lr) * pw,
        xw_new == xw_old + lx * pw,
        snew + c_new * p64 == lr + lx + c_old,
        pqw == p64 * pw,
    ensures
        rv_new == r0 + xw_new - c_new * pqw,
{
}

/// Add `x * 2^(64*off)` into `r`; returns the carry out of the top of `r`.
pub fn mp_add_at(r: &mut Vec<u64>, x: &Vec<u64>, off: usize) -> (carry: u64)
    requires
        off + x.len() <= old(r).len(),
    ensures
        final(r).len() == old(r).len(),
        carry <= 1,
        limbs_val(final(r)@) + carry * pow2(64 * old(r).len() as nat) == limbs_val(old(r)@)
            + limbs_val(x@) * pow2(64 * off as nat),
{
    let n = r.len();
    let m = x.len();
    let mut carry: u64 = 0;
    let mut j: usize = 0;
    proof {
        lemma2_to64();
        lemma2_to64_rest();
        assert(x@.subrange(0, 0) =~= Seq::<u64>::empty());
        lemma_mul_basics(pow2(64 * off as nat) as int);
        lemma_mul_basics(0int);
        assert(0 * pow2(64 * off as nat) == 0);
        assert(0 * pow2(64 * (off + 0) as nat) == 0);
    }
    while j < m
        invariant
            j <= m,
            m == x.len(),
            n == r.len() == old(r).len(),
            off + m <= n,
            carry <= 1,
            pow2(64) == 0x1_0000_0000_0000_0000,
            r@.subrange(off + j, n as int) =~= old(r)@.subrange(off + j, n as int),
            limbs_val(r@) == limbs_val(old(r)@) + limbs_val(x@.subrange(0, j as int)) * pow2(
                64 * off as nat,
            ) - carry * pow2(64 * (off + j) as nat),
        decreases m - j,
    {
        let k = off + j;
        let a = r[k];
        let b = x[j];
        let s1 = a.wrapping_add(b);
        let o1: bool = s1 < a;
        let s2 = s1.wrapping_add(carry);
        let o2: bool = s2 < carry;
        let new_carry: u64 = if o1 || o2 {
            1u64
        } else {
            0u64
        };
        let ghost pre = r@;
        r.set(k, s2);
        proof {
            assert(s2 + new_carry * pow2(64) == a + b + carry);
            assert forall|t: int| off + j <= t < n implies pre[t] == old(r)@[t] by {
                assert(pre.subrange(off + j, n as int)[t - (off + j)] == old(r)@.subrange(
                    off + j,
                    n as int,
                )[t - (off + j)]);
            }
            assert(r@ =~= pre.update(k as int, s2));
            lemma_limbs_val_update(pre, k as int, s2);
            lemma_limbs_val_push(x@.subrange(0, j as int), b);
            assert(x@.subrange(0, j as int).push(b) =~= x@.subrange(0, j as int + 1));
            assert(pow2(64 * (off + j + 1) as nat) == pow2(64) * pow2(64 * (off + j) as nat)) by {
                lemma_pow2_adds(64, 64 * (off + j) as nat);
                assert(64 + 64 * (off + j) as nat == 64 * (off + j + 1) as nat);
            }
            assert(pow2(64 * (off + j) as nat) == pow2(64 * j as nat) * pow2(64 * off as nat)) by {
                lemma_pow2_adds(64 * j as nat, 64 * off as nat);
                assert(64 * j as nat + 64 * off as nat == 64 * (off + j) as nat);
            }
            // xw_new == xw_old + b * pw
            assert(limbs_val(x@.subrange(0, j as int + 1)) * pow2(64 * off as nat) == limbs_val(
                x@.subrange(0, j as int),
            ) * pow2(64 * off as nat) + b * pow2(64 * (off + j) as nat)) by {
                lemma_mul_is_distributive_add_other_way(
                    pow2(64 * off as nat) as int,
                    limbs_val(x@.subrange(0, j as int)) as int,
                    (b * pow2(64 * j as nat)) as int,
                );
                lemma_mul_is_associative(
                    b as int,
                    pow2(64 * j as nat) as int,
                    pow2(64 * off as nat) as int,
                );
            }
            lemma_add_at_step(
                limbs_val(pre) as int,
                limbs_val(r@) as int,
                (limbs_val(x@.subrange(0, j as int)) * pow2(64 * off as nat)) as int,
                (limbs_val(x@.subrange(0, j as int + 1)) * pow2(64 * off as nat)) as int,
                b as int,
                a as int,
                s2 as int,
                carry as int,
                new_carry as int,
                pow2(64 * (off + j) as nat) as int,
                pow2(64) as int,
                pow2(64 * (off + j + 1) as nat) as int,
                limbs_val(old(r)@) as int,
            );
            assert(r@.subrange(off + j + 1, n as int) =~= old(r)@.subrange(off + j + 1, n as int));
        }
        carry = new_carry;
        j = j + 1;
    }
    // propagate the carry above the window
    let ghost mid = r@;
    let ghost carry_mid = carry;
    let mut k = off + m;
    proof {
        assert(x@.subrange(0, m as int) =~= x@);
    }
    while k < n
        invariant
            off + m <= k <= n,
            n == r.len() == old(r).len(),
            carry <= 1,
            pow2(64) == 0x1_0000_0000_0000_0000,
            r@.subrange(k as int, n as int) =~= mid.subrange(k as int, n as int),
            mid.len() == n,
            limbs_val(mid) == limbs_val(old(r)@) + limbs_val(x@) * pow2(64 * off as nat)
                - carry_mid * pow2(64 * (off + m) as nat),
            limbs_val(r@) == limbs_val(mid) + carry_mid * pow2(64 * (off + m) as nat) - carry
                * pow2(64 * k as nat),
        decreases n - k,
    {
        if carry == 0 {
            proof {
                lemma_mul_basics(pow2(64 * k as nat) as int);
                lemma_mul_basics(pow2(64 * n as nat) as int);
                lemma_mul_basics(0int);
                assert(0 * pow2(64 * k as nat) == 0);
                assert(0 * pow2(64 * n as nat) == 0);
            }
            return 0u64;
        }
        let a = r[k];
        let s = a.wrapping_add(carry);
        let o: bool = s < a;
        let new_carry: u64 = if o {
            1u64
        } else {
            0u64
        };
        let ghost pre = r@;
        r.set(k, s);
        proof {
            assert(s + new_carry * pow2(64) == a + carry);
            assert forall|t: int| k <= t < n implies pre[t] == mid[t] by {
                assert(pre.subrange(k as int, n as int)[t - k] == mid.subrange(k as int, n as int)[t
                    - k]);
            }
            assert(r@ =~= pre.update(k as int, s));
            lemma_limbs_val_update(pre, k as int, s);
            assert(r@.subrange(k as int + 1, n as int) =~= mid.subrange(k as int + 1, n as int));
            assert(pow2(64 * (k + 1) as nat) == pow2(64) * pow2(64 * k as nat)) by {
                lemma_pow2_adds(64, 64 * k as nat);
                assert(64 + 64 * k as nat == 64 * (k + 1) as nat);
            }
            assert((s - a) * pow2(64 * k as nat) == carry * pow2(64 * k as nat) - new_carry * pow2(
                64 * (k + 1) as nat,
            )) by (nonlinear_arith)
                requires
                    s - a == carry - new_carry * pow2(64),
                    pow2(64 * (k + 1) as nat) == pow2(64) * pow2(64 * k as nat),
            ;
        }
        carry = new_carry;
        k = k + 1;
    }
    proof {
        assert(r@.subrange(n as int, n as int) =~= mid.subrange(n as int, n as int));
    }
    carry
}

/// Schoolbook multiplication: the result array of `na + nb` limbs holds the
/// exact product of the two values.
pub fn mp_mul_basecase(a: &Vec<u64>, b: &Vec<u64>) -> (r: Vec<u64>)
    requires
        a.len() + b.len() < usize::MAX,
    ensures
        r.len() == a.len() + b.len(),
        limbs_val(r@) == limbs_val(a@) * limbs_val(b@),
{
    let na = a.len();
    let nb = b.len();
    let mut res: Vec<u64> = Vec::new();
    let mut z: usize = 0;
    while z < na + nb
        invariant
            na + nb < usize::MAX,
            z <= na + nb,
            res.len() == z,
            forall|t: int| 0 <= t < z ==> res@[t] == 0,
        decreases na + nb - z,
    {
        res.push(0u64);
        z = z + 1;
    }
    proof {
        lemma_limbs_val_zero(res@);
        assert(b@.subrange(0, 0) =~= Seq::<u64>::empty());
        lemma_mul_basics(limbs_val(a@) as int);
        assert(limbs_val(a@) * 0 == 0);
    }
    let mut j: usize = 0;
    while j < nb
        invariant
            j <= nb,
            na == a.len(),
            nb == b.len(),
            na + nb < usize::MAX,
            res.len() == na + nb,
            limbs_val(res@) == limbs_val(a@) * limbs_val(b@.subrange(0, j as int)),
        decreases nb - j,
    {
        let bj = b[j];
        let (mut p, pc) = mp_mul1(a, bj, 0);
        let ghost p0 = p@;
        p.push(pc);
        proof {
            lemma_limbs_val_push(p0, pc);
            assert(p0.push(pc) =~= p@);
            assert(limbs_val(p@) == limbs_val(a@) * bj);
        }
        let ghost pre = res@;
        let c2 = mp_add_at(&mut res, &p, j);
        proof {
            lemma_limbs_val_push(b@.subrange(0, j as int), bj);
            assert(b@.subrange(0, j as int).push(bj) =~= b@.subrange(0, j as int + 1));
            lemma_limbs_val_bound(a@);
            lemma_limbs_val_bound(b@.subrange(0, j as int + 1));
            assert(pow2(64 * (j + 1) as nat) <= pow2(64 * nb as nat)) by {
                if j + 1 < nb {
                    lemma_pow2_strictly_increases(64 * (j + 1) as nat, 64 * nb as nat);
                }
            }
            assert(pow2(64 * (na + nb) as nat) == pow2(64 * na as nat) * pow2(64 * nb as nat)) by {
                lemma_pow2_adds(64 * na as nat, 64 * nb as nat);
                assert(64 * na as nat + 64 * nb as nat == 64 * (na + nb) as nat);
            }
            lemma_pow2_pos(64 * na as nat);
            lemma_pow2_pos(64 * nb as nat);
            // the full product fits in na + nb limbs
            assert(limbs_val(a@) * limbs_val(b@.subrange(0, j as int + 1)) < pow2(
                64 * (na + nb) as nat,
            )) by (nonlinear_arith)
                requires
                    limbs_val(a@) < pow2(64 * na as nat),
                    limbs_val(b@.subrange(0, j as int + 1)) < pow2(64 * (j + 1) as nat),
                    pow2(64 * (j + 1) as nat) <= pow2(64 * nb as nat),
                    pow2(64 * (na + nb) as nat) == pow2(64 * na as nat) * pow2(64 * nb as nat),
                    pow2(64 * na as nat) > 0,
                    pow2(64 * nb as nat) > 0,
            ;
            // value after accumulating the shifted partial product
            assert((limbs_val(a@) * bj) * pow2(64 * j as nat) == limbs_val(a@) * (bj * pow2(
                64 * j as nat,
            ))) by {
                lemma_mul_is_associative(
                    limbs_val(a@) as int,
                    bj as int,
                    pow2(64 * j as nat) as int,
                );
            }
            assert(limbs_val(a@) * limbs_val(b@.subrange(0, j as int)) + limbs_val(a@) * (bj * pow2(
                64 * j as nat,
            )) == limbs_val(a@) * limbs_val(b@.subrange(0, j as int + 1))) by {
                lemma_mul_is_distributive_add(
                    limbs_val(a@) as int,
                    limbs_val(b@.subrange(0, j as int)) as int,
                    (bj * pow2(64 * j as nat)) as int,
                );
            }
            if c2 == 1 {
                lemma_pow2_pos(64 * (na + nb) as nat);
                lemma_mul_basics(pow2(64 * (na + nb) as nat) as int);
                assert(false);
            }
            lemma_mul_basics(pow2(64 * (na + nb) as nat) as int);
            lemma_mul_basics(0int);
            assert(0 * pow2(64 * (na + nb) as nat) == 0);
        }
        j = j + 1;
    }
    proof {
        assert(b@.subrange(0, nb as int) =~= b@);
    }
    res
}

/// Compare two equal-length limb arrays; the sign of the result is the
/// sign of `op1 - op2` as values.
pub fn mp_cmp(op1: &Vec<u64>, op2: &Vec<u64>) -> (r: i32)
    requires
        op1.len() == op2.len(),
    ensures
        r == 1 ==> limbs_val(op1@) > limbs_val(op2@),
        r == -1 ==> limbs_val(op1@) < limbs_val(op2@),
        r == 0 ==> limbs_val(op1@) == limbs_val(op2@),
        r == 1 || r == -1 || r == 0,
{
    let n = op1.len();
    let mut i = n;
    while i > 0
        invariant
            i <= n,
            n == op1.len() == op2.len(),
            forall|j: int| i <= j < n ==> op1@[j] == op2@[j],
        decreases i,
    {
        i = i - 1;
        if op1[i] > op2[i] {
            proof {
                lemma_limbs_val_cmp_at(op1@, op2@, i as int);
            }
            return 1;
        }
        if op1[i] < op2[i] {
            proof {
                lemma_limbs_val_cmp_at(op2@, op1@, i as int);
            }
            return -1;
        }
    }
    proof {
        assert(op1@ =~= op2@);
    }
    0
}



/// Range of a nonzero limb in terms of its leading-zero count:
/// `2^(63-lz) <= v < 2^(64-lz)`.
pub proof fn lemma_clz_range(v: u64)
    requires
        v != 0,
    ensures
        0 <= vstd::std_specs::bits::u64_leading_zeros(v) < 64,
        pow2((63 - vstd::std_specs::bits::u64_leading_zeros(v)) as nat) <= v,
        v < pow2((64 - vstd::std_specs::bits::u64_leading_zeros(v)) as nat),
{
    vstd::std_specs::bits::axiom_u64_leading_zeros(v);
    let lz = vstd::std_specs::bits::u64_leading_zeros(v) as u64;
    let k = (63 - lz) as u64;
    assert((v >> k) & 1u64 != 0 ==> v >> k >= 1) by (bit_vector);
    vstd::bits::lemma_u64_shr_is_div(v, k);
    lemma_pow2_pos(k as nat);
    assert(v as nat / pow2(k as nat) >= 1);
    assert(v >= pow2(k as nat)) by {
        if v < pow2(k as nat) {
            vstd::arithmetic::div_mod::lemma_basic_div(v as int, pow2(k as nat) as int);
        }
    }
    if lz >= 1 {
        let k2 = (64 - lz) as u64;
        vstd::bits::lemma_u64_shr_is_div(v, k2);
        lemma_pow2_pos(k2 as nat);
        assert(v as nat / pow2(k2 as nat) == 0);
        if v >= pow2(k2 as nat) {
            vstd::arithmetic::div_mod::lemma_div_non_zero(v as int, pow2(k2 as nat) as int);
        }
    } else {
        lemma2_to64_rest();
        assert(v < pow2(64));
    }
}

/// One step of the right-shift loop, scanning from the most significant
/// limb down.
proof fn lemma_shr_step(
    va_old: int, va_new: int, vr_old: int, vr_new: int,
    la: int, q: int, m: int, ri: int, c: int, pb: int, pc: int, p64: int,
) by (nonlinear_arith)
    requires
        va_new == la + va_old * p64,
        va_old == vr_old * pb + c,
        la == q * pb + m,
        ri == q + c * pc,
        p64 == pb * pc,
        vr_new == ri + vr_old * p64,
    ensures
        va_new == vr_new * pb + m,
{
}

/// Shift a limb array right by `b` bits (1..63); returns the shifted
/// array and the low `b` bits that fell off:
/// `a == r * 2^b + rem`, `rem < 2^b`.
pub fn mp_shr(a: &Vec<u64>, b: u64) -> (r: (Vec<u64>, u64))
    requires
        1 <= b < 64,
    ensures
        r.0.len() == a.len(),
        r.1 < pow2(b as nat),
        limbs_val(a@) == limbs_val(r.0@) * pow2(b as nat) + r.1,
{
    let n = a.len();
    proof {
        vstd::bits::lemma_u64_pow2_no_overflow(b as nat);
        vstd::bits::lemma_u64_shl_is_mul(1u64, b);
        vstd::bits::lemma_u64_pow2_no_overflow((64 - b) as nat);
        vstd::bits::lemma_u64_shl_is_mul(1u64, (64 - b) as u64);
        lemma_mul_basics(pow2(b as nat) as int);
        lemma_mul_basics(pow2((64 - b) as nat) as int);
        lemma_pow2_adds(b as nat, (64 - b) as nat);
        lemma2_to64();
        lemma2_to64_rest();
    }
    let pb: u64 = 1u64 << b;
    let pc: u64 = 1u64 << (64 - b);
    let mut res: Vec<u64> = Vec::new();
    let mut z: usize = 0;
    while z < n
        invariant
            z <= n,
            res.len() == z,
        decreases n - z,
    {
        res.push(0u64);
        z = z + 1;
    }
    let mut carry: u64 = 0;
    let mut i: usize = n;
    proof {
        assert(a@.subrange(n as int, n as int) =~= Seq::<u64>::empty());
        assert(res@.subrange(n as int, n as int) =~= Seq::<u64>::empty());
        lemma_mul_basics(0int);
        lemma_pow2_pos(b as nat);
    }
    while i > 0
        invariant
            i <= n,
            n == a.len(),
            res.len() == n,
            pb == pow2(b as nat),
            pc == pow2((64 - b) as nat),
            pow2(64) == 0x1_0000_0000_0000_0000,
            pb * pc == pow2(64),
            pb > 0,
            pc > 0,
            1 <= b < 64,
            carry < pb,
            limbs_val(a@.subrange(i as int, n as int)) == limbs_val(
                res@.subrange(i as int, n as int),
            ) * pow2(b as nat) + carry,
        decreases i,
    {
        i = i - 1;
        let la = a[i];
        let q = la / pb;
        let m = la % pb;
        proof {
            assert(q < pc) by {
                vstd::arithmetic::div_mod::lemma_multiply_divide_lt(la as int, pb as int, pc as int);
            }
            assert(carry * pc <= (pb - 1) * pc) by {
                lemma_mul_inequality(carry as int, pb - 1, pc as int);
            }
            lemma_mul_is_distributive_sub_other_way(pc as int, pb as int, 1);
        }
        let ri = q + carry * pc;
        let ghost pre = res@;
        res.set(i, ri);
        proof {
            vstd::arithmetic::div_mod::lemma_fundamental_div_mod(la as int, pb as int);
            // unfold the suffix values at index i
            assert(a@.subrange(i as int, n as int).subrange(1, (n - i) as int) =~= a@.subrange(
                i as int + 1,
                n as int,
            ));
            assert(res@.subrange(i as int, n as int).subrange(1, (n - i) as int) =~= pre.subrange(
                i as int + 1,
                n as int,
            ));
            assert(res@.subrange(i as int, n as int)[0] == ri);
            assert(a@.subrange(i as int, n as int)[0] == la);
            lemma_shr_step(
                limbs_val(a@.subrange(i as int + 1, n as int)) as int,
                limbs_val(a@.subrange(i as int, n as int)) as int,
                limbs_val(pre.subrange(i as int + 1, n as int)) as int,
                limbs_val(res@.subrange(i as int, n as int)) as int,
                la as int,
                q as int,
                m as int,
                ri as int,
                carry as int,
                pb as int,
                pc as int,
                pow2(64) as int,
            );
        }
        carry = m;
    }
    proof {
        assert(a@.subrange(0, n as int) =~= a@);
        assert(res@.subrange(0, n as int) =~= res@);
    }
    (res, carry)
}

/// One step of the left-shift loop, scanning from the least significant
/// limb up.
proof fn lemma_shl_step(
    va_old: int, va_new: int, vr_old: int, vr_new: int,
    la: int, d: int, m2: int, ri: int, c: int, pb: int, pc: int, p64: int, p: int, pq: int,
) by (nonlinear_arith)
    requires
        va_new == va_old + la * p,
        va_old * pb == vr_old + c * p,
        la == d * pc + m2,
        ri == m2 * pb + c,
        p64 == pb * pc,
        pq == p64 * p,
        vr_new == vr_old + ri * p,
    ensures
        va_new * pb == vr_new + d * pq,
{
}

/// Shift a limb array left by `b` bits (1..63); returns the shifted array
/// and the high `b` bits pushed out of the top:
/// `a * 2^b == r + high * 2^(64*n)`, `high < 2^b`.
pub fn mp_shl(a: &Vec<u64>, b: u64) -> (r: (Vec<u64>, u64))
    requires
        1 <= b < 64,
    ensures
        r.0.len() == a.len(),
        r.1 < pow2(b as nat),
        limbs_val(a@) * pow2(b as nat) == limbs_val(r.0@) + r.1 * pow2(64 * a.len() as nat),
{
    let n = a.len();
    proof {
        vstd::bits::lemma_u64_pow2_no_overflow(b as nat);
        vstd::bits::lemma_u64_shl_is_mul(1u64, b);
        vstd::bits::lemma_u64_pow2_no_overflow((64 - b) as nat);
        vstd::bits::lemma_u64_shl_is_mul(1u64, (64 - b) as u64);
        lemma_mul_basics(pow2(b as nat) as int);
        lemma_mul_basics(pow2((64 - b) as nat) as int);
        lemma_pow2_adds((64 - b) as nat, b as nat);
        lemma2_to64();
        lemma2_to64_rest();
    }
    let pb: u64 = 1u64 << b;
    let pc: u64 = 1u64 << (64 - b);
    let mut res: Vec<u64> = Vec::new();
    let mut carry: u64 = 0;
    let mut i: usize = 0;
    proof {
        assert(a@.subrange(0, 0) =~= Seq::<u64>::empty());
        lemma_mul_basics(0int);
        lemma_pow2_pos(b as nat);
        lemma_pow2_pos((64 - b) as nat);
    }
    while i < n
        invariant
            i <= n,
            n == a.len(),
            res.len() == i,
            pb == pow2(b as nat),
            pc == pow2((64 - b) as nat),
            pow2(64) == 0x1_0000_0000_0000_0000,
            pc * pb == pow2(64),
            pb > 0,
            pc > 0,
            1 <= b < 64,
            carry < pb,
            limbs_val(a@.subrange(0, i as int)) * pow2(b as nat) == limbs_val(res@) + carry * pow2(
                64 * i as nat,
            ),
        decreases n - i,
    {
        let la = a[i];
        let d = la / pc;
        let m2 = la % pc;
        proof {
            assert(d < pb) by {
                vstd::arithmetic::div_mod::lemma_multiply_divide_lt(la as int, pc as int, pb as int);
            }
            assert(m2 * pb <= (pc - 1) * pb) by {
                lemma_mul_inequality(m2 as int, pc - 1, pb as int);
            }
            lemma_mul_is_distributive_sub_other_way(pb as int, pc as int, 1);
        }
        let ri = m2 * pb + carry;
        let ghost pre = res@;
        proof {
            vstd::arithmetic::div_mod::lemma_fundamental_div_mod(la as int, pc as int);
            lemma_limbs_val_push(res@, ri);
            lemma_limbs_val_push(a@.subrange(0, i as int), la);
            assert(a@.subrange(0, i as int).push(la) =~= a@.subrange(0, i as int + 1));
            assert(pow2(64 * (i + 1) as nat) == pow2(64) * pow2(64 * i as nat)) by {
                lemma_pow2_adds(64, 64 * i as nat);
                assert(64 + 64 * i as nat == 64 * (i + 1) as nat);
            }
            lemma_shl_step(
                limbs_val(a@.subrange(0, i as int)) as int,
                limbs_val(a@.subrange(0, i as int + 1)) as int,
                limbs_val(res@) as int,
                limbs_val(res@.push(ri)) as int,
                la as int,
                d as int,
                m2 as int,
                ri as int,
                carry as int,
                pb as int,
                pc as int,
                pow2(64) as int,
                pow2(64 * i as nat) as int,
                pow2(64 * (i + 1) as nat) as int,
            );
        }
        res.push(ri);
        carry = d;
        i = i + 1;
    }
    proof {
        assert(a@.subrange(0, n as int) =~= a@);
    }
    (res, carry)
}


} // verus!
