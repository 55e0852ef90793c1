use vstd::arithmetic::div_mod::{lemma_div_denominator, lemma_fundamental_div_mod};
use vstd::arithmetic::power2::{
    lemma2_to64, lemma_pow2_adds, lemma_pow2_pos, lemma_pow2_strictly_increases,
    lemma_pow2_unfold, pow2,
};
use vstd::bits::{lemma_u64_pow2_no_overflow, lemma_u64_shr_is_div};
use vstd::prelude::*;

use crate::error::QueryError;

verus! {

/// The integer part of the base-two logarithm of `x`: the position of the
/// highest set bit of `x`. By convention it is 0 at 0.
pub open spec fn floor_log2(x: nat) -> nat
    decreases x,
{
    if x <= 1 {
        0
    } else {
        1 + floor_log2(x / 2)
    }
}

/// For positive `x`, `2^floor_log2(x)` is the largest power of two that does
/// not exceed `x`.
pub proof fn lemma_floor_log2_bounds(x: nat)
    requires
        x >= 1,
    ensures
        pow2(floor_log2(x)) <= x < pow2(floor_log2(x) + 1),
    decreases x,
{
    if x <= 1 {
        lemma2_to64();
    } else {
        lemma_floor_log2_bounds(x / 2);
        lemma_pow2_unfold(floor_log2(x));
        lemma_pow2_unfold(floor_log2(x) + 1);
    }
}

/// Only one exponent `k` has `2^k <= x < 2^(k+1)`, and it is `floor_log2(x)`.
pub proof fn lemma_floor_log2_unique(x: nat, k: nat)
    requires
        pow2(k) <= x < pow2(k + 1),
    ensures
        floor_log2(x) == k,
    decreases k,
{
    if k == 0 {
        lemma2_to64();
    } else {
        lemma_pow2_unfold(k);
        lemma_pow2_unfold(k + 1);
        lemma_floor_log2_unique(x / 2, (k - 1) as nat);
    }
}

/// The logarithm of a power of two is its exponent, and the powers of two
/// with an exponent below 64 are values of `u64`.
pub proof fn lemma_floor_log2_of_pow2(k: nat)
    ensures
        floor_log2(pow2(k)) == k,
        k < 64 ==> pow2(k) <= u64::MAX,
{
    lemma_pow2_strictly_increases(k, k + 1);
    lemma_floor_log2_unique(pow2(k), k);
    if k < 64 {
        lemma_u64_pow2_no_overflow(k);
    }
}

/// A larger number has no smaller logarithm.
pub proof fn lemma_floor_log2_monotone(x: nat, y: nat)
    requires
        x <= y,
    ensures
        floor_log2(x) <= floor_log2(y),
    decreases x,
{
    if x > 1 {
        lemma_floor_log2_monotone(x / 2, y / 2);
    }
}

/// The width, in bits, that is still searched when the next step is `sz`.
spec fn window(sz: u64) -> u64 {
    if sz == 0 {
        1
    } else {
        (2 * sz) as u64
    }
}

/// The position of the highest set bit of `x`, counted from 0 at the least
/// significant bit. Zero has no bit set and is refused.
pub fn highest_bit(x: u64) -> (res: Result<usize, QueryError>)
    ensures
        x == 0 ==> res == Err::<usize, QueryError>(QueryError::OutOfBounds),
        x != 0 ==> res == Ok::<usize, QueryError>(floor_log2(x as nat) as usize),
        x != 0 ==> floor_log2(x as nat) < 64,
{
    if x == 0 {
        return Err(QueryError::OutOfBounds);
    }
    let mut rest: u64 = x;
    let mut ans: u64 = 0;
    let mut sz: u64 = 32;
    proof {
        lemma2_to64();
    }
    while sz != 0
        invariant
            sz == 32 || sz == 16 || sz == 8 || sz == 4 || sz == 2 || sz == 1 || sz == 0,
            ans + window(sz) <= 64,
            rest as nat == x as nat / pow2(ans as nat),
            rest >= 1,
            window(sz) < 64 ==> rest < (1u64 << window(sz)),
        decreases sz,
    {
        let ghost w = window(sz);
        assert((1u64 << sz) >= 1) by (bit_vector)
            requires
                sz <= 32,
        ;
        if (rest & (((1u64 << sz) - 1) << sz)) != 0 {
            assert((rest >> sz) >= 1 && (rest >> sz) < (1u64 << sz)) by (bit_vector)
                requires
                    0 < sz <= 32,
                    w == 2 * sz,
                    w < 64 ==> rest < (1u64 << w),
                    (rest & ((((1u64 << sz) - 1) as u64) << sz)) != 0,
            ;
            proof {
                lemma_u64_shr_is_div(rest, sz);
                lemma_pow2_pos(ans as nat);
                lemma_pow2_pos(sz as nat);
                lemma_div_denominator(x as int, pow2(ans as nat) as int, pow2(sz as nat) as int);
                lemma_pow2_adds(ans as nat, sz as nat);
            }
            ans += sz;
            rest >>= sz;
        } else {
            assert(rest < (1u64 << sz)) by (bit_vector)
                requires
                    0 < sz <= 32,
                    w == 2 * sz,
                    w < 64 ==> rest < (1u64 << w),
                    (rest & ((((1u64 << sz) - 1) as u64) << sz)) == 0,
            ;
        }
        assert(sz >> 1 == sz / 2) by (bit_vector);
        sz >>= 1;
    }
    proof {
        assert((1u64 << 1u64) == 2) by (bit_vector);
        let d = pow2(ans as nat) as int;
        lemma_pow2_pos(ans as nat);
        assert(rest == 1);
        lemma_fundamental_div_mod(x as int, d);
        assert(d * (x as int / d) == d) by (nonlinear_arith)
            requires
                x as int / d == 1,
        ;
        lemma_pow2_unfold((ans + 1) as nat);
        lemma_floor_log2_unique(x as nat, ans as nat);
    }
    Ok(ans as usize)
}

} // verus!
