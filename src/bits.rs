//! Small bit-level helpers for the packed word encoding.
use vstd::arithmetic::power2::{pow2, lemma2_to64, lemma_pow2_unfold, lemma_pow2_pos, lemma_pow2_adds, lemma_pow2_strictly_increases};
use vstd::bits::{lemma_u64_shl_is_mul, lemma_u64_pow2_no_overflow};
use vstd::prelude::*;

verus! {

/// `floor(log2(n))` for `n >= 1`, and `0` for `n == 0`.
pub open spec fn log2_floor(n: nat) -> nat
    decreases n,
{
    if n < 2 {
        0
    } else {
        log2_floor(n / 2) + 1
    }
}

/// `2^log2_floor(n) <= n < 2^(log2_floor(n) + 1)` for every positive `n`.
pub proof fn lemma_log2_floor_bounds(n: nat)
    requires
        n >= 1,
    ensures
        pow2(log2_floor(n)) <= n < pow2(log2_floor(n) + 1),
    decreases n,
{
    lemma2_to64();
    if n >= 2 {
        lemma_log2_floor_bounds(n / 2);
        let l = log2_floor(n / 2);
        lemma_pow2_unfold(l + 1);
        lemma_pow2_unfold(l + 2);
    }
}

/// `log2_floor` never exceeds `log2_floor` of a larger number, and is below 32 on `u32`.
pub proof fn lemma_log2_floor_u32(n: nat)
    requires
        n <= u32::MAX,
    ensures
        log2_floor(n) < 32,
    decreases n,
{
    if n >= 2 {
        lemma_log2_floor_u32(n / 2);
        if log2_floor(n) >= 32 {
            lemma_log2_floor_bounds(n);
            lemma2_to64();
            if log2_floor(n) > 32 {
                lemma_pow2_strictly_increases(32, log2_floor(n));
            }
        }
    }
}

/// The base-2 logarithm of `n`, rounded down (`0` for `n < 2`).
pub fn const_logn(n: u32) -> (r: u32)
    ensures
        r as nat == log2_floor(n as nat),
        r < 32,
{
    proof {
        lemma_log2_floor_u32(n as nat);
    }
    let mut m: u32 = n;
    let mut acc: u32 = 0;
    while m >= 2
        invariant
            acc + log2_floor(m as nat) == log2_floor(n as nat),
            log2_floor(n as nat) < 32,
        decreases m,
    {
        m = m / 2;
        acc = acc + 1;
    }
    acc
}

/// A mask of `n_bits` consecutive one bits, starting at bit `shift`.
pub fn make_mask(n_bits: u32, shift: u32) -> (r: u64)
    requires
        n_bits < 64,
        n_bits + shift <= 64,
    ensures
        r as nat == (pow2(n_bits as nat) - 1) * pow2(shift as nat),
{
    proof {
        lemma_u64_pow2_no_overflow(n_bits as nat);
        lemma_u64_shl_is_mul(1, n_bits as u64);
        lemma_pow2_pos(n_bits as nat);
    }
    let low: u64 = (1u64 << n_bits) - 1;
    if shift == 64 {
        proof {
            assert(n_bits == 0);
            lemma2_to64();
            assert((pow2(0) - 1) * pow2(64) == 0) by (nonlinear_arith)
                requires
                    pow2(0) == 1,
            ;
        }
        return 0;
    }
    proof {
        lemma_pow2_adds(n_bits as nat, shift as nat);
        lemma2_to64();
        if n_bits + shift < 64 {
            lemma_pow2_strictly_increases((n_bits + shift) as nat, 64);
        }
        lemma_pow2_pos(shift as nat);
        assert(low * pow2(shift as nat) <= u64::MAX) by (nonlinear_arith)
            requires
                low == pow2(n_bits as nat) - 1,
                pow2(n_bits as nat) * pow2(shift as nat) == pow2((n_bits + shift) as nat),
                pow2((n_bits + shift) as nat) <= u64::MAX + 1,
                pow2(shift as nat) > 0;
        lemma_u64_shl_is_mul(low, shift as u64);
    }
    low << shift
}

} // verus!
