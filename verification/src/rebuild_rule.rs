//! The rule by which a heap that has grown at its end is put in order: either
//! the whole is rebuilt, or the new entries rise one by one.

use vstd::arithmetic::power2::{lemma2_to64, lemma_pow2_unfold, pow2};
use vstd::prelude::*;

verus! {

/// Whether rebuilding a heap whole is expected to take fewer comparisons than
/// letting the last `tail_len` entries rise one by one above the `start`
/// entries that are a heap already.
///
/// Rebuilding takes about twice as many comparisons as there are entries;
/// letting the new entries rise takes about as many as the logarithm of
/// `start` for each. In large heaps a fixed number stands for the logarithm.
pub fn better_to_rebuild(start: usize, tail_len: usize) -> (rebuild: bool)
    requires
        start + tail_len <= usize::MAX,
        tail_len > 0,
    ensures
        rebuild == rebuild_is_better(start as nat, tail_len as nat),
{
    let len = start + tail_len;
    if start < tail_len {
        true
    } else if len <= 2048 {
        let log = log2_fast(start);
        assert(tail_len * log <= 2048 * 64) by (nonlinear_arith)
            requires
                tail_len <= 2048,
                log <= 64,
        ;
        2 * len < tail_len * log
    } else {
        2 * (len as u128) < (tail_len as u128) * 11
    }
}

/// The rule by which `better_to_rebuild` decides.
pub open spec fn rebuild_is_better(start: nat, tail_len: nat) -> bool {
    if start < tail_len {
        true
    } else if start + tail_len <= 2048 {
        2 * (start + tail_len) < tail_len * log2_floor(start)
    } else {
        2 * (start + tail_len) < tail_len * 11
    }
}

/// The logarithm of `x` to base 2, rounded down; 0 for 0.
pub open spec fn log2_floor(x: nat) -> nat
    decreases x,
{
    if x <= 1 {
        0
    } else {
        1 + log2_floor(x / 2)
    }
}

/// The logarithm of a positive `x` to base 2, rounded down.
fn log2_fast(x: usize) -> (r: usize)
    requires
        x > 0,
    ensures
        r == log2_floor(x as nat),
        r < usize::BITS,
{
    proof {
        lemma_log2_floor_bound(x as nat);
    }
    (usize::BITS - leading_zeros(x) - 1) as usize
}

/// The logarithm of a number below `2^n` is below `n`.
proof fn lemma_log2_floor_bound(x: nat)
    ensures
        x <= usize::MAX ==> log2_floor(x) < usize::BITS,
{
    assert(usize::BITS == 32 || usize::BITS == 64);
    lemma_log2_floor_pow2(x, 64);
    lemma_log2_floor_pow2(x, 32);
    assert(pow2(32) == 0x1_0000_0000) by {
        lemma2_to64();
    }
    assert(pow2(64) == 0x1_0000_0000_0000_0000) by {
        lemma2_to64();
    }
}

/// The logarithm of a positive number below `2^n` is below `n`.
proof fn lemma_log2_floor_pow2(x: nat, n: nat)
    requires
        n > 0,
    ensures
        x < pow2(n) ==> log2_floor(x) < n,
    decreases n,
{
    if x > 1 && x < pow2(n) {
        assert(pow2(n) == 2 * pow2((n - 1) as nat)) by {
            lemma_pow2_unfold(n);
        }
        if n == 1 {
            assert(pow2(0) == 1) by {
                lemma2_to64();
            }
        } else {
            lemma_log2_floor_pow2(x / 2, (n - 1) as nat);
        }
    }
}

/// The number of leading zero bits of `x`.
///
/// Calls `leading_zeros` of `usize`, which counts the zero bits above the
/// highest bit that is set: all the bits for 0, and otherwise all but one
/// more than the logarithm to base 2, rounded down.
#[verifier::external_body]
fn leading_zeros(x: usize) -> (n: u32)
    ensures
        x == 0 ==> n == usize::BITS,
        x > 0 ==> n == usize::BITS - 1 - log2_floor(x as nat),
{
    x.leading_zeros()
}

} // verus!
