//! The size-class table: mapping a byte count to the smallest order `k`
//! such that a block of `2^k` bytes can hold it.

use vstd::prelude::*;
use vstd::arithmetic::power2::{pow2, lemma_pow2_unfold, lemma_pow2_strictly_increases};

verus! {

/// Computes `2^k` as a `usize`.
pub fn pow2_usize(k: usize) -> (r: usize)
    requires
        pow2(k as nat) <= usize::MAX,
    ensures
        r == pow2(k as nat),
{
    let mut r: usize = 1;
    let mut i: usize = 0;
    proof {
        assert(pow2(0) == 1) by {
            vstd::arithmetic::power2::lemma2_to64();
        }
    }
    while i < k
        invariant
            i <= k,
            r == pow2(i as nat),
            pow2(k as nat) <= usize::MAX,
        decreases k - i,
    {
        proof {
            lemma_pow2_unfold((i + 1) as nat);
            if i + 1 < k {
                lemma_pow2_strictly_increases((i + 1) as nat, k as nat);
            }
        }
        r = r * 2;
        i = i + 1;
    }
    r
}

/// The size class of a byte count: the smallest `k` with `bytes <= 2^k`,
/// and `0` when `bytes` is `0`.
pub open spec fn size_class(bytes: nat) -> nat
    decreases bytes,
{
    if bytes <= 1 {
        0
    } else {
        1 + size_class((bytes + 1) / 2)
    }
}

/// `size_class(bytes)` indeed bounds `bytes` from above by its block size,
/// and is the least order to do so.
pub proof fn lemma_size_class_characterization(bytes: nat)
    ensures
        bytes <= pow2(size_class(bytes)),
        size_class(bytes) > 0 ==> pow2((size_class(bytes) - 1) as nat) < bytes,
    decreases bytes,
{
    vstd::arithmetic::power2::lemma2_to64();
    if bytes > 1 {
        let c = (bytes + 1) / 2;
        let j = size_class(c);
        lemma_size_class_characterization(c);
        lemma_pow2_unfold((j + 1) as nat);
        if j > 0 {
            lemma_pow2_unfold(j);
        }
    }
}

/// An order whose block size fits in a machine word is itself below the
/// word width.
pub proof fn lemma_order_word_bound(k: nat)
    requires
        pow2(k) <= usize::MAX,
    ensures
        k < 64,
{
    if k >= 64 {
        vstd::arithmetic::power2::lemma2_to64();
        if k > 64 {
            lemma_pow2_strictly_increases(64, k);
        }
        assert(usize::MAX < 0x10000000000000000);
        assert(false);
    }
}

/// Converts a byte count to its size class: the smallest `k` with
/// `bytes <= 2^k`, and `0` when no bytes are requested.
///
/// Total and monotonic; for `bytes >= 2` the result is the unique `k`
/// with `2^(k-1) < bytes <= 2^k`.
pub fn btok(bytes: usize) -> (k: usize)
    ensures
        k == size_class(bytes as nat),
        bytes <= pow2(k as nat),
        k > 0 ==> pow2((k - 1) as nat) < bytes,
        bytes <= 1 ==> k == 0,
{
    if bytes <= 1 {
        proof {
            assert(pow2(0) == 1) by {
                vstd::arithmetic::power2::lemma2_to64();
            }
        }
        return 0;
    }
    let mut k: usize = 0;
    let mut p: usize = 1;
    proof {
        assert(pow2(0) == 1) by {
            vstd::arithmetic::power2::lemma2_to64();
        }
    }
    while p < bytes
        invariant
            p >= 1,
            p == pow2(k as nat),
            k > 0 ==> pow2((k - 1) as nat) < bytes,
            bytes <= usize::MAX,
        decreases 2 * (bytes as int) - p,
    {
        proof {
            lemma_order_word_bound(k as nat);
            lemma_pow2_unfold((k + 1) as nat);
        }
        if p > usize::MAX / 2 {
            // The next size class exceeds the machine word, so it certainly
            // covers `bytes`.
            proof {
                lemma_size_class_characterization(bytes as nat);
                lemma_size_class_unique(bytes as nat, (k + 1) as nat, size_class(bytes as nat));
            }
            return k + 1;
        }
        p = p * 2;
        k = k + 1;
    }
    proof {
        lemma_size_class_characterization(bytes as nat);
        lemma_size_class_unique(bytes as nat, k as nat, size_class(bytes as nat));
    }
    k
}

/// A byte count beyond a block size needs a strictly larger order.
pub proof fn lemma_size_class_above(bytes: nat, j: nat)
    requires
        pow2(j) < bytes,
    ensures
        size_class(bytes) > j,
{
    lemma_size_class_characterization(bytes);
    let c = size_class(bytes);
    if c <= j {
        if c < j {
            lemma_pow2_strictly_increases(c, j);
        }
        assert(pow2(c) <= pow2(j));
        assert(false);
    }
}

/// The size class never decreases as the byte count grows.
pub proof fn lemma_size_class_monotone(b1: nat, b2: nat)
    requires
        b1 <= b2,
    ensures
        size_class(b1) <= size_class(b2),
{
    lemma_size_class_characterization(b1);
    lemma_size_class_characterization(b2);
    let c1 = size_class(b1);
    let c2 = size_class(b2);
    if c1 > c2 {
        if c2 < c1 - 1 {
            lemma_pow2_strictly_increases(c2, (c1 - 1) as nat);
        }
        assert(pow2(c2) <= pow2((c1 - 1) as nat));
        assert(false);
    }
}

/// The size class of a positive byte count is unique: only one order `k`
/// satisfies the characterization that `btok` establishes.
pub proof fn lemma_size_class_unique(bytes: nat, j: nat, k: nat)
    requires
        bytes <= pow2(j),
        j > 0 ==> pow2((j - 1) as nat) < bytes,
        bytes <= pow2(k),
        k > 0 ==> pow2((k - 1) as nat) < bytes,
        bytes >= 1,
    ensures
        j == k,
{
    if j < k {
        if j < k - 1 {
            lemma_pow2_strictly_increases(j, (k - 1) as nat);
        }
        assert(pow2(j) <= pow2((k - 1) as nat));
        assert(false);
    }
    if k < j {
        if k < j - 1 {
            lemma_pow2_strictly_increases(k, (j - 1) as nat);
        }
        assert(pow2(k) <= pow2((j - 1) as nat));
        assert(false);
    }
}

} // verus!
