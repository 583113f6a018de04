//! Address arithmetic for buddy blocks.
//!
//! A block of order `k` sits at an offset that is a multiple of `2^k`; its
//! buddy is the other half of their shared parent of order `k + 1`. All
//! facts here are stated over mathematical integers so that both byte
//! offsets and header-arena indices can use them.

use vstd::prelude::*;
use vstd::arithmetic::power2::{pow2, lemma_pow2_pos, lemma_pow2_unfold};
use vstd::arithmetic::div_mod::{
    lemma_fundamental_div_mod,
    lemma_fundamental_div_mod_converse_mod,
    lemma_mod_add_multiples_vanish,
    lemma_mod_sub_multiples_vanish,
};

verus! {

/// The buddy of the block of order `k` at offset `off`: the sibling with
/// which it fills their common parent block of order `k + 1`.
pub open spec fn buddy_off(off: int, k: nat) -> int {
    let m = pow2(k) as int;
    if off % (2 * m) == 0 {
        off + m
    } else {
        off - m
    }
}

/// A nonnegative multiple of `m` is, modulo `2 * m`, either `0` or `m`.
pub proof fn lemma_mod_split(x: int, m: int)
    requires
        m >= 1,
        x >= 0,
        x % m == 0,
    ensures
        x % (2 * m) == 0 || x % (2 * m) == m,
{
    let q = x / m;
    lemma_fundamental_div_mod(x, m);
    let t = q / 2;
    lemma_fundamental_div_mod(q, 2);
    if q % 2 == 0 {
        assert(x == t * (2 * m) + 0) by (nonlinear_arith)
            requires x == m * q + 0, q == 2 * t;
        lemma_fundamental_div_mod_converse_mod(x, 2 * m, t, 0);
    } else {
        assert(x == t * (2 * m) + m) by (nonlinear_arith)
            requires x == m * q + 0, q == 2 * t + 1;
        lemma_fundamental_div_mod_converse_mod(x, 2 * m, t, m);
    }
}

/// Stepping up from an offset aligned to `2 * m` by `m` lands exactly
/// halfway into the parent.
pub proof fn lemma_align_plus(x: int, m: int)
    requires
        m >= 1,
        x >= 0,
        x % (2 * m) == 0,
    ensures
        (x + m) % (2 * m) == m,
{
    let t = x / (2 * m);
    lemma_fundamental_div_mod(x, 2 * m);
    assert(x + m == t * (2 * m) + m) by (nonlinear_arith)
        requires x == (2 * m) * t + 0;
    lemma_fundamental_div_mod_converse_mod(x + m, 2 * m, t, m);
}

/// An offset that is `m` past a multiple of `2 * m` steps back down to it.
pub proof fn lemma_align_minus(x: int, m: int)
    requires
        m >= 1,
        x >= 0,
        x % (2 * m) == m,
    ensures
        x >= m,
        (x - m) % (2 * m) == 0,
{
    let t = x / (2 * m);
    lemma_fundamental_div_mod(x, 2 * m);
    vstd::arithmetic::div_mod::lemma_div_pos_is_pos(x, 2 * m);
    assert(x - m == t * (2 * m) + 0 && (2 * m) * t >= 0) by (nonlinear_arith)
        requires x == (2 * m) * t + m, t >= 0, m >= 1;
    lemma_fundamental_div_mod_converse_mod(x - m, 2 * m, t, 0);
}

/// An aligned offset strictly inside an aligned total leaves room for one
/// whole block before the end.
pub proof fn lemma_aligned_below(u: int, m: int, total: int)
    requires
        m >= 1,
        0 <= u < total,
        u % m == 0,
        total % m == 0,
    ensures
        u + m <= total,
{
    let q = u / m;
    let t = total / m;
    lemma_fundamental_div_mod(u, m);
    lemma_fundamental_div_mod(total, m);
    assert(q < t) by (nonlinear_arith)
        requires u == m * q, total == m * t, u < total, m >= 1;
    assert(m * q + m <= m * t) by (nonlinear_arith)
        requires q < t, m >= 1;
}

/// A smaller power of two divides a larger one.
pub proof fn lemma_pow2_divides(a: nat, b: nat)
    requires
        a <= b,
    ensures
        pow2(b) as int % (pow2(a) as int) == 0,
{
    lemma_pow2_pos(a);
    vstd::arithmetic::power2::lemma_pow2_adds(a, (b - a) as nat);
    vstd::arithmetic::div_mod::lemma_mod_multiples_basic(pow2((b - a) as nat) as int, pow2(a) as int);
}

/// An offset aligned to a block of order `b` is aligned to every smaller
/// order `a` as well.
pub proof fn lemma_aligned_coarser(x: int, a: nat, b: nat)
    requires
        a <= b,
        x % (pow2(b) as int) == 0,
    ensures
        x % (pow2(a) as int) == 0,
{
    let ma = pow2(a) as int;
    let mb = pow2(b) as int;
    lemma_pow2_pos(a);
    lemma_pow2_pos(b);
    vstd::arithmetic::power2::lemma_pow2_adds(a, (b - a) as nat);
    let c = pow2((b - a) as nat) as int;
    let q = x / mb;
    lemma_fundamental_div_mod(x, mb);
    assert(x == (c * q) * ma) by (nonlinear_arith)
        requires x == mb * q, mb == ma * c;
    vstd::arithmetic::div_mod::lemma_mod_multiples_basic(c * q, ma);
}

/// Moving an offset by a whole block of order `a` keeps any coarser-grained
/// alignment `b <= a` it had.
pub proof fn lemma_shift_preserves_alignment(off: int, a: nat, b: nat)
    requires
        b <= a,
        off % (pow2(b) as int) == 0,
    ensures
        (off + pow2(a)) % (pow2(b) as int) == 0,
        (off - pow2(a)) % (pow2(b) as int) == 0,
{
    let m = pow2(b) as int;
    lemma_pow2_pos(b);
    vstd::arithmetic::power2::lemma_pow2_adds(b, (a - b) as nat);
    let c = pow2((a - b) as nat) as int;
    assert(m * c == pow2(a) && m * (-c) == -(m * c)) by (nonlinear_arith)
        requires m == pow2(b), pow2(a) == pow2(b) * c;
    vstd::arithmetic::div_mod::lemma_mod_multiples_vanish(c, off, m);
    vstd::arithmetic::div_mod::lemma_mod_multiples_vanish(-c, off, m);
}

/// The buddy relation is an involution: the buddy's buddy is the block
/// itself. Holds for every offset aligned to the block's own order.
pub proof fn lemma_buddy_involution(off: int, k: nat)
    requires
        off >= 0,
        off % (pow2(k) as int) == 0,
    ensures
        buddy_off(buddy_off(off, k), k) == off,
        buddy_off(off, k) >= 0,
        buddy_off(off, k) % (pow2(k) as int) == 0,
{
    let m = pow2(k) as int;
    lemma_pow2_pos(k);
    lemma_mod_split(off, m);
    if off % (2 * m) == 0 {
        let b = off + m;
        lemma_align_plus(off, m);
        lemma_mod_add_multiples_vanish(off, m);
    } else {
        let b = off - m;
        lemma_align_minus(off, m);
        lemma_mod_sub_multiples_vanish(off, m);
    }
}

/// A buddy offset stays inside a region that is a whole number of parent
/// blocks, and keeps the block's alignment.
pub proof fn lemma_buddy_range(off: int, k: nat, total: int)
    requires
        0 <= off < total,
        off % (pow2(k) as int) == 0,
        total % (2 * pow2(k) as int) == 0,
    ensures
        0 <= buddy_off(off, k) < total,
        buddy_off(off, k) % (pow2(k) as int) == 0,
{
    let m = pow2(k) as int;
    lemma_pow2_pos(k);
    lemma_mod_split(off, m);
    if off % (2 * m) == 0 {
        lemma_aligned_below(off, 2 * m, total);
        lemma_mod_add_multiples_vanish(off, m);
    } else {
        lemma_align_minus(off, m);
        lemma_mod_sub_multiples_vanish(off, m);
    }
}

} // verus!
