//! Laws of the allocator: facts that relate several operations, proved
//! from the operations' own contracts.

use vstd::prelude::*;
use vstd::arithmetic::power2::{pow2, lemma_pow2_pos, lemma_pow2_strictly_increases};
use crate::pool::{
    Avail, BuddyPool, PoolConfig, BLOCK_AVAIL, BLOCK_RESERVED, BLOCK_UNUSED, kval_for, init_nodes,
    req_order, find_order, good_head, malloc_post, free_post, alloc_nodes, split_down,
    spliced_out, inserted_at_head, reserved_at, coalesce, lemma_split_down_step,
};
use crate::buddy_math::buddy_off;

verus! {

/// The record of a sentinel of order `j` whose whole list is the one block
/// at `head` (or empty, when `head` is the sentinel itself).
pub open spec fn sent_rec(j: nat, head: int) -> Avail {
    Avail { tag: BLOCK_UNUSED, kval: j as u16, next: head as usize, prev: head as usize }
}

/// The record of an available order-`j` block that is alone in its list.
pub open spec fn lone_free_rec(j: nat, sentj: int) -> Avail {
    Avail { tag: BLOCK_AVAIL, kval: j as u16, next: sentj as usize, prev: sentj as usize }
}

/// Whether `i` is the unit of one of the buddies that splitting the base
/// block down through orders `lo..hi` sheds: the upper half at each order.
pub open spec fn is_split_buddy(i: int, sm: nat, lo: nat, hi: nat) -> bool {
    exists|j: nat| lo <= j < hi && i == #[trigger] pow2((j - sm) as nat)
}

proof fn lemma_buddy_units_bounds(sm: nat, lo: nat, hi: nat)
    requires
        sm <= lo,
    ensures
        forall|j: nat|
            lo <= j < hi ==> 0 < #[trigger] pow2((j - sm) as nat) < pow2((hi - sm) as nat),
        forall|j1: nat, j2: nat|
            lo <= j1 < j2 < hi ==> #[trigger] pow2((j1 - sm) as nat) < #[trigger] pow2(
                (j2 - sm) as nat,
            ),
{
    assert forall|j: nat|
        lo <= j < hi implies 0 < #[trigger] pow2((j - sm) as nat) < pow2((hi - sm) as nat) by {
        lemma_pow2_pos((j - sm) as nat);
        lemma_pow2_strictly_increases((j - sm) as nat, (hi - sm) as nat);
    }
    assert forall|j1: nat, j2: nat|
        lo <= j1 < j2 < hi implies #[trigger] pow2((j1 - sm) as nat) < #[trigger] pow2(
        (j2 - sm) as nat,
    ) by {
        lemma_pow2_strictly_increases((j1 - sm) as nat, (j2 - sm) as nat);
    }
}

/// What splitting the base block of order `kk` down to order `to` leaves,
/// record by record, when every intermediate list starts out empty: each
/// order `j` in `to..kk` gains the buddy at unit `2^(j - sm)` as the lone
/// block of its list, and nothing else moves.
proof fn lemma_split_ladder(s: Seq<Avail>, units: int, sm: nat, kk: nat, to: nat)
    requires
        sm <= to <= kk,
        units == pow2((kk - sm) as nat),
        s.len() == units + kk + 1,
        units + kk + 1 <= usize::MAX,
        forall|j: nat| to <= j < kk ==> #[trigger] s[units + j] == sent_rec(j, units + j),
    ensures
        ({
            let t = split_down(s, units, sm, 0, kk, to);
            &&& t.len() == s.len()
            &&& forall|j: nat|
                to <= j < kk ==> #[trigger] t[units + j] == sent_rec(j, pow2((j - sm) as nat) as int)
            &&& forall|j: nat|
                to <= j < kk ==> t[#[trigger] pow2((j - sm) as nat) as int] == lone_free_rec(j, units + j)
            &&& forall|i: int|
                0 <= i < s.len() && !(units + to <= i < units + kk) && !is_split_buddy(
                    i,
                    sm,
                    to,
                    kk,
                ) ==> #[trigger] t[i] == s[i]
        }),
    decreases kk - to,
{
    lemma_buddy_units_bounds(sm, to, kk);
    lemma_pow2_pos((kk - sm) as nat);
    if to == kk {
    } else {
        lemma_split_ladder(s, units, sm, kk, (to + 1) as nat);
        lemma_split_down_step(s, units, sm, 0, kk, to);
        let t1 = split_down(s, units, sm, 0, kk, (to + 1) as nat);
        let b = pow2((to - sm) as nat) as int;
        let t = inserted_at_head(t1, b, to, units + to);
        assert(!is_split_buddy(units + to, sm, (to + 1) as nat, kk));
        assert(t1[units + to] == sent_rec(to, units + to));
        assert(t[b] == lone_free_rec(to, units + to));
        assert(t[units + to] == sent_rec(to, b));
        assert forall|j: nat|
            to <= j < kk implies #[trigger] t[units + j] == sent_rec(j, pow2((j - sm) as nat) as int) by {
            if j != to {
                assert(t1[units + j] == sent_rec(j, pow2((j - sm) as nat) as int));
            }
        }
        assert forall|j: nat|
            to <= j < kk implies t[#[trigger] pow2((j - sm) as nat) as int] == lone_free_rec(
            j,
            units + j,
        ) by {
            if j != to {
                assert(t1[pow2((j - sm) as nat) as int] == lone_free_rec(j, units + j));
            }
        }
        assert forall|i: int|
            0 <= i < s.len() && !(units + to <= i < units + kk) && !is_split_buddy(i, sm, to, kk)
            implies t[i] == s[i] by {
            assert(!is_split_buddy(i, sm, (to + 1) as nat, kk));
            assert(i != b);
            assert(t1[i] == s[i]);
        }
    }
}

/// What coalescing the base block of order `j` back up to the top order
/// does, record by record, when at each order the lone listed block is the
/// base block's buddy: each buddy leaves its list (whose sentinel returns
/// to its empty self-loop), the merged block stays at unit `0`, and the
/// shed buddy records keep their last written contents without being part
/// of any list.
proof fn lemma_coalesce_ladder(c: Seq<Avail>, units: int, sm: nat, kk: nat, j: nat)
    requires
        sm <= j <= kk,
        kk < 48,
        units == pow2((kk - sm) as nat),
        c.len() == units + kk + 1,
        units + kk + 1 <= usize::MAX,
        c[0] == (Avail {
            tag: BLOCK_AVAIL,
            kval: j as u16,
            next: (units + kk) as usize,
            prev: (units + kk) as usize,
        }),
        forall|jj: nat| j <= jj < kk ==> #[trigger] c[units + jj] == sent_rec(jj, pow2((jj - sm) as nat) as int),
        forall|jj: nat|
            j <= jj < kk ==> c[#[trigger] pow2((jj - sm) as nat) as int] == lone_free_rec(jj, units + jj),
    ensures
        ({
            let m = coalesce(c, sm, kk, 0, j);
            &&& m.1 == 0
            &&& m.2 == kk
            &&& m.0.len() == c.len()
            &&& m.0[0] == (Avail {
                tag: BLOCK_AVAIL,
                kval: kk as u16,
                next: (units + kk) as usize,
                prev: (units + kk) as usize,
            })
            &&& forall|jj: nat| j <= jj < kk ==> #[trigger] m.0[units + jj] == sent_rec(jj, units + jj)
            &&& forall|jj: nat|
                j <= jj < kk ==> m.0[#[trigger] pow2((jj - sm) as nat) as int] == lone_free_rec(
                    jj,
                    units + jj,
                )
            &&& forall|i: int|
                0 <= i < c.len() && i != 0 && !(units + j <= i < units + kk) && !is_split_buddy(
                    i,
                    sm,
                    j,
                    kk,
                ) ==> #[trigger] m.0[i] == c[i]
        }),
    decreases kk - j,
{
    lemma_buddy_units_bounds(sm, j, kk);
    lemma_pow2_pos((kk - sm) as nat);
    if j == kk {
    } else {
        let m0 = pow2((j - sm) as nat) as int;
        lemma_pow2_pos((j - sm) as nat);
        let b = buddy_off(0, (j - sm) as nat);
        assert(b == m0);
        assert(c[b] == lone_free_rec(j, units + j));
        let c1 = spliced_out(c, b);
        assert(c1[units + j] == sent_rec(j, units + j));
        assert(c1[b] == c[b]);
        let c2 = c1.update(0, Avail { kval: (j + 1) as u16, ..c1[0] });
        assert(c2[0] == Avail {
            tag: BLOCK_AVAIL,
            kval: (j + 1) as u16,
            next: (units + kk) as usize,
            prev: (units + kk) as usize,
        });
        assert(coalesce(c, sm, kk, 0, j) == coalesce(c2, sm, kk, 0, (j + 1) as nat));
        assert forall|jj: nat|
            j + 1 <= jj < kk implies #[trigger] c2[units + jj] == sent_rec(jj, pow2((jj - sm) as nat) as int)
            by {
            assert(c[units + jj] == sent_rec(jj, pow2((jj - sm) as nat) as int));
        }
        assert forall|jj: nat|
            j + 1 <= jj < kk implies c2[#[trigger] pow2((jj - sm) as nat) as int] == lone_free_rec(
            jj,
            units + jj,
        ) by {
            assert(c[pow2((jj - sm) as nat) as int] == lone_free_rec(jj, units + jj));
        }
        lemma_coalesce_ladder(c2, units, sm, kk, (j + 1) as nat);
        let m = coalesce(c2, sm, kk, 0, (j + 1) as nat);
        assert(m.0[units + j] == sent_rec(j, units + j)) by {
            assert(!is_split_buddy(units + j, sm, (j + 1) as nat, kk));
        }
        assert(m.0[m0] == lone_free_rec(j, units + j)) by {
            assert(!is_split_buddy(m0, sm, (j + 1) as nat, kk));
        }
        assert forall|jj: nat| j <= jj < kk implies #[trigger] m.0[units + jj] == sent_rec(jj, units + jj) by {
        }
        assert forall|i: int|
            0 <= i < c.len() && i != 0 && !(units + j <= i < units + kk) && !is_split_buddy(
                i,
                sm,
                j,
                kk,
            ) implies m.0[i] == c[i] by {
            assert(!is_split_buddy(i, sm, (j + 1) as nat, kk));
            assert(i != m0);
            assert(c2[i] == c[i]);
        }
    }
}

/// A create–destroy pair touches the region provider symmetrically: the
/// pool that `buddy_init_config(size, base, cfg)` builds records exactly
/// the region it asked for, so the pair `buddy_destroy` returns — the
/// release request — names the same base address and the same byte count
/// as the reserve that created the pool.
pub proof fn lemma_region_round_trip(p: BuddyPool, size: usize, base: usize, cfg: PoolConfig)
    requires
        p.base == base,
        p.numbytes == pow2(kval_for(size, cfg)),
    ensures
        (p.base, p.numbytes) == (base, pow2(kval_for(size, cfg)) as usize),
{
}

/// When every list from order `k` up to `f - 1` is empty and order `f`'s
/// is not, the upward search lands exactly on `f`.
pub proof fn lemma_find_order_first(s: Seq<Avail>, units: int, k: nat, f: nat, top: nat)
    requires
        k <= f <= top,
        forall|j: int| k <= j < f ==> (#[trigger] s[units + j]).next == (units + j) as usize,
        s[units + f].next != (units + f) as usize,
    ensures
        find_order(s, units, k, top) == f,
    decreases f - k,
{
    if k < f {
        lemma_find_order_first(s, units, (k + 1) as nat, f, top);
    }
}

/// The bookkeeping facts shared by the laws below: a freshly created pool
/// has its whole region as one block at unit `0` in the top order's list,
/// so an allocation the pool can serve takes that block, returns the
/// address just past its header, and leaves the arena as `alloc_nodes`
/// describes.
proof fn lemma_alloc_from_init(p0: BuddyPool, p1: BuddyPool, size: usize, r: Option<usize>)
    requires
        p0.wf(),
        p0.nodes@ == init_nodes(p0.kval_m as nat, p0.smallest_k as nat),
        size > 0,
        req_order(size as nat, p0.header_size as nat, p0.smallest_k as nat) <= p0.kval_m as nat,
        p0.same_shape(p1),
        malloc_post(p0, p1, size, r),
    ensures
        r == Some((p0.base + p0.header_size) as usize),
        p0.base + p0.header_size <= usize::MAX,
        p0.units + p0.kval_m + 1 <= usize::MAX,
        find_order(
            p0.nodes@,
            p0.units as int,
            req_order(size as nat, p0.header_size as nat, p0.smallest_k as nat),
            p0.kval_m as nat,
        ) == p0.kval_m as int,
        good_head(p0, 0, p0.kval_m as nat),
        p1.nodes@ == alloc_nodes(
            p0.nodes@,
            p0.units as int,
            p0.smallest_k as nat,
            0,
            p0.kval_m as nat,
            req_order(size as nat, p0.header_size as nat, p0.smallest_k as nat),
        ),
{
    let kk = p0.kval_m as nat;
    let sm = p0.smallest_k as nat;
    let units = p0.units as int;
    let req = req_order(size as nat, p0.header_size as nat, sm);
    let s0 = p0.nodes@;
    lemma_pow2_pos((kk - sm) as nat);
    lemma_pow2_pos(sm);
    if sm < kk {
        lemma_pow2_strictly_increases(sm, kk);
    }
    vstd::arithmetic::power2::lemma_pow2_adds((kk - sm) as nat, sm);
    assert(pow2(1) == 2 && pow2(0) == 1) by {
        vstd::arithmetic::power2::lemma2_to64();
    }
    if sm > 1 {
        lemma_pow2_strictly_increases(1, sm);
    }
    assert(units * 2 <= units * pow2(sm)) by (nonlinear_arith)
        requires
            units >= 1,
            pow2(sm) >= 2,
    ;
    assert(units + kk + 1 <= usize::MAX);
    assert forall|j: int|
        req <= j < kk implies (#[trigger] s0[units + j]).next == (units + j) as usize by {}
    assert(s0[units + kk].next != (units + kk) as usize);
    lemma_find_order_first(s0, units, req, kk, kk);
    assert(s0[p0.sent(kk as int)].next as int == 0);
    assert(good_head(p0, 0, kk));
    assert(0 * pow2(sm) == 0);
}

/// Full-cycle idempotence: on a freshly created pool, allocating any size
/// the pool can serve and then releasing the returned address restores the
/// free lists exactly: every sentinel record, and the maximal block's own
/// record, are again as `buddy_init_config` built them. Header records
/// interior to the once-split block are scratch that no list reaches; only
/// they may keep their last contents.
pub proof fn lemma_alloc_free_round_trip(
    p0: BuddyPool,
    p1: BuddyPool,
    p2: BuddyPool,
    size: usize,
    r: Option<usize>,
    rr: u8,
)
    requires
        p0.wf(),
        p0.nodes@ == init_nodes(p0.kval_m as nat, p0.smallest_k as nat),
        size > 0,
        req_order(size as nat, p0.header_size as nat, p0.smallest_k as nat) <= p0.kval_m as nat,
        p0.same_shape(p1),
        malloc_post(p0, p1, size, r),
        p1.same_shape(p2),
        free_post(p1, p2, r, rr),
    ensures
        r == Some((p0.base + p0.header_size) as usize),
        rr == 0,
        forall|i: int|
            0 <= i < p0.nodes.len() && (i == 0 || i >= p0.units) ==> #[trigger] p2.nodes@[i]
                == p0.nodes@[i],
{
    let kk = p0.kval_m as nat;
    let sm = p0.smallest_k as nat;
    let units = p0.units as int;
    let req = req_order(size as nat, p0.header_size as nat, sm);
    let s0 = p0.nodes@;
    let len = s0.len() as int;
    lemma_alloc_from_init(p0, p1, size, r);
    lemma_pow2_pos((kk - sm) as nat);
    lemma_buddy_units_bounds(sm, req, kk);
    // shape of the arena after the allocation
    let s1 = spliced_out(s0, 0);
    assert(s1[units + kk] == sent_rec(kk, units + kk));
    assert forall|j: nat| req <= j < kk implies #[trigger] s1[units + j] == sent_rec(
        j,
        units + j,
    ) by {
        assert(s1[units + j] == s0[units + j]);
    }
    lemma_split_ladder(s1, units, sm, kk, req);
    let t = split_down(s1, units, sm, 0, kk, req);
    assert(!is_split_buddy(0, sm, req, kk));
    assert(t[0] == s0[0]);
    let a1 = reserved_at(t, 0, req);
    assert(p1.nodes@ == a1);
    // the release finds the reserved block back at unit 0
    let addr = (p0.base + p0.header_size) as usize;
    assert(addr - p1.base - p1.header_size == 0);
    assert(p1.unit_of(0) == 0) by {
        lemma_pow2_pos(sm);
        vstd::arithmetic::div_mod::lemma_div_of0(pow2(sm) as int);
    }
    assert(a1[0].tag == BLOCK_RESERVED && a1[0].kval as nat == req);
    let ms = a1.update(0, Avail { tag: BLOCK_AVAIL, ..a1[0] });
    assert(ms[0] == (Avail {
        tag: BLOCK_AVAIL,
        kval: req as u16,
        next: (units + kk) as usize,
        prev: (units + kk) as usize,
    }));
    assert forall|jj: nat| req <= jj < kk implies #[trigger] ms[units + jj] == sent_rec(
        jj,
        pow2((jj - sm) as nat) as int,
    ) by {
        assert(t[units + jj] == sent_rec(jj, pow2((jj - sm) as nat) as int));
    }
    assert forall|jj: nat| req <= jj < kk implies ms[#[trigger] pow2((jj - sm) as nat) as int]
        == lone_free_rec(jj, units + jj) by {
        assert(t[pow2((jj - sm) as nat) as int] == lone_free_rec(jj, units + jj));
    }
    lemma_coalesce_ladder(ms, units, sm, kk, req);
    let m = coalesce(ms, sm, kk, 0, req);
    assert(rr == 0 && p2.nodes@ == inserted_at_head(m.0, m.1, m.2, p1.units + m.2));
    assert(!is_split_buddy(units + kk, sm, req, kk));
    assert(m.0[units + kk] == sent_rec(kk, units + kk));
    let fin = inserted_at_head(m.0, 0, kk, units + kk);
    assert(p2.nodes@ == fin);
    assert(fin[0] == s0[0]);
    assert(fin[units + kk] == s0[units + kk]);
    assert forall|i: int|
        0 <= i < len && (i == 0 || i >= units) implies #[trigger] p2.nodes@[i] == s0[i] by {
        if i != 0 && i != units + kk {
            assert(!is_split_buddy(i, sm, req, kk));
            if units + req <= i < units + kk {
                let jj = (i - units) as nat;
                assert(m.0[units + jj] == sent_rec(jj, units + jj));
                assert(s0[i] == sent_rec(jj, units + jj));
                assert(fin[i] == m.0[i]);
            } else {
                assert(m.0[i] == ms[i]);
                assert(ms[i] == a1[i] && a1[i] == t[i]);
                assert(t[i] == s1[i]);
                assert(s1[i] == s0[i]);
                assert(fin[i] == m.0[i]);
            }
        }
    }
}

/// Capacity boundary: on a freshly created pool, a request whose
/// header-adjusted size needs the whole region succeeds, taking the single
/// maximal block; after it, a request of any positive size fails and
/// leaves the pool unchanged, until the block is released.
pub proof fn lemma_capacity_boundary(
    p0: BuddyPool,
    p1: BuddyPool,
    p2: BuddyPool,
    size: usize,
    r: Option<usize>,
    size2: usize,
    r2: Option<usize>,
)
    requires
        p0.wf(),
        p0.nodes@ == init_nodes(p0.kval_m as nat, p0.smallest_k as nat),
        size > 0,
        req_order(size as nat, p0.header_size as nat, p0.smallest_k as nat) == p0.kval_m as nat,
        p0.same_shape(p1),
        malloc_post(p0, p1, size, r),
        size2 > 0,
        p1.same_shape(p2),
        malloc_post(p1, p2, size2, r2),
    ensures
        r == Some((p0.base + p0.header_size) as usize),
        r2 is None,
        p2.nodes@ == p1.nodes@,
{
    let kk = p0.kval_m as nat;
    let sm = p0.smallest_k as nat;
    let units = p0.units as int;
    let s0 = p0.nodes@;
    lemma_alloc_from_init(p0, p1, size, r);
    lemma_pow2_pos((kk - sm) as nat);
    let s1 = spliced_out(s0, 0);
    assert(split_down(s1, units, sm, 0, kk, kk) == s1);
    let a1 = reserved_at(s1, 0, kk);
    assert(p1.nodes@ == a1);
    assert(s1[units + kk] == sent_rec(kk, units + kk));
    let req2 = req_order(size2 as nat, p1.header_size as nat, p1.smallest_k as nat);
    assert forall|j: int|
        req2 <= j <= kk implies (#[trigger] a1[units + j]).next == (units + j) as usize by {
        if j < kk {
            assert(a1[units + j] == s0[units + j]);
        }
    }
    lemma_find_order_empty(p1.nodes@, units, req2, kk);
}

/// A found order lies between the starting order and the top.
pub proof fn lemma_find_order_bounds(s: Seq<Avail>, units: int, k: nat, top: nat)
    ensures
        find_order(s, units, k, top) == -1 || k <= find_order(s, units, k, top) <= top,
    decreases top + 1 - k,
{
    if k <= top {
        lemma_find_order_bounds(s, units, (k + 1) as nat, top);
    }
}

/// Whatever `buddy_malloc` hands out can be handed straight back: the
/// returned address satisfies everything `buddy_free` demands of a
/// releasable address, and the block behind it is reserved at the
/// requested order. An allocate–release pair therefore always composes.
pub proof fn lemma_malloc_result_releasable(
    p0: BuddyPool,
    p1: BuddyPool,
    size: usize,
    addr: usize,
)
    requires
        p0.wf(),
        p0.same_shape(p1),
        malloc_post(p0, p1, size, Some(addr)),
    ensures
        crate::pool::free_target_ok(p1, addr as int),
        p1.nodes@[p1.unit_of(addr - p1.base - p1.header_size)].tag == BLOCK_RESERVED,
        p1.nodes@[p1.unit_of(addr - p1.base - p1.header_size)].kval as nat == req_order(
            size as nat,
            p0.header_size as nat,
            p0.smallest_k as nat,
        ),
{
    let sm = p0.smallest_k as nat;
    let kk = p0.kval_m as nat;
    let units = p0.units as int;
    let req = req_order(size as nat, p0.header_size as nat, sm);
    let s0 = p0.nodes@;
    lemma_find_order_bounds(s0, units, req, kk);
    let k0 = find_order(s0, units, req, kk) as nat;
    let u = s0[p0.sent(k0 as int)].next as int;
    assert(good_head(p0, u, k0));
    lemma_pow2_pos(sm);
    lemma_pow2_pos((k0 - sm) as nat);
    if sm < kk {
        lemma_pow2_strictly_increases(sm, kk);
    }
    vstd::arithmetic::power2::lemma_pow2_adds((kk - sm) as nat, sm);
    let su = pow2(sm) as int;
    assert((u + 1) * su <= units * su && (u + 1) * su == u * su + su) by (nonlinear_arith)
        requires
            u < units,
            su >= 1,
    ;
    let off = u * su;
    assert(p0.base + off + p0.header_size <= p0.base + p0.numbytes);
    assert(addr == p1.base + off + p1.header_size);
    vstd::arithmetic::div_mod::lemma_mod_multiples_basic(u, su);
    vstd::arithmetic::div_mod::lemma_div_by_multiple(u, su);
    assert(p1.unit_of(off) == u);
    // the final write of the allocation stamps the block reserved at `req`
    let t = split_down(spliced_out(s0, u), units, sm, u, k0, req);
    crate::buddy_math::lemma_pow2_divides((k0 - sm) as nat, (kk - sm) as nat);
    crate::buddy_math::lemma_aligned_below(u, pow2((k0 - sm) as nat) as int, units);
    let sp = spliced_out(s0, u);
    assert(sp.len() == s0.len());
    assert forall|i: int|
        0 <= i < sp.len() implies (#[trigger] sp[i]).next < sp.len() && sp[i].prev < sp.len() by {
        assert(s0[s0[u].prev as int].next < s0.len() && s0[s0[u].next as int].prev < s0.len());
    }
    crate::pool::lemma_split_down_len(sp, units, sm, u, k0, req);
    assert(t.len() == s0.len());
    assert(p1.nodes@ == reserved_at(t, u, req));
    assert(p1.nodes@[u].tag == BLOCK_RESERVED && p1.nodes@[u].kval == req as u16);
    crate::buddy_math::lemma_aligned_coarser(u, (req - sm) as nat, (k0 - sm) as nat);
}

/// When every free list from order `k` up is empty, no order is found.
pub proof fn lemma_find_order_empty(s: Seq<Avail>, units: int, k: nat, top: nat)
    requires
        forall|j: int| k <= j <= top ==> (#[trigger] s[units + j]).next == (units + j) as usize,
    ensures
        find_order(s, units, k, top) == -1,
    decreases top + 1 - k,
{
    if k <= top {
        lemma_find_order_empty(s, units, (k + 1) as nat, top);
    }
}

} // verus!
