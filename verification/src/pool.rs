//! The buddy pool: per-order free lists over an arena of block headers,
//! with split-on-allocate and coalesce-on-release.
//!
//! The pool never touches the backing memory region itself; it records the
//! region's base address and keeps every block header in its own arena,
//! one record per smallest-block unit. A block at byte offset `off` of
//! order `k` is represented by the record at index `off / 2^smallest_k`.
//! The records at indices `units..units + kval_m + 1` are the per-order
//! sentinels; a sentinel whose `next` points to itself heads an empty list.

use vstd::prelude::*;
use vstd::arithmetic::power2::{
    pow2, lemma_pow2_pos, lemma_pow2_unfold, lemma_pow2_adds, lemma_pow2_strictly_increases,
};
use crate::size_class::{btok, pow2_usize, size_class};
use crate::buddy_math::{buddy_off, lemma_buddy_range, lemma_pow2_divides, lemma_align_minus, lemma_mod_split};

verus! {

/// Status tag of an available (free) block.
pub const BLOCK_AVAIL: u16 = 1;
/// Status tag of a reserved (allocated) block.
pub const BLOCK_RESERVED: u16 = 0;
/// Status tag of a sentinel record, which never stands for real memory.
pub const BLOCK_UNUSED: u16 = 3;

/// Default pool order when no size is requested.
pub const DEFAULT_K: usize = 30;
/// Smallest order a pool may have.
pub const MIN_K: usize = 20;
/// Exclusive upper bound on a pool's order.
pub const MAX_K: usize = 48;
/// Smallest order a single block may have.
pub const SMALLEST_K: usize = 6;
/// Bytes reserved at the front of every block for its header; the address
/// handed to the caller points just past them.
pub const HEADER_SIZE: usize = 24;

/// One block header: status, order, and the links of the circular
/// doubly-linked free list it may sit in. `next` and `prev` are indices
/// into the pool's header arena.
#[derive(Clone, Copy, Debug, PartialEq, Eq, Structural)]
pub struct Avail {
    pub tag: u16,
    pub kval: u16,
    pub next: usize,
    pub prev: usize,
}

/// The sizing constants a pool is created with.
#[derive(Clone, Copy, Debug, PartialEq, Eq, Structural)]
pub struct PoolConfig {
    pub min_k: usize,
    pub max_k: usize,
    pub default_k: usize,
    pub smallest_k: usize,
    pub header_size: usize,
}

impl PoolConfig {
    /// A usable configuration: orders fit the machine word and every block
    /// can hold a header.
    pub open spec fn valid(self) -> bool {
        &&& 1 <= self.smallest_k
        &&& self.smallest_k <= self.min_k
        &&& self.min_k < self.max_k
        &&& self.max_k <= MAX_K
        &&& self.header_size <= pow2(self.smallest_k as nat)
    }
}

impl Default for PoolConfig {
    /// The standard configuration.
    fn default() -> (c: PoolConfig)
        ensures
            c == (PoolConfig {
                min_k: MIN_K,
                max_k: MAX_K,
                default_k: DEFAULT_K,
                smallest_k: SMALLEST_K,
                header_size: HEADER_SIZE,
            }),
            c.valid(),
    {
        proof {
            vstd::arithmetic::power2::lemma2_to64();
        }
        PoolConfig {
            min_k: MIN_K,
            max_k: MAX_K,
            default_k: DEFAULT_K,
            smallest_k: SMALLEST_K,
            header_size: HEADER_SIZE,
        }
    }
}

/// The buddy memory pool.
pub struct BuddyPool {
    /// Order of the whole region: the pool manages `2^kval_m` bytes.
    pub kval_m: usize,
    /// Number of bytes in the region, always `2^kval_m`.
    pub numbytes: usize,
    /// Base address of the backing region, as the region provider gave it.
    pub base: usize,
    /// Smallest order a block may be split to.
    pub smallest_k: usize,
    /// Bytes reserved at the front of every block for its header.
    pub header_size: usize,
    /// Number of smallest-block units in the region.
    pub units: usize,
    /// Header arena: one record per unit, then one sentinel per order.
    pub nodes: Vec<Avail>,
}

impl BuddyPool {
    /// Index of the sentinel heading the order-`k` free list.
    pub open spec fn sent(self, k: int) -> int {
        self.units + k
    }

    /// Structural well-formedness: sizes agree, every link lands inside the
    /// arena, block orders stay within the pool's range, and sentinels keep
    /// their tag and order.
    pub open spec fn wf(self) -> bool {
        &&& 1 <= self.smallest_k <= self.kval_m
        &&& self.kval_m < MAX_K
        &&& self.numbytes == pow2(self.kval_m as nat)
        &&& self.units == pow2((self.kval_m - self.smallest_k) as nat)
        &&& self.header_size <= pow2(self.smallest_k as nat)
        &&& self.nodes.len() == self.units + self.kval_m + 1
        &&& forall|i: int|
            0 <= i < self.nodes.len() ==> (#[trigger] self.nodes[i]).next < self.nodes.len()
                && self.nodes[i].prev < self.nodes.len()
        &&& forall|i: int|
            0 <= i < self.units ==> self.smallest_k <= (#[trigger] self.nodes[i]).kval
                <= self.kval_m
        &&& forall|k: int|
            0 <= k <= self.kval_m ==> (#[trigger] self.nodes[self.units + k]).kval == k
                && self.nodes[self.units + k].tag == BLOCK_UNUSED
        &&& self.base + self.numbytes <= usize::MAX
    }

    /// The arena index of the block header at byte offset `off`.
    pub open spec fn unit_of(self, off: int) -> int {
        off / (pow2(self.smallest_k as nat) as int)
    }

    /// The recorded order of the block at byte offset `off`.
    pub open spec fn order_at(self, off: int) -> nat {
        self.nodes[self.unit_of(off)].kval as nat
    }

    /// A byte offset that starts a smallest-block unit inside the region.
    pub open spec fn offset_in_range(self, off: int) -> bool {
        &&& 0 <= off < self.numbytes
        &&& off % (pow2(self.smallest_k as nat) as int) == 0
    }

    /// Everything but the header arena's contents: the pool's shape and
    /// identity, which allocate and release never change.
    pub open spec fn same_shape(self, other: BuddyPool) -> bool {
        &&& self.kval_m == other.kval_m
        &&& self.numbytes == other.numbytes
        &&& self.base == other.base
        &&& self.smallest_k == other.smallest_k
        &&& self.header_size == other.header_size
        &&& self.units == other.units
        &&& self.nodes.len() == other.nodes.len()
    }
}

/// The arena after excising record `i` from whatever list holds it: its
/// neighbours are linked to each other, `i`'s own record is untouched.
pub open spec fn spliced_out(s: Seq<Avail>, i: int) -> Seq<Avail> {
    let p = s[i].prev as int;
    let n = s[i].next as int;
    let s1 = s.update(p, Avail { next: s[i].next, ..s[p] });
    s1.update(n, Avail { prev: s[i].prev, ..s1[n] })
}

/// The arena after inserting record `i` as an order-`k` block at the head
/// of the list of sentinel `sent`: `i` is tagged available with order `k`
/// and linked between the sentinel and the old head.
pub open spec fn inserted_at_head(s: Seq<Avail>, i: int, k: nat, sent: int) -> Seq<Avail> {
    let h = s[sent].next;
    let s1 = s.update(i, Avail { tag: BLOCK_AVAIL, kval: k as u16, next: h, prev: sent as usize });
    let s2 = s1.update(h as int, Avail { prev: i as usize, ..s1[h as int] });
    s2.update(sent, Avail { next: i as usize, ..s2[sent] })
}

/// Removes a block from the free list currently holding it, in constant
/// time, using only the block's own links.
pub fn remove_block(pool: &mut BuddyPool, i: usize)
    requires
        old(pool).wf(),
        i < old(pool).nodes.len(),
    ensures
        final(pool).wf(),
        old(pool).same_shape(*final(pool)),
        final(pool).nodes@ == spliced_out(old(pool).nodes@, i as int),
{
    let p = pool.nodes[i].prev;
    let n = pool.nodes[i].next;
    let mut rp = pool.nodes[p];
    rp.next = n;
    pool.nodes.set(p, rp);
    let mut rn = pool.nodes[n];
    rn.prev = p;
    pool.nodes.set(n, rn);
}

/// Inserts block `i` at the head of the order-`k` free list, marking it
/// available with order `k`.
pub fn insert_at_head(pool: &mut BuddyPool, i: usize, k: usize)
    requires
        old(pool).wf(),
        i < old(pool).units,
        old(pool).smallest_k <= k <= old(pool).kval_m,
    ensures
        final(pool).wf(),
        old(pool).same_shape(*final(pool)),
        final(pool).nodes@ == inserted_at_head(old(pool).nodes@, i as int, k as nat, old(
            pool,
        ).sent(k as int)),
{
    let sent = pool.units + k;
    let h = pool.nodes[sent].next;
    let mut ri = pool.nodes[i];
    ri.tag = BLOCK_AVAIL;
    ri.kval = k as u16;
    ri.next = h;
    ri.prev = sent;
    pool.nodes.set(i, ri);
    let mut rh = pool.nodes[h];
    rh.prev = i;
    pool.nodes.set(h, rh);
    let mut rs = pool.nodes[sent];
    rs.next = i;
    pool.nodes.set(sent, rs);
}

/// The standard pool configuration.
pub open spec fn default_config() -> PoolConfig {
    PoolConfig {
        min_k: MIN_K,
        max_k: MAX_K,
        default_k: DEFAULT_K,
        smallest_k: SMALLEST_K,
        header_size: HEADER_SIZE,
    }
}

/// The order a pool created for `size` bytes gets: the size class of the
/// request (or the default order when no size is given), clamped to the
/// configured range.
pub open spec fn kval_for(size: usize, cfg: PoolConfig) -> nat {
    let k = if size == 0 {
        cfg.default_k as nat
    } else {
        size_class(size as nat)
    };
    if k < cfg.min_k {
        cfg.min_k as nat
    } else if k > cfg.max_k - 1 {
        (cfg.max_k - 1) as nat
    } else {
        k
    }
}

/// The header arena of a freshly created pool of order `kval`: one maximal
/// available block at unit `0`, sitting in the top order's list; every other
/// order's list empty; every other unit record blank.
pub open spec fn init_nodes(kval: nat, sm: nat) -> Seq<Avail> {
    let units = pow2((kval - sm) as nat) as int;
    Seq::new(
        (units + kval + 1) as nat,
        |i: int|
            if i == 0 {
                Avail {
                    tag: BLOCK_AVAIL,
                    kval: kval as u16,
                    next: (units + kval) as usize,
                    prev: (units + kval) as usize,
                }
            } else if i < units {
                Avail { tag: BLOCK_RESERVED, kval: sm as u16, next: i as usize, prev: i as usize }
            } else if i == units + kval {
                Avail { tag: BLOCK_UNUSED, kval: kval as u16, next: 0, prev: 0 }
            } else {
                Avail {
                    tag: BLOCK_UNUSED,
                    kval: (i - units) as u16,
                    next: i as usize,
                    prev: i as usize,
                }
            },
    )
}

/// Creates a pool of `2^kval_for(size, cfg)` bytes over the region at
/// `base`, which the caller must have reserved from the region provider
/// with exactly that many bytes. The whole region forms a single available
/// block in the top order's free list.
pub fn buddy_init_config(size: usize, base: usize, cfg: PoolConfig) -> (pool: BuddyPool)
    requires
        cfg.valid(),
        base + pow2(kval_for(size, cfg)) <= usize::MAX,
    ensures
        pool.wf(),
        pool.kval_m as nat == kval_for(size, cfg),
        pool.numbytes == pow2(kval_for(size, cfg)),
        pool.base == base,
        pool.smallest_k == cfg.smallest_k,
        pool.header_size == cfg.header_size,
        pool.nodes@ == init_nodes(kval_for(size, cfg), cfg.smallest_k as nat),
{
    let k0 = if size == 0 {
        cfg.default_k
    } else {
        btok(size)
    };
    let kv = if k0 < cfg.min_k {
        cfg.min_k
    } else if k0 > cfg.max_k - 1 {
        cfg.max_k - 1
    } else {
        k0
    };
    proof {
        assert(kv as nat == kval_for(size, cfg));
        lemma_pow2_strictly_increases((kv - cfg.smallest_k) as nat, kv as nat);
        vstd::arithmetic::power2::lemma2_to64();
        lemma_pow2_adds((kv - cfg.smallest_k) as nat, cfg.smallest_k as nat);
        lemma_pow2_pos((kv - cfg.smallest_k) as nat);
        assert(pow2(1) == 2 && pow2(0) == 1);
        if cfg.smallest_k > 1 {
            lemma_pow2_strictly_increases(1, cfg.smallest_k as nat);
        }
        assert(pow2((kv - cfg.smallest_k) as nat) * 2 <= pow2((kv - cfg.smallest_k) as nat)
            * pow2(cfg.smallest_k as nat)) by (nonlinear_arith)
            requires
                pow2((kv - cfg.smallest_k) as nat) >= 1,
                pow2(cfg.smallest_k as nat) >= 2,
        ;
    }
    let numbytes = pow2_usize(kv);
    let units = pow2_usize(kv - cfg.smallest_k);
    let mut nodes: Vec<Avail> = Vec::new();
    let mut i: usize = 0;
    while i < units
        invariant
            i <= units,
            nodes.len() == i,
            forall|j: int|
                0 <= j < i ==> nodes[j] == (Avail {
                    tag: BLOCK_RESERVED,
                    kval: cfg.smallest_k as u16,
                    next: j as usize,
                    prev: j as usize,
                }),
        decreases units - i,
    {
        nodes.push(Avail { tag: BLOCK_RESERVED, kval: cfg.smallest_k as u16, next: i, prev: i });
        i = i + 1;
    }
    let mut k: usize = 0;
    while k <= kv
        invariant
            k <= kv + 1,
            units + kv + 1 <= usize::MAX,
            nodes.len() == units + k,
            forall|j: int|
                0 <= j < units ==> nodes[j] == (Avail {
                    tag: BLOCK_RESERVED,
                    kval: cfg.smallest_k as u16,
                    next: j as usize,
                    prev: j as usize,
                }),
            forall|j: int|
                units <= j < units + k ==> nodes[j] == (Avail {
                    tag: BLOCK_UNUSED,
                    kval: (j - units) as u16,
                    next: j as usize,
                    prev: j as usize,
                }),
        decreases kv + 1 - k,
    {
        nodes.push(Avail { tag: BLOCK_UNUSED, kval: k as u16, next: units + k, prev: units + k });
        k = k + 1;
    }
    let top = units + kv;
    nodes.set(0, Avail { tag: BLOCK_AVAIL, kval: kv as u16, next: top, prev: top });
    nodes.set(top, Avail { tag: BLOCK_UNUSED, kval: kv as u16, next: 0, prev: 0 });
    let pool = BuddyPool {
        kval_m: kv,
        numbytes,
        base,
        smallest_k: cfg.smallest_k,
        header_size: cfg.header_size,
        units,
        nodes,
    };
    proof {
        assert(pool.nodes@ =~= init_nodes(kval_for(size, cfg), cfg.smallest_k as nat));
    }
    pool
}

/// Creates a pool with the standard configuration.
pub fn buddy_init(size: usize, base: usize) -> (pool: BuddyPool)
    requires
        base + pow2(kval_for(size, default_config())) <= usize::MAX,
    ensures
        pool.wf(),
        pool.kval_m as nat == kval_for(size, default_config()),
        pool.numbytes == pow2(kval_for(size, default_config())),
        pool.base == base,
        pool.smallest_k == SMALLEST_K,
        pool.header_size == HEADER_SIZE,
        pool.nodes@ == init_nodes(kval_for(size, default_config()), SMALLEST_K as nat),
{
    let cfg = PoolConfig::default();
    buddy_init_config(size, base, cfg)
}

/// Tears the pool down: consumes it and hands back the release request the
/// region provider must receive — the base address and byte count of the
/// region reserved at creation, and nothing else.
pub fn buddy_destroy(pool: BuddyPool) -> (r: (usize, usize))
    ensures
        r.0 == pool.base,
        r.1 == pool.numbytes,
{
    (pool.base, pool.numbytes)
}

/// Finds the buddy of the block starting at byte offset `offset` (relative
/// to the pool's base), at the block's recorded order: the sibling block
/// with which it fills their common parent.
pub fn buddy_calc(pool: &BuddyPool, offset: usize) -> (r: usize)
    requires
        pool.wf(),
        pool.offset_in_range(offset as int),
        pool.order_at(offset as int) < pool.kval_m,
        offset as int % (pow2(pool.order_at(offset as int)) as int) == 0,
    ensures
        r as int == buddy_off(offset as int, pool.order_at(offset as int)),
        pool.offset_in_range(r as int),
        r as int % (pow2(pool.order_at(offset as int)) as int) == 0,
{
    proof {
        lemma_pow2_pos(pool.smallest_k as nat);
        if pool.smallest_k < pool.kval_m {
            lemma_pow2_strictly_increases(pool.smallest_k as nat, pool.kval_m as nat);
        }
    }
    let su = pow2_usize(pool.smallest_k);
    let u = offset / su;
    proof {
        lemma_pow2_adds((pool.kval_m - pool.smallest_k) as nat, pool.smallest_k as nat);
        vstd::arithmetic::div_mod::lemma_multiply_divide_lt(
            offset as int,
            su as int,
            pool.units as int,
        );
        vstd::arithmetic::div_mod::lemma_div_pos_is_pos(offset as int, su as int);
    }
    let k = pool.nodes[u].kval as usize;
    proof {
        assert(k as nat == pool.order_at(offset as int));
        lemma_pow2_pos(k as nat);
        lemma_pow2_strictly_increases(k as nat, pool.kval_m as nat);
        lemma_pow2_unfold((k + 1) as nat);
        if k + 1 < pool.kval_m {
            lemma_pow2_strictly_increases((k + 1) as nat, pool.kval_m as nat);
        }
        lemma_pow2_divides((k + 1) as nat, pool.kval_m as nat);
        lemma_buddy_range(offset as int, k as nat, pool.numbytes as int);
        crate::buddy_math::lemma_shift_preserves_alignment(
            offset as int,
            k as nat,
            pool.smallest_k as nat,
        );
    }
    let size = pow2_usize(k);
    let parent = 2 * size;
    if offset % parent == 0 {
        offset + size
    } else {
        offset - size
    }
}

/// The order an allocation request must be served at: the size class of
/// the request plus its header, floored at the smallest order.
pub open spec fn req_order(size: nat, header: nat, sm: nat) -> nat {
    let c = size_class(size + header);
    if c < sm {
        sm
    } else {
        c
    }
}

/// The first order in `k..=top` whose free list is non-empty (its sentinel
/// does not point to itself), or `-1` when every one of them is empty.
pub open spec fn find_order(s: Seq<Avail>, units: int, k: nat, top: nat) -> int
    decreases top + 1 - k,
{
    if k > top {
        -1
    } else if s[units + k].next != (units + k) as usize {
        k as int
    } else {
        find_order(s, units, (k + 1) as nat, top)
    }
}

/// What the head of the order-`k` free list must look like in a sound
/// pool: a real unit, available, of order `k`, aligned to its own size.
pub open spec fn good_head(p: BuddyPool, u: int, k: nat) -> bool {
    &&& 0 <= u < p.units
    &&& p.nodes[u].tag == BLOCK_AVAIL
    &&& p.nodes[u].kval as nat == k
    &&& u % (pow2((k - p.smallest_k) as nat) as int) == 0
}

/// The arena after splitting the block at unit `u` from order `from` down
/// to order `to`: at each intermediate order the upper half becomes an
/// available buddy at the head of that order's list, and the lower half is
/// split further.
pub open spec fn split_down(s: Seq<Avail>, units: int, sm: nat, u: int, from: nat, to: nat) -> Seq<
    Avail,
>
    decreases from,
{
    if from <= to {
        s
    } else {
        let k = (from - 1) as nat;
        let buddy = u + pow2((k - sm) as nat);
        split_down(inserted_at_head(s, buddy, k, units + k), units, sm, u, k, to)
    }
}

/// The arena after marking unit `u` as a reserved block of order `k`.
pub open spec fn reserved_at(s: Seq<Avail>, u: int, k: nat) -> Seq<Avail> {
    s.update(u, Avail { tag: BLOCK_RESERVED, kval: k as u16, ..s[u] })
}

/// The whole effect of a successful allocation on the header arena: the
/// found block leaves its list, is split down to the requested order, and
/// is marked reserved.
pub open spec fn alloc_nodes(s: Seq<Avail>, units: int, sm: nat, u: int, k0: nat, req: nat) -> Seq<
    Avail,
> {
    reserved_at(split_down(spliced_out(s, u), units, sm, u, k0, req), u, req)
}

/// Everything `buddy_malloc` does, as a relation between the pool before
/// (`p0`) and after (`p1`) and the returned address: a zero-size request
/// fails; when no list at or above the needed order has a block, the
/// request fails with the pool untouched; otherwise the head of the first
/// non-empty list is allocated and the address just past its header is
/// returned. A head record that a contract-violating release has corrupted
/// is rejected rather than followed out of bounds.
pub open spec fn malloc_post(p0: BuddyPool, p1: BuddyPool, size: usize, r: Option<usize>) -> bool {
    let sm = p0.smallest_k as nat;
    let req = req_order(size as nat, p0.header_size as nat, sm);
    let k0 = find_order(p0.nodes@, p0.units as int, req, p0.kval_m as nat);
    if size == 0 || k0 < 0 {
        &&& r is None
        &&& p1.nodes@ == p0.nodes@
    } else {
        let u = p0.nodes[p0.sent(k0)].next as int;
        if good_head(p0, u, k0 as nat) {
            &&& r == Some((p0.base + u * pow2(sm) + p0.header_size) as usize)
            &&& p1.nodes@ == alloc_nodes(p0.nodes@, p0.units as int, sm, u, k0 as nat, req)
        } else {
            &&& r is None
            &&& p1.nodes@ == p0.nodes@
        }
    }
}

/// Splitting writes only inside the arena: it keeps the arena's length and
/// keeps every link pointing inside it.
pub proof fn lemma_split_down_len(s: Seq<Avail>, units: int, sm: nat, u: int, from: nat, to: nat)
    requires
        sm <= to <= from,
        0 <= u,
        u + pow2((from - sm) as nat) <= units,
        units + from <= s.len(),
        forall|i: int|
            0 <= i < s.len() ==> (#[trigger] s[i]).next < s.len() && s[i].prev < s.len(),
    ensures
        split_down(s, units, sm, u, from, to).len() == s.len(),
        forall|i: int|
            0 <= i < s.len() ==> (#[trigger] split_down(s, units, sm, u, from, to)[i]).next
                < s.len() && split_down(s, units, sm, u, from, to)[i].prev < s.len(),
    decreases from - to,
{
    if from > to {
        let k = (from - 1) as nat;
        lemma_pow2_strictly_increases((k - sm) as nat, (from - sm) as nat);
        let buddy = u + pow2((k - sm) as nat);
        let s2 = inserted_at_head(s, buddy, k, units + k);
        assert(s2.len() == s.len());
        assert forall|i: int|
            0 <= i < s2.len() implies (#[trigger] s2[i]).next < s2.len() && s2[i].prev
            < s2.len() by {
            assert(s[units + k].next < s.len());
        }
        assert(split_down(s, units, sm, u, from, to) == split_down(s2, units, sm, u, k, to));
        lemma_split_down_len(s2, units, sm, u, k, to);
    }
}

/// Splitting down to order `to` is one insertion of the order-`to` buddy
/// after splitting down to order `to + 1`.
pub proof fn lemma_split_down_step(s: Seq<Avail>, units: int, sm: nat, u: int, from: nat, to: nat)
    requires
        sm <= to < from,
    ensures
        split_down(s, units, sm, u, from, to) == inserted_at_head(
            split_down(s, units, sm, u, from, (to + 1) as nat),
            u + pow2((to - sm) as nat),
            to,
            units + to,
        ),
    decreases from - to,
{
    let k = (from - 1) as nat;
    let s2 = inserted_at_head(s, u + pow2((k - sm) as nat), k, units + k);
    assert(split_down(s, units, sm, u, from, to) == split_down(s2, units, sm, u, k, to));
    if from == to + 1 {
        assert(split_down(s2, units, sm, u, k, to) == s2);
    } else {
        lemma_split_down_step(s2, units, sm, u, k, to);
        assert(split_down(s, units, sm, u, from, (to + 1) as nat) == split_down(
            s2,
            units,
            sm,
            u,
            k,
            (to + 1) as nat,
        ));
    }
}

/// Allocates a block of at least `size` usable bytes, returning the
/// address of the byte just past the block's header. Returns `None` on a
/// zero-size request, and `None` — with the pool unchanged — when no free
/// block of sufficient order exists.
pub fn buddy_malloc(pool: &mut BuddyPool, size: usize) -> (r: Option<usize>)
    requires
        old(pool).wf(),
    ensures
        final(pool).wf(),
        old(pool).same_shape(*final(pool)),
        malloc_post(*old(pool), *final(pool), size, r),
{
    let ghost p0 = *pool;
    if size == 0 {
        return None;
    }
    if size > usize::MAX - pool.header_size {
        // With its header the request outgrows the machine word, so its
        // order exceeds the pool's own: capacity exhaustion.
        proof {
            crate::size_class::lemma_size_class_above(
                (size + pool.header_size) as nat,
                pool.kval_m as nat,
            );
        }
        return None;
    }
    let mut req_k = btok(size + pool.header_size);
    if req_k < pool.smallest_k {
        req_k = pool.smallest_k;
    }
    let ghost req = req_order(size as nat, p0.header_size as nat, p0.smallest_k as nat);
    let mut k = req_k;
    while k <= pool.kval_m && pool.nodes[pool.units + k].next == pool.units + k
        invariant
            *pool == p0,
            pool.wf(),
            req_k <= k,
            req_k as nat == req,
            find_order(pool.nodes@, pool.units as int, req, pool.kval_m as nat) == find_order(
                pool.nodes@,
                pool.units as int,
                k as nat,
                pool.kval_m as nat,
            ),
        decreases pool.kval_m + 2 - k,
    {
        k = k + 1;
    }
    if k > pool.kval_m {
        return None;
    }
    let u = pool.nodes[pool.units + k].next;
    proof {
        lemma_pow2_pos((k - pool.smallest_k) as nat);
        if k - pool.smallest_k < pool.kval_m - pool.smallest_k {
            lemma_pow2_strictly_increases(
                (k - pool.smallest_k) as nat,
                (pool.kval_m - pool.smallest_k) as nat,
            );
        }
    }
    let d = k - pool.smallest_k;
    let bu = pow2_usize(d);
    if u >= pool.units || pool.nodes[u].tag != BLOCK_AVAIL || (pool.nodes[u].kval as usize) != k
        || u % bu != 0 {
        // The recorded head is not a sound order-`k` block; the free list
        // was corrupted by some contract-violating release. Fail rather
        // than write through it.
        return None;
    }
    proof {
        assert(good_head(p0, u as int, k as nat));
        lemma_pow2_divides((k - pool.smallest_k) as nat, (pool.kval_m - pool.smallest_k) as nat);
        crate::buddy_math::lemma_aligned_below(u as int, bu as int, pool.units as int);
    }
    remove_block(pool, u);
    let ghost s1 = pool.nodes@;
    let ghost k0 = k as nat;
    while k > req_k
        invariant
            pool.wf(),
            p0.same_shape(*pool),
            pool.smallest_k <= req_k <= k <= k0,
            k0 <= pool.kval_m,
            u < pool.units,
            u + pow2((k0 - pool.smallest_k) as nat) <= pool.units,
            u as int % (pow2((k0 - pool.smallest_k) as nat) as int) == 0,
            pool.nodes@ == split_down(
                s1,
                pool.units as int,
                pool.smallest_k as nat,
                u as int,
                k0,
                k as nat,
            ),
        decreases k,
    {
        k = k - 1;
        proof {
            lemma_pow2_pos((k - pool.smallest_k) as nat);
            lemma_pow2_strictly_increases(
                (k - pool.smallest_k) as nat,
                (k0 - pool.smallest_k) as nat,
            );
        }
        let m = pow2_usize(k - pool.smallest_k);
        let buddy = u + m;
        insert_at_head(pool, buddy, k);
        proof {
            lemma_split_down_step(
                s1,
                pool.units as int,
                pool.smallest_k as nat,
                u as int,
                k0,
                k as nat,
            );
        }
    }
    let mut ru = pool.nodes[u];
    ru.tag = BLOCK_RESERVED;
    ru.kval = req_k as u16;
    pool.nodes.set(u, ru);
    proof {
        assert(pool.nodes@ == alloc_nodes(
            p0.nodes@,
            p0.units as int,
            p0.smallest_k as nat,
            u as int,
            k0,
            req,
        ));
        lemma_pow2_adds((p0.kval_m - p0.smallest_k) as nat, p0.smallest_k as nat);
        lemma_pow2_pos(p0.smallest_k as nat);
        if p0.smallest_k < p0.kval_m {
            lemma_pow2_strictly_increases(p0.smallest_k as nat, p0.kval_m as nat);
        }
        assert((u + 1) * pow2(p0.smallest_k as nat) <= p0.units * pow2(p0.smallest_k as nat))
            by (nonlinear_arith)
            requires
                u < p0.units,
                pow2(p0.smallest_k as nat) >= 1,
        ;
    }
    let su = pow2_usize(pool.smallest_k);
    proof {
        assert(pool.numbytes == pool.units * su);
        assert(u * su + su <= pool.numbytes) by (nonlinear_arith)
            requires
                su >= 1,
                u < pool.units,
                pool.numbytes == pool.units * su,
        ;
    }
    let off = u * su;
    Some(pool.base + off + pool.header_size)
}

/// Coalescing to a fixed point, at the header-arena's unit scale: starting
/// from the available block at unit `u` of order `k`, while the top order
/// is not reached and the buddy is available at the same order, the buddy
/// leaves its free list and the two merge into their parent. Yields the
/// final arena, the final block's unit, and its order.
pub open spec fn coalesce(s: Seq<Avail>, sm: nat, top: nat, u: int, k: nat) -> (Seq<Avail>, int, nat)
    decreases top - k,
{
    if k >= top {
        (s, u, k)
    } else {
        let b = buddy_off(u, (k - sm) as nat);
        if s[b].tag != BLOCK_AVAIL || s[b].kval as nat != k {
            (s, u, k)
        } else {
            let s1 = spliced_out(s, b);
            let u1 = if b < u { b } else { u };
            let s2 = s1.update(u1, Avail { kval: (k + 1) as u16, ..s1[u1] });
            coalesce(s2, sm, top, u1, (k + 1) as nat)
        }
    }
}

/// A releasable address: it points just past a header that lies on a unit
/// boundary inside the region, the block there is reserved (or still
/// available, for the detected double release), and sits aligned to its
/// own recorded order. Any other address was never returned by
/// `buddy_malloc` on this pool.
pub open spec fn free_target_ok(p: BuddyPool, addr: int) -> bool {
    let off = addr - p.base - p.header_size;
    &&& p.base + p.header_size <= addr
    &&& p.offset_in_range(off)
    &&& (p.nodes[p.unit_of(off)].tag == BLOCK_AVAIL || p.nodes[p.unit_of(off)].tag
        == BLOCK_RESERVED)
    &&& p.unit_of(off) % (pow2((p.order_at(off) - p.smallest_k) as nat) as int) == 0
}

/// Everything `buddy_free` does, as a relation between the pool before
/// (`p0`) and after (`p1`), the released pointer and the returned status:
/// nothing happens without an address; a block that is already available
/// is left alone (a double release is detected and ignored); otherwise the
/// block becomes available, coalesces with its buddies to a fixed point,
/// and the result heads the free list of its final order.
pub open spec fn free_post(p0: BuddyPool, p1: BuddyPool, ptr: Option<usize>, r: u8) -> bool {
    match ptr {
        None => r == 1 && p1.nodes@ == p0.nodes@,
        Some(addr) => {
            let off = addr - p0.base - p0.header_size;
            let u = p0.unit_of(off);
            if p0.nodes[u].tag == BLOCK_AVAIL {
                r == 0 && p1.nodes@ == p0.nodes@
            } else {
                let s1 = p0.nodes@.update(u, Avail { tag: BLOCK_AVAIL, ..p0.nodes@[u] });
                let merged = coalesce(
                    s1,
                    p0.smallest_k as nat,
                    p0.kval_m as nat,
                    u,
                    p0.nodes@[u].kval as nat,
                );
                r == 0 && p1.nodes@ == inserted_at_head(
                    merged.0,
                    merged.1,
                    merged.2,
                    p0.units + merged.2,
                )
            }
        },
    }
}

/// Releases the block whose usable bytes start at `ptr`, making it
/// available again and coalescing it with its buddy as long as the buddy
/// is also available at the same order. Does nothing without an address.
/// Releasing a block that is already available is ignored; the pool is
/// left intact.
pub fn buddy_free(pool: &mut BuddyPool, ptr: Option<usize>) -> (r: u8)
    requires
        old(pool).wf(),
        ptr matches Some(addr) ==> free_target_ok(*old(pool), addr as int),
    ensures
        final(pool).wf(),
        old(pool).same_shape(*final(pool)),
        free_post(*old(pool), *final(pool), ptr, r),
{
    let ghost p0 = *pool;
    let addr = match ptr {
        None => {
            return 1;
        },
        Some(a) => a,
    };
    proof {
        lemma_pow2_pos(pool.smallest_k as nat);
        if pool.smallest_k < pool.kval_m {
            lemma_pow2_strictly_increases(pool.smallest_k as nat, pool.kval_m as nat);
        }
    }
    let su = pow2_usize(pool.smallest_k);
    let off = addr - pool.base - pool.header_size;
    let u = off / su;
    proof {
        lemma_pow2_adds((pool.kval_m - pool.smallest_k) as nat, pool.smallest_k as nat);
        assert((pool.units * su) as int == (su as int) * (pool.units as int)) by (nonlinear_arith);
        assert((off as int) < (su as int) * (pool.units as int));
        vstd::arithmetic::div_mod::lemma_multiply_divide_lt(
            off as int,
            su as int,
            pool.units as int,
        );
        vstd::arithmetic::div_mod::lemma_div_pos_is_pos(off as int, su as int);
    }
    if pool.nodes[u].tag == BLOCK_AVAIL {
        return 0;
    }
    let mut rec = pool.nodes[u];
    let mut k = rec.kval as usize;
    let mut cu = u;
    rec.tag = BLOCK_AVAIL;
    pool.nodes.set(u, rec);
    let ghost s1 = pool.nodes@;
    let ghost u0 = u as int;
    let ghost kk0 = k as nat;
    while k < pool.kval_m
        invariant
            p0 == *old(pool),
            ptr == Some(addr),
            pool.wf(),
            p0.same_shape(*pool),
            pool.smallest_k <= k <= pool.kval_m,
            cu < pool.units,
            cu as int % (pow2((k - pool.smallest_k) as nat) as int) == 0,
            pool.nodes@[cu as int].tag == BLOCK_AVAIL,
            pool.nodes@[cu as int].kval as nat == k as nat,
            coalesce(s1, pool.smallest_k as nat, pool.kval_m as nat, u0, kk0) == coalesce(
                pool.nodes@,
                pool.smallest_k as nat,
                pool.kval_m as nat,
                cu as int,
                k as nat,
            ),
            s1 == p0.nodes@.update(u0, Avail { tag: BLOCK_AVAIL, ..p0.nodes@[u0] }),
            u0 == p0.unit_of(addr - p0.base - p0.header_size),
            kk0 == p0.nodes@[u0].kval as nat,
            p0.nodes@[u0].tag == BLOCK_RESERVED,
        decreases pool.kval_m - k,
    {
        proof {
            lemma_pow2_pos((k - pool.smallest_k) as nat);
            lemma_pow2_unfold((k + 1 - pool.smallest_k) as nat);
            if k + 1 < pool.kval_m {
                lemma_pow2_strictly_increases(
                    (k + 1 - pool.smallest_k) as nat,
                    (pool.kval_m - pool.smallest_k) as nat,
                );
            }
            lemma_pow2_divides((k + 1 - pool.smallest_k) as nat, (pool.kval_m - pool.smallest_k) as nat);
            lemma_buddy_range(
                cu as int,
                (k - pool.smallest_k) as nat,
                pool.units as int,
            );
        }
        let m = pow2_usize(k - pool.smallest_k);
        let parent = 2 * m;
        let b = if cu % parent == 0 {
            cu + m
        } else {
            cu - m
        };
        proof {
            assert(b as int == buddy_off(cu as int, (k - pool.smallest_k) as nat));
        }
        if pool.nodes[b].tag != BLOCK_AVAIL || (pool.nodes[b].kval as usize) != k {
            proof {
                assert(coalesce(
                    pool.nodes@,
                    pool.smallest_k as nat,
                    pool.kval_m as nat,
                    cu as int,
                    k as nat,
                ) == (pool.nodes@, cu as int, k as nat));
            }
            insert_at_head(pool, cu, k);
            return 0;
        }
        remove_block(pool, b);
        proof {
            lemma_mod_split(cu as int, pow2((k - pool.smallest_k) as nat) as int);
            if cu as int % (2 * pow2((k - pool.smallest_k) as nat) as int) != 0 {
                lemma_align_minus(cu as int, pow2((k - pool.smallest_k) as nat) as int);
            }
        }
        if b < cu {
            cu = b;
        }
        let mut mrec = pool.nodes[cu];
        mrec.kval = (k + 1) as u16;
        pool.nodes.set(cu, mrec);
        k = k + 1;
    }
    insert_at_head(pool, cu, k);
    0
}

} // verus!
