use buddy_alloc::btok;
use buddy_alloc::pool::{
    buddy_calc, buddy_destroy, buddy_free, buddy_init, buddy_init_config, buddy_malloc,
    insert_at_head, remove_block, BuddyPool, PoolConfig, BLOCK_AVAIL, BLOCK_RESERVED, BLOCK_UNUSED,
    DEFAULT_K, HEADER_SIZE, MIN_K,
};

const BASE: usize = 0x10000;

fn sent(pool: &BuddyPool, k: usize) -> usize {
    pool.units + k
}

fn check_buddy_pool_full(pool: &BuddyPool) {
    for i in 0..pool.kval_m {
        let s = sent(pool, i);
        let rec = pool.nodes[s];
        assert_eq!(rec.next, s);
        assert_eq!(rec.prev, s);
        assert_eq!(rec.tag, BLOCK_UNUSED);
        assert_eq!(rec.kval as usize, i);
    }
    let top = sent(pool, pool.kval_m);
    let top_rec = pool.nodes[top];
    assert_eq!(top_rec.next, 0);
    assert_eq!(top_rec.prev, 0);
    let block = pool.nodes[0];
    assert_eq!(block.tag, BLOCK_AVAIL);
    assert_eq!(block.kval as usize, pool.kval_m);
    assert_eq!(block.next, top);
    assert_eq!(block.prev, top);
}

fn check_buddy_pool_empty(pool: &BuddyPool) {
    for i in 0..=pool.kval_m {
        let s = sent(pool, i);
        let rec = pool.nodes[s];
        assert_eq!(rec.next, s);
        assert_eq!(rec.prev, s);
        assert_eq!(rec.tag, BLOCK_UNUSED);
        assert_eq!(rec.kval as usize, i);
    }
}

#[test]
fn test_buddy_malloc_one_byte() {
    let kval = MIN_K;
    let size = 1usize << kval;
    let mut pool = buddy_init(size, BASE);

    let mem = buddy_malloc(&mut pool, 1);
    assert_eq!(mem, Some(BASE + HEADER_SIZE));

    assert_eq!(buddy_free(&mut pool, mem), 0);
    check_buddy_pool_full(&pool);

    buddy_destroy(pool);
}

#[test]
fn test_buddy_malloc_one_large() {
    let size = 1usize << MIN_K;
    let mut pool = buddy_init(size, BASE);

    let ask = size - HEADER_SIZE;
    let mem = buddy_malloc(&mut pool, ask);
    assert!(mem.is_some());

    let addr = mem.unwrap();
    let unit = (addr - pool.base - HEADER_SIZE) >> buddy_alloc::pool::SMALLEST_K;
    assert_eq!(pool.nodes[unit].kval as usize, MIN_K);
    assert_eq!(pool.nodes[unit].tag, BLOCK_RESERVED);

    check_buddy_pool_empty(&pool);

    let fail = buddy_malloc(&mut pool, 5);
    assert!(fail.is_none());

    assert_eq!(buddy_free(&mut pool, mem), 0);
    check_buddy_pool_full(&pool);

    buddy_destroy(pool);
}

#[test]
fn test_buddy_init() {
    for i in MIN_K..=DEFAULT_K {
        let size = 1usize << i;
        let pool = buddy_init(size, BASE);
        check_buddy_pool_full(&pool);
        buddy_destroy(pool);
    }
}

#[test]
fn test_buddy_calc_basic_pairs() {
    const TEST_K: usize = MIN_K + 2;
    let pool_size = 1usize << TEST_K;
    let mut pool = buddy_init(pool_size, BASE);

    // Take the top-level block off its list and split it by hand.
    let top_block = pool.nodes[sent(&pool, TEST_K)].next;
    assert_eq!(pool.nodes[top_block].tag, BLOCK_AVAIL);
    remove_block(&mut pool, top_block);

    let kval = TEST_K - 1;
    let block1_off = 0usize;
    let block2_off = 1usize << kval;
    let unit2 = block2_off >> buddy_alloc::pool::SMALLEST_K;
    pool.nodes[0].kval = kval as u16;
    pool.nodes[unit2].kval = kval as u16;

    let b1 = buddy_calc(&pool, block1_off);
    let b2 = buddy_calc(&pool, block2_off);

    assert_eq!(b1, block2_off, "Buddy of block1 should be block2");
    assert_eq!(b2, block1_off, "Buddy of block2 should be block1");

    assert_eq!(block1_off ^ block2_off, 1usize << kval);

    buddy_destroy(pool);
}

#[test]
fn test_buddy_calc_recursive_coalescing() {
    const BASE_K: usize = MIN_K + 3;
    let pool_size = 1usize << BASE_K;
    let mut pool = buddy_init(pool_size, BASE);
    let sk = buddy_alloc::pool::SMALLEST_K;

    // Take the top block and split it three levels down by hand.
    let top_block = pool.nodes[sent(&pool, BASE_K)].next;
    remove_block(&mut pool, top_block);

    let k1 = BASE_K - 1;
    let left1_off = 0usize;
    let right1_off = left1_off + (1usize << k1);
    pool.nodes[left1_off >> sk].kval = k1 as u16;
    pool.nodes[right1_off >> sk].kval = k1 as u16;

    let k2 = k1 - 1;
    let left2_off = left1_off;
    let right2_off = left2_off + (1usize << k2);
    pool.nodes[left2_off >> sk].kval = k2 as u16;
    pool.nodes[right2_off >> sk].kval = k2 as u16;

    let k3 = k2 - 1;
    let left3_off = left2_off;
    let right3_off = left3_off + (1usize << k3);
    pool.nodes[left3_off >> sk].kval = k3 as u16;
    pool.nodes[right3_off >> sk].kval = k3 as u16;

    // Free both halves and check they are each other's buddies.
    insert_at_head(&mut pool, left3_off >> sk, k3);
    insert_at_head(&mut pool, right3_off >> sk, k3);

    let buddy_of_left3 = buddy_calc(&pool, left3_off);
    assert_eq!(buddy_of_left3, right3_off, "Buddy of left3 should be right3");

    // Remove both from their list to simulate coalescing.
    remove_block(&mut pool, left3_off >> sk);
    remove_block(&mut pool, right3_off >> sk);

    let merged_kval = k3 + 1;
    let merged_off = if left3_off < right3_off { left3_off } else { right3_off };
    pool.nodes[merged_off >> sk].kval = merged_kval as u16;

    let buddy = buddy_calc(&pool, merged_off);
    let expected_offset = 1usize << merged_kval;
    let offset_diff = buddy.wrapping_sub(merged_off);
    assert_eq!(offset_diff, expected_offset, "Merged block buddy is offset correctly");

    buddy_destroy(pool);
}

#[test]
fn test_btok_one() {
    assert_eq!(0, btok(1));
}

#[test]
fn test_btok_range() {
    assert_eq!(0, btok(1));
    assert_eq!(1, btok(2));
    assert_eq!(2, btok(3));
    assert_eq!(2, btok(4));
    assert_eq!(3, btok(5));
    assert_eq!(3, btok(8));
    assert_eq!(4, btok(9));
    assert_eq!(4, btok(16));
    assert_eq!(5, btok(17));
    assert_eq!(5, btok(32));
    assert_eq!(6, btok(33));
    assert_eq!(6, btok(64));
    assert_eq!(10, btok(1024));
    assert_eq!(11, btok(1025));
    assert_eq!(40, btok(1099511627776));
}

#[test]
fn test_double_free() {
    let mut pool = buddy_init(128, BASE);

    let ptr = buddy_malloc(&mut pool, 64);
    assert!(ptr.is_some());

    assert_eq!(buddy_free(&mut pool, ptr), 0);

    // Releasing the same address again is detected and ignored.
    assert_eq!(buddy_free(&mut pool, ptr), 0);
    check_buddy_pool_full(&pool);

    buddy_destroy(pool);
}

#[test]
fn test_btok_zero() {
    assert_eq!(0, btok(0));
}

#[test]
fn test_malloc_zero_size_fails() {
    let mut pool = buddy_init(1usize << MIN_K, BASE);
    assert!(buddy_malloc(&mut pool, 0).is_none());
    check_buddy_pool_full(&pool);
    buddy_destroy(pool);
}

#[test]
fn test_malloc_oversized_fails() {
    let mut pool = buddy_init(1usize << MIN_K, BASE);
    assert!(buddy_malloc(&mut pool, (1usize << MIN_K) + 1).is_none());
    assert!(buddy_malloc(&mut pool, usize::MAX).is_none());
    check_buddy_pool_full(&pool);
    buddy_destroy(pool);
}

#[test]
fn test_free_without_address() {
    let mut pool = buddy_init(1usize << MIN_K, BASE);
    assert_eq!(buddy_free(&mut pool, None), 1);
    check_buddy_pool_full(&pool);
    buddy_destroy(pool);
}

#[test]
fn test_init_destroy_round_trip() {
    // Exactly the reserved region comes back from destroy: same base,
    // same byte count.
    let size = 1usize << (MIN_K + 1);
    let pool = buddy_init(size, BASE);
    assert_eq!(pool.numbytes, size);
    let (base, numbytes) = buddy_destroy(pool);
    assert_eq!(base, BASE);
    assert_eq!(numbytes, size);
}

#[test]
fn test_alloc_free_restores_lists() {
    // Allocate-then-free returns every order's list to its initial state.
    let mut pool = buddy_init(1usize << MIN_K, BASE);
    let before: Vec<_> = (0..=pool.kval_m).map(|k| pool.nodes[sent(&pool, k)]).collect();
    let block_before = pool.nodes[0];

    let mem = buddy_malloc(&mut pool, 100);
    assert!(mem.is_some());
    assert_eq!(buddy_free(&mut pool, mem), 0);

    for k in 0..=pool.kval_m {
        assert_eq!(pool.nodes[sent(&pool, k)], before[k]);
    }
    assert_eq!(pool.nodes[0], block_before);
    check_buddy_pool_full(&pool);
    buddy_destroy(pool);
}

#[test]
fn test_capacity_boundary() {
    // A block whose header-adjusted size equals the whole capacity fits
    // exactly once; further requests fail until it is released.
    let size = 1usize << MIN_K;
    let mut pool = buddy_init(size, BASE);

    let mem = buddy_malloc(&mut pool, size - HEADER_SIZE);
    assert_eq!(mem, Some(BASE + HEADER_SIZE));
    assert!(buddy_malloc(&mut pool, 1).is_none());
    assert!(buddy_malloc(&mut pool, 64).is_none());

    assert_eq!(buddy_free(&mut pool, mem), 0);
    let again = buddy_malloc(&mut pool, size - HEADER_SIZE);
    assert_eq!(again, mem);

    buddy_destroy(pool);
}

#[test]
fn test_buddy_calc_involution() {
    // The buddy of a block's buddy is the block itself.
    let mut pool = buddy_init(1usize << MIN_K, BASE);
    let sk = buddy_alloc::pool::SMALLEST_K;
    for (off, k) in [(0usize, 6usize), (64, 6), (128, 7), (1024, 10), (4096, 8)] {
        pool.nodes[off >> sk].kval = k as u16;
        let b = buddy_calc(&pool, off);
        pool.nodes[b >> sk].kval = k as u16;
        assert_eq!(buddy_calc(&pool, b), off);
        assert_eq!(off ^ b, 1usize << k);
    }
    buddy_destroy(pool);
}

#[test]
fn test_scenario_small_pool() {
    // A 128-byte pool with headers kept outside the blocks: two 64-byte
    // allocations fill it, a third fails, and releasing one makes its
    // address available again.
    let cfg = PoolConfig { min_k: 7, max_k: 48, default_k: 30, smallest_k: 6, header_size: 0 };
    let mut pool = buddy_init_config(128, BASE, cfg);
    assert_eq!(pool.numbytes, 128);

    let first = buddy_malloc(&mut pool, 64);
    let second = buddy_malloc(&mut pool, 64);
    assert_eq!(first, Some(BASE));
    assert_eq!(second, Some(BASE + 64));
    assert_ne!(first, second);

    assert!(buddy_malloc(&mut pool, 64).is_none());
    assert!(buddy_malloc(&mut pool, 1).is_none());

    assert_eq!(buddy_free(&mut pool, first), 0);
    let third = buddy_malloc(&mut pool, 64);
    assert_eq!(third, first);

    // Releasing both halves coalesces them back into the whole region.
    assert_eq!(buddy_free(&mut pool, third), 0);
    assert_eq!(buddy_free(&mut pool, second), 0);
    check_buddy_pool_full(&pool);

    buddy_destroy(pool);
}
