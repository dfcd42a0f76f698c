use tessera::block::{
    blocks_for_len, chained_block_hashes, AllocError, BlockAllocator, BlockHash, PhysicalBlockId,
    BLOCK_SIZE,
};
use tessera::TokenId;

fn tokens(n: usize) -> Vec<TokenId> {
    (0..n as u32).map(TokenId).collect()
}

#[test]
fn blocks_for_len_rounds_up() {
    assert_eq!(blocks_for_len(0), 0);
    assert_eq!(blocks_for_len(1), 1);
    assert_eq!(blocks_for_len(BLOCK_SIZE), 1);
    assert_eq!(blocks_for_len(BLOCK_SIZE + 1), 2);
}

#[test]
fn allocate_then_free_returns_block_to_pool() {
    let mut alloc = BlockAllocator::new(2);
    assert_eq!(alloc.free_blocks(), 2);

    let a = alloc.allocate_block().unwrap();
    let b = alloc.allocate_block().unwrap();
    assert_ne!(a, b);
    assert_eq!(alloc.free_blocks(), 0);
    assert_eq!(alloc.allocate_block(), Err(AllocError::Exhausted));

    alloc.free_block(a);
    assert_eq!(alloc.free_blocks(), 1);
    assert_eq!(alloc.refcount(a), 0);
}

#[test]
fn refcount_holds_block_until_zero() {
    let mut alloc = BlockAllocator::new(1);
    let a = alloc.allocate_block().unwrap();

    alloc.incref(a);
    assert_eq!(alloc.refcount(a), 2);

    alloc.free_block(a);
    assert_eq!(alloc.refcount(a), 1);
    assert_eq!(
        alloc.free_blocks(),
        0,
        "block still held by remaining reference"
    );

    alloc.free_block(a);
    assert_eq!(alloc.refcount(a), 0);
    assert_eq!(
        alloc.free_blocks(),
        1,
        "block returned to the pool at refcount 0"
    );
}

#[test]
fn conservation_holds_after_each_step() {
    let total = 4;
    let mut alloc = BlockAllocator::new(total);
    let mut held = Vec::new();
    for _ in 0..total {
        held.push(alloc.allocate_block().unwrap());
        assert_eq!(alloc.free_blocks() + alloc.allocated_blocks(), total);
    }
    for b in held {
        alloc.free_block(b);
        assert_eq!(alloc.free_blocks() + alloc.allocated_blocks(), total);
    }
    assert_eq!(alloc.free_blocks(), total);
}

#[test]
fn equal_prefixes_hash_equal_and_diverge_on_difference() {
    let a: Vec<TokenId> = (0..2 * BLOCK_SIZE as u32).map(TokenId).collect();
    let mut b = a.clone();
    b[BLOCK_SIZE + 1] = TokenId(9999); // diverge inside the second block

    let ha = chained_block_hashes(&a);
    let hb = chained_block_hashes(&b);
    assert_eq!(ha.len(), 2);
    assert_eq!(ha[0], hb[0], "identical first block hashes");
    assert_ne!(ha[1], hb[1], "second block diverges");
}

#[test]
fn allocate_shared_reuses_cached_prefix_block() {
    let mut alloc = BlockAllocator::new(4);
    let hashes = chained_block_hashes(&(0..BLOCK_SIZE as u32).map(TokenId).collect::<Vec<_>>());
    let hash = hashes[0];

    let (first, shared_a) = alloc.allocate_shared(hash).unwrap();
    let (second, shared_b) = alloc.allocate_shared(hash).unwrap();

    assert!(!shared_a, "first request allocates the block");
    assert!(shared_b, "second request shares it");
    assert_eq!(first, second);
    assert_eq!(alloc.refcount(first), 2);
    assert_eq!(alloc.allocated_blocks(), 1, "only one physical block used");
}

#[test]
fn freeing_evicts_prefix_entry() {
    let mut alloc = BlockAllocator::new(2);
    let hash = chained_block_hashes(&(0..BLOCK_SIZE as u32).map(TokenId).collect::<Vec<_>>())[0];

    let (block, _) = alloc.allocate_shared(hash).unwrap();
    alloc.free_block(block);

    // The hash no longer maps to a (now-free) block: a new request allocates.
    let (again, shared) = alloc.allocate_shared(hash).unwrap();
    assert!(!shared, "a freed prefix block is no longer shareable");
    assert_eq!(again, block, "the freed block id is reused");
}

#[test]
fn copy_on_write_privatizes_only_when_shared() {
    let mut alloc = BlockAllocator::new(4);
    let block = alloc.allocate_block().unwrap();

    // Uniquely owned: CoW is a no-op.
    assert_eq!(alloc.copy_on_write(block).unwrap(), block);
    assert_eq!(alloc.refcount(block), 1);

    // Shared: CoW hands back a private copy and releases this share.
    alloc.incref(block);
    assert_eq!(alloc.refcount(block), 2);
    let private = alloc.copy_on_write(block).unwrap();
    assert_ne!(private, block);
    assert_eq!(alloc.refcount(block), 1, "other owner keeps the original");
    assert_eq!(alloc.refcount(private), 1, "writer owns the copy");
}

#[test]
fn copy_on_write_of_a_shared_block_fails_without_free_blocks() {
    let mut alloc = BlockAllocator::new(1);
    let block = alloc.allocate_block().unwrap();
    alloc.incref(block);
    assert_eq!(alloc.copy_on_write(block), Err(AllocError::Exhausted));
    assert_eq!(alloc.refcount(block), 2);
}

#[test]
fn low_ids_are_handed_out_first_and_freed_ones_reused_last_in_first_out() {
    let mut alloc = BlockAllocator::new(3);
    assert_eq!(alloc.total_blocks(), 3);
    assert_eq!(alloc.allocate_block(), Ok(PhysicalBlockId(0)));
    assert_eq!(alloc.allocate_block(), Ok(PhysicalBlockId(1)));
    alloc.free_block(PhysicalBlockId(0));
    assert_eq!(alloc.allocate_block(), Ok(PhysicalBlockId(0)));
    assert_eq!(alloc.allocate_block(), Ok(PhysicalBlockId(2)));
}

#[test]
fn freeing_a_free_block_changes_nothing() {
    let mut alloc = BlockAllocator::new(2);
    let block = alloc.allocate_block().unwrap();
    alloc.free_block(block);
    alloc.free_block(block);
    assert_eq!(alloc.refcount(block), 0);
    assert_eq!(alloc.free_blocks(), 2);
    assert_eq!(alloc.allocated_blocks(), 0);
}

#[test]
fn an_empty_pool_is_exhausted() {
    let mut alloc = BlockAllocator::new(0);
    assert_eq!(alloc.allocate_block(), Err(AllocError::Exhausted));
    assert_eq!(
        alloc.allocate_shared(BlockHash(1)),
        Err(AllocError::Exhausted)
    );
}

#[test]
fn partial_blocks_are_not_hashed() {
    assert!(chained_block_hashes(&tokens(0)).is_empty());
    assert!(chained_block_hashes(&tokens(BLOCK_SIZE - 1)).is_empty());
    assert_eq!(
        chained_block_hashes(&tokens(BLOCK_SIZE)),
        chained_block_hashes(&tokens(2 * BLOCK_SIZE - 1))
    );
}

#[test]
fn hashes_are_fnv1a_of_the_little_endian_prefix() {
    let prompt: Vec<TokenId> = (0..2 * BLOCK_SIZE as u32)
        .map(|t| TokenId(t.wrapping_mul(0x0102_0304)))
        .collect();
    let expected: Vec<BlockHash> = (1..=2usize)
        .map(|n| {
            let mut acc: u64 = 0xcbf2_9ce4_8422_2325;
            for TokenId(token) in &prompt[..n * BLOCK_SIZE] {
                for byte in token.to_le_bytes() {
                    acc ^= u64::from(byte);
                    acc = acc.wrapping_mul(0x0000_0100_0000_01b3);
                }
            }
            BlockHash(acc)
        })
        .collect();
    assert_eq!(chained_block_hashes(&prompt), expected);
}

/// A small linear congruential generator, so that the trace is reproducible.
fn next(state: &mut u64) -> usize {
    *state = state
        .wrapping_mul(6364136223846793005)
        .wrapping_add(1442695040888963407);
    (*state >> 33) as usize
}

#[test]
fn allocator_upholds_invariants() {
    for seed in 0..64u64 {
        let mut rng = seed;
        let total = 1 + next(&mut rng) % 32;
        let mut alloc = BlockAllocator::new(total);

        // Distinct held blocks and their expected refcounts.
        let mut held: Vec<(PhysicalBlockId, u16)> = Vec::new();

        for _ in 0..200 {
            match next(&mut rng) % 3 {
                0 => {
                    if alloc.free_blocks() == 0 {
                        assert_eq!(alloc.allocate_block(), Err(AllocError::Exhausted));
                    } else {
                        let block = alloc.allocate_block().unwrap();
                        assert!(
                            held.iter().all(|(b, _)| *b != block),
                            "allocated a block already held"
                        );
                        held.push((block, 1));
                    }
                }
                1 => {
                    if !held.is_empty() {
                        let idx = next(&mut rng) % held.len();
                        alloc.free_block(held[idx].0);
                        held[idx].1 -= 1;
                        if held[idx].1 == 0 {
                            held.swap_remove(idx);
                        }
                    }
                }
                _ => {
                    if !held.is_empty() {
                        let idx = next(&mut rng) % held.len();
                        alloc.incref(held[idx].0);
                        held[idx].1 += 1;
                    }
                }
            }

            // Conservation and refcount agreement after every operation.
            assert_eq!(alloc.free_blocks() + held.len(), total);
            assert_eq!(alloc.allocated_blocks(), held.len());
            for (block, count) in &held {
                assert_eq!(alloc.refcount(*block), *count);
            }
        }

        // No leak: drop every outstanding reference and expect a full pool.
        for (block, count) in held {
            for _ in 0..count {
                alloc.free_block(block);
            }
        }
        assert_eq!(alloc.free_blocks(), total);
        assert_eq!(alloc.allocated_blocks(), 0);
    }
}
