//! The block pool: nothing is handed out twice, nothing leaks.
use vstd::prelude::*;

use super::accounts;
use crate::block::{self, BlockHash, PhysicalBlockId, PoolView};
use crate::counting;

verus! {

/// **No double allocation.** A block that is handed out was held by nobody, has
/// exactly one reference afterwards, and is not free any more; no other block's
/// count changes.
pub proof fn law_no_double_allocation(pool: PoolView)
    requires
        pool.wf(),
        pool.free.len() > 0,
    ensures
        ({
            let block = pool.free.last();
            &&& pool.owns(block)
            &&& pool.rc(block) == 0
            &&& pool.allocated().rc(block) == 1
            &&& !pool.allocated().free.contains(block)
            &&& forall|other: PhysicalBlockId|
                pool.owns(other) && other != block ==> #[trigger] pool.allocated().rc(other)
                    == pool.rc(other)
        }),
{
    pool.lemma_allocated();
}

/// **Freeing undoes allocating.** A block that is handed out and given back
/// leaves the pool exactly as it was.
pub proof fn law_freeing_undoes_allocating(pool: PoolView)
    requires
        pool.wf(),
        pool.free.len() > 0,
    ensures
        pool.allocated().released(pool.free.last()) == pool,
{
    pool.lemma_allocated();
    let block = pool.free.last();
    let after = pool.allocated().released(block);
    assert(after.free =~= pool.free);
    assert(after.refs =~= pool.refs);
    assert(after.hashes =~= pool.hashes);
    assert(after =~= pool);
}

/// **Dropping a reference undoes taking one**, for a block that is held.
pub proof fn law_dropping_undoes_sharing(pool: PoolView, block: PhysicalBlockId)
    requires
        pool.wf(),
        pool.owns(block),
        0 < pool.rc(block) < u16::MAX,
    ensures
        pool.shared(block).released(block) == pool,
{
    let after = pool.shared(block).released(block);
    assert(after.refs =~= pool.refs);
    assert(after =~= pool);
}

/// **A block stays until its last reference goes.** While more than one
/// reference is held, dropping one frees nothing; dropping the last frees the
/// block and no prefix leads to it any more.
pub proof fn law_last_reference_frees(pool: PoolView, block: PhysicalBlockId)
    requires
        pool.wf(),
        pool.owns(block),
        pool.rc(block) > 0,
    ensures
        pool.rc(block) > 1 ==> pool.released(block).free == pool.free && pool.released(
            block,
        ).prefix == pool.prefix && pool.released(block).rc(block) == pool.rc(block) - 1,
        pool.rc(block) == 1 ==> pool.released(block).free == pool.free.push(block)
            && pool.released(block).rc(block) == 0 && forall|hash: u64| #[trigger]
            pool.released(block).prefix.contains_key(hash) ==> pool.released(block).prefix[hash]
                != block,
{
    if pool.rc(block) == 1 {
        pool.lemma_released(block);
        let after = pool.released(block);
        assert forall|hash: u64| #[trigger] after.prefix.contains_key(hash) implies after.prefix[hash]
            != block by {
            assert(after.rc(after.prefix[hash]) > 0);
        }
    }
}

/// **Copy-on-write privatizes.** When a shared block is exchanged for a fresh
/// one, the fresh block has one reference, the shared one loses exactly one and
/// stays held and cached for the others, and no other count changes.
pub proof fn law_copy_on_write_privatizes(pool: PoolView, block: PhysicalBlockId)
    requires
        pool.wf(),
        pool.owns(block),
        pool.rc(block) > 1,
        pool.free.len() > 0,
    ensures
        ({
            let private = pool.free.last();
            let after = pool.allocated().released(block);
            &&& private != block
            &&& after.rc(private) == 1
            &&& after.rc(block) == pool.rc(block) - 1
            &&& after.prefix == pool.prefix
            &&& forall|other: PhysicalBlockId|
                pool.owns(other) && other != private && other != block ==> #[trigger] after.rc(
                    other,
                ) == pool.rc(other)
        }),
{
    pool.lemma_allocated();
}

/// **Reserving and freeing is a round trip.** Blocks that are handed out and all
/// given back leave every count as it was and as many blocks free.
pub proof fn law_reserving_and_freeing_round_trip(pool: PoolView, n: nat)
    requires
        pool.wf(),
        n <= pool.free.len(),
    ensures
        pool.taken(n).released_all(pool.next_blocks(n)).refs == pool.refs,
        pool.taken(n).released_all(pool.next_blocks(n)).free.len() == pool.free.len(),
{
    let taken = pool.taken(n);
    let blocks = pool.next_blocks(n);
    let after = taken.released_all(blocks);
    pool.lemma_taken(n);
    accounts::lemma_taken_counts(pool, n);
    assert forall|i: int| 0 <= i < blocks.len() implies taken.owns(#[trigger] blocks[i]) by {
        assert(pool.owns(blocks[i]));
    }
    assert forall|block: PhysicalBlockId| taken.owns(block) implies counting::count(blocks, block)
        <= #[trigger] taken.rc(block) by {}
    accounts::lemma_released_all_counts(taken, blocks);
    taken.lemma_released_all(blocks);
    assert forall|i: int| 0 <= i < pool.refs.len() implies after.refs[i] == pool.refs[i] by {
        let block = PhysicalBlockId(i as u32);
        assert(pool.owns(block));
        assert(after.rc(block) == taken.rc(block) - counting::count(blocks, block));
        assert(taken.rc(block) == pool.rc(block) + counting::count(blocks, block));
    }
    assert(after.refs =~= pool.refs);
    assert(after.held() =~= pool.held());
    block::law_conservation(pool);
    block::law_conservation(after);
}

/// The blocks of a pool that has `total` of them are those with a number below
/// `total`.
pub open spec fn is_whole(pool: PoolView, total: nat) -> bool {
    &&& pool.refs.len() == total
    &&& pool.hashes.len() == total
    &&& pool.free.len() == total
    &&& pool.free.no_duplicates()
    &&& forall|i: int| 0 <= i < total ==> #[trigger] pool.refs[i] == 0
    &&& forall|i: int| 0 <= i < total ==> #[trigger] pool.hashes[i] is None
    &&& forall|block: PhysicalBlockId| #[trigger]
        pool.free.contains(block) <==> (block.0 as nat) < total
    &&& forall|hash: u64| !(#[trigger] pool.prefix.contains_key(hash))
}

/// **A new pool has as many blocks as were asked for, all free.** Each has no
/// references and is cached under no hash. So many allocations in a row succeed,
/// and no more; they hand out the blocks in the order of their numbers.
pub proof fn law_new_pool_is_whole(total: nat)
    requires
        total <= 0x1_0000_0000,
    ensures
        is_whole(PoolView::fresh(total), total),
        PoolView::fresh(total).wf(),
        forall|n: nat|
            n <= total ==> (#[trigger] PoolView::fresh(total).taken(n)).free.len() == total - n,
        forall|n: nat|
            n < total ==> (#[trigger] PoolView::fresh(total).taken(n)).free[total - n - 1].0 == n,
{
    let pool = PoolView::fresh(total);
    assert forall|block: PhysicalBlockId| #[trigger]
        pool.free.contains(block) <==> (block.0 as nat) < total by {
        if (block.0 as nat) < total {
            assert(pool.free[total - 1 - block.0] == block);
        }
    }
    assert forall|n: nat| n <= total implies (#[trigger] pool.taken(n)).free.len() == total - n
        && (n < total ==> pool.taken(n).free[total - n - 1].0 == n) by {
        pool.lemma_taken(n);
    }
}

/// **Allocating changes one block.** The last free block gets its first reference
/// and leaves the free list; nothing else changes.
pub proof fn law_allocating_changes_one_block(pool: PoolView)
    requires
        pool.wf(),
        pool.free.len() > 0,
    ensures
        ({
            let n = pool.free.len() - 1;
            let block = pool.free[n];
            let after = pool.allocated();
            &&& after.free == pool.free.take(n)
            &&& after.refs.len() == pool.refs.len()
            &&& forall|i: int|
                0 <= i < pool.refs.len() ==> #[trigger] after.refs[i] == if i == block.0 {
                    1u16
                } else {
                    pool.refs[i]
                }
            &&& after.prefix == pool.prefix
            &&& after.hashes == pool.hashes
        }),
{
    pool.lemma_allocated();
    assert(pool.allocated().free =~= pool.free.take(pool.free.len() - 1));
}

/// **Registering remembers one block.** The block that is handed out is cached
/// under the hash from then on, whatever was cached before stays so, and the rest
/// is as for any allocation.
pub proof fn law_registering_remembers_one_block(pool: PoolView, hash: BlockHash)
    requires
        pool.wf(),
        pool.free.len() > 0,
        !pool.prefix.contains_key(hash.0),
    ensures
        ({
            let n = pool.free.len() - 1;
            let block = pool.free[n];
            let after = pool.registered(hash);
            &&& after.free == pool.free.take(n)
            &&& after.refs.len() == pool.refs.len()
            &&& forall|i: int|
                0 <= i < pool.refs.len() ==> #[trigger] after.refs[i] == if i == block.0 {
                    1u16
                } else {
                    pool.refs[i]
                }
            &&& forall|other: u64| #[trigger]
                after.prefix.contains_key(other) <==> other == hash.0 || pool.prefix.contains_key(
                    other,
                )
            &&& after.prefix[hash.0] == block
            &&& forall|other: u64| #[trigger]
                pool.prefix.contains_key(other) ==> after.prefix[other] == pool.prefix[other]
            &&& after.hashes.len() == pool.hashes.len()
            &&& forall|i: int|
                0 <= i < pool.hashes.len() ==> #[trigger] after.hashes[i] == if i == block.0 {
                    Some(hash)
                } else {
                    pool.hashes[i]
                }
        }),
{
    pool.lemma_allocated();
    assert(pool.registered(hash).free =~= pool.free.take(pool.free.len() - 1));
}

/// **Sharing adds one reference** to the block, and changes nothing else.
pub proof fn law_sharing_adds_one_reference(pool: PoolView, block: PhysicalBlockId)
    requires
        pool.wf(),
        (block.0 as nat) < pool.refs.len(),
        pool.refs[block.0 as int] < u16::MAX,
    ensures
        ({
            let after = pool.shared(block);
            &&& after.free == pool.free
            &&& after.prefix == pool.prefix
            &&& after.hashes == pool.hashes
            &&& after.refs.len() == pool.refs.len()
            &&& forall|i: int|
                0 <= i < pool.refs.len() ==> #[trigger] after.refs[i] == pool.refs[i] + if i
                    == block.0 {
                    1int
                } else {
                    0int
                }
        }),
{
}

/// **Freeing drops one reference.** A block without references is left alone. Any
/// other loses one; only with the last one does it go to the end of the free
/// list and out of the prefix index. Nothing else changes.
pub proof fn law_freeing_drops_one_reference(pool: PoolView, block: PhysicalBlockId)
    requires
        pool.wf(),
        (block.0 as nat) < pool.refs.len(),
    ensures
        ({
            let count = pool.refs[block.0 as int];
            let after = pool.released(block);
            &&& count == 0 ==> after == pool
            &&& after.refs.len() == pool.refs.len()
            &&& forall|i: int|
                0 <= i < pool.refs.len() && count > 0 ==> #[trigger] after.refs[i] == pool.refs[i]
                    - if i == block.0 {
                    1int
                } else {
                    0int
                }
            &&& count > 1 ==> after.free == pool.free && after.prefix == pool.prefix && after.hashes
                == pool.hashes
            &&& count == 1 ==> after.free == pool.free.push(block)
            &&& count == 1 ==> after.hashes.len() == pool.hashes.len() && forall|i: int|
                0 <= i < pool.hashes.len() ==> #[trigger] after.hashes[i] == if i == block.0 {
                    None
                } else {
                    pool.hashes[i]
                }
            &&& count == 1 ==> forall|hash: u64| #[trigger]
                after.prefix.contains_key(hash) <==> pool.prefix.contains_key(hash)
                    && pool.prefix[hash] != block
            &&& count == 1 ==> forall|hash: u64| #[trigger]
                after.prefix.contains_key(hash) ==> after.prefix[hash] == pool.prefix[hash]
        }),
{
    let after = pool.released(block);
    if pool.refs[block.0 as int] == 1 {
        assert forall|hash: u64| #[trigger]
            after.prefix.contains_key(hash) <==> pool.prefix.contains_key(hash)
                && pool.prefix[hash] != block by {
            if pool.prefix.contains_key(hash) {
                assert(pool.hashes[pool.prefix[hash].0 as int] == Some(BlockHash(hash)));
                if pool.hashes[block.0 as int] is Some {
                    assert(pool.prefix[pool.hashes[block.0 as int]->Some_0.0].0 == block.0);
                }
            }
        }
    }
}

/// **Handing out several blocks is handing out one after the other.** The last `n`
/// free blocks are handed out, the last one first; each has one reference
/// afterwards, and nothing else changes.
pub proof fn law_handing_out_takes_the_last_free_blocks(pool: PoolView, n: nat)
    requires
        pool.wf(),
        n <= pool.free.len(),
    ensures
        ({
            let after = pool.taken(n);
            let left = pool.free.len() - n;
            let blocks = pool.next_blocks(n);
            &&& blocks == pool.free.skip(left).reverse()
            &&& after.free == pool.free.take(left)
            &&& after.prefix == pool.prefix
            &&& after.hashes == pool.hashes
            &&& after.refs.len() == pool.refs.len()
            &&& forall|i: int|
                0 <= i < pool.refs.len() ==> #[trigger] after.refs[i] == if blocks.contains(
                    PhysicalBlockId(i as u32),
                ) {
                    1u16
                } else {
                    pool.refs[i]
                }
        }),
    decreases n,
{
    let after = pool.taken(n);
    let left = pool.free.len() - n;
    let blocks = pool.next_blocks(n);
    assert(blocks =~= pool.free.skip(left).reverse());
    pool.lemma_taken(n);
    if n > 0 {
        let k = (n - 1) as nat;
        law_handing_out_takes_the_last_free_blocks(pool, k);
        pool.lemma_taken(k);
        let before = pool.taken(k);
        let fewer = pool.next_blocks(k);
        before.lemma_allocated();
        let next = before.free.last();
        assert(blocks =~= fewer.push(next));
        assert forall|i: int| 0 <= i < pool.refs.len() implies #[trigger] after.refs[i]
            == if blocks.contains(PhysicalBlockId(i as u32)) {
            1u16
        } else {
            pool.refs[i]
        } by {
            let block = PhysicalBlockId(i as u32);
            if fewer.contains(block) {
                let j = choose|j: int| 0 <= j < fewer.len() && fewer[j] == block;
                assert(blocks[j] == block);
            }
            if blocks.contains(block) && block != next {
                let j = choose|j: int| 0 <= j < blocks.len() && blocks[j] == block;
                assert(fewer[j] == block);
            }
            assert(blocks[k as int] == next);
        }
    }
}

/// **Giving back several blocks drops one reference for each.** If each block
/// occurs no more often than it is held, it loses as many references as it
/// occurs; it is free afterwards iff none is left.
pub proof fn law_giving_back_drops_each_reference(pool: PoolView, blocks: Seq<PhysicalBlockId>)
    requires
        pool.wf(),
        forall|i: int| 0 <= i < blocks.len() ==> ((#[trigger] blocks[i]).0 as nat)
            < pool.refs.len(),
        forall|block: PhysicalBlockId|
            (block.0 as nat) < pool.refs.len() ==> #[trigger] counting::count(blocks, block)
                <= pool.refs[block.0 as int],
    ensures
        ({
            let after = pool.released_all(blocks);
            &&& after.refs.len() == pool.refs.len()
            &&& forall|block: PhysicalBlockId|
                (block.0 as nat) < pool.refs.len() ==> after.refs[block.0 as int]
                    == pool.refs[block.0 as int] - #[trigger] counting::count(blocks, block)
            &&& forall|block: PhysicalBlockId| #[trigger]
                after.free.contains(block) <==> (block.0 as nat) < after.refs.len()
                    && after.refs[block.0 as int] == 0
        }),
{
    assert forall|i: int| 0 <= i < blocks.len() implies pool.owns(#[trigger] blocks[i]) by {}
    assert forall|block: PhysicalBlockId| pool.owns(block) implies counting::count(blocks, block)
        <= #[trigger] pool.rc(block) by {}
    accounts::lemma_released_all_counts(pool, blocks);
    pool.lemma_released_all(blocks);
    let after = pool.released_all(blocks);
    assert forall|block: PhysicalBlockId|
        (block.0 as nat) < pool.refs.len() implies after.refs[block.0 as int]
        == pool.refs[block.0 as int] - #[trigger] counting::count(blocks, block) by {
        assert(after.rc(block) == pool.rc(block) - counting::count(blocks, block));
    }
}

/// **Reading a pool.** It has as many blocks as reference counts; a block is one of
/// its own iff its number is below that; its count is the one at its number; and
/// the held ones are those with a positive count.
pub proof fn law_reading_a_pool(pool: PoolView, block: PhysicalBlockId)
    ensures
        pool.total() == pool.refs.len(),
        pool.owns(block) <==> (block.0 as nat) < pool.refs.len(),
        pool.rc(block) == pool.refs[block.0 as int],
        pool.held().contains(block) <==> (block.0 as nat) < pool.refs.len()
            && pool.refs[block.0 as int] > 0,
{
}

/// **A well-formed pool keeps its free list and its prefix index.** A block is free
/// iff it has no references, and listed once; a cached block is held, and known
/// under the hash that leads to it and no other.
pub proof fn law_free_iff_unreferenced(pool: PoolView)
    requires
        pool.wf(),
    ensures
        pool.free.no_duplicates(),
        forall|block: PhysicalBlockId| #[trigger]
            pool.free.contains(block) <==> (block.0 as nat) < pool.refs.len()
                && pool.refs[block.0 as int] == 0,
        forall|hash: u64| #[trigger]
            pool.prefix.contains_key(hash) ==> (pool.prefix[hash].0 as nat) < pool.refs.len()
                && pool.refs[pool.prefix[hash].0 as int] > 0,
        forall|a: u64, b: u64| #[trigger]
            pool.prefix.contains_key(a) && #[trigger] pool.prefix.contains_key(b) && a != b
                ==> pool.prefix[a] != pool.prefix[b],
{
    assert forall|hash: u64| #[trigger] pool.prefix.contains_key(hash) implies (
    pool.prefix[hash].0 as nat) < pool.refs.len() && pool.refs[pool.prefix[hash].0 as int]
        > 0 by {
        assert(pool.rc(pool.prefix[hash]) > 0);
    }
}

} // verus!
