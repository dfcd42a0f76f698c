//! Sharing prompt prefixes.
use vstd::prelude::*;

use crate::block::{self, BlockHash, PoolView};
use crate::ids::TokenId;
use crate::sequence;

verus! {

/// **Equal prefixes hash equal.** Prompts that agree on their first `n` blocks
/// have the same hashes for these blocks.
pub proof fn law_equal_prefixes_hash_equal(a: Seq<TokenId>, b: Seq<TokenId>, n: nat)
    requires
        n * block::BLOCK_SIZE <= a.len(),
        n * block::BLOCK_SIZE <= b.len(),
        a.take(n * block::BLOCK_SIZE) == b.take(n * block::BLOCK_SIZE),
    ensures
        block::prefix_hashes(a).take(n as int) == block::prefix_hashes(b).take(n as int),
{
    let size = block::BLOCK_SIZE as int;
    assert forall|i: int| 0 <= i < n implies block::prefix_hashes(a)[i]
        == block::prefix_hashes(b)[i] by {
        assert(a.take((i + 1) * size) =~= a.take(n * size).take((i + 1) * size));
        assert(b.take((i + 1) * size) =~= b.take(n * size).take((i + 1) * size));
    }
    assert(block::prefix_hashes(a).take(n as int) =~= block::prefix_hashes(b).take(n as int));
}

/// **A cached prefix is shared.** If every hash is cached, mapping shares every
/// block, takes no free one, and gives the cached blocks.
pub proof fn law_cached_prefix_is_shared(pool: PoolView, hashes: Seq<BlockHash>)
    requires
        forall|i: int|
            0 <= i < hashes.len() ==> pool.prefix.contains_key((#[trigger] hashes[i]).0),
    ensures
        ({
            let sharing = sequence::share_blocks(pool, hashes);
            &&& !sharing.exhausted
            &&& sharing.shared == hashes.len()
            &&& sharing.pool.free == pool.free
            &&& sharing.pool.prefix == pool.prefix
            &&& sharing.blocks == Seq::new(hashes.len(), |i: int| pool.prefix[hashes[i].0])
        }),
    decreases hashes.len(),
{
    let blocks = Seq::new(hashes.len(), |i: int| pool.prefix[hashes[i].0]);
    let sharing = sequence::share_blocks(pool, hashes);
    if hashes.len() > 0 {
        let rest = hashes.drop_last();
        assert forall|i: int| 0 <= i < rest.len() implies pool.prefix.contains_key(
            (#[trigger] rest[i]).0,
        ) by {
            assert(rest[i] == hashes[i]);
        }
        law_cached_prefix_is_shared(pool, rest);
        assert(pool.prefix.contains_key(hashes[hashes.len() - 1].0));
    }
    assert(sharing.blocks =~= blocks);
}

/// **A mapped prefix is cached.** Whatever was cached stays so, and after a
/// mapping that was not cut short every hash leads to the block mapped for it.
pub proof fn law_mapped_prefix_is_cached(pool: PoolView, hashes: Seq<BlockHash>)
    requires
        !sequence::share_blocks(pool, hashes).exhausted,
    ensures
        ({
            let sharing = sequence::share_blocks(pool, hashes);
            &&& sharing.blocks.len() == hashes.len()
            &&& forall|hash: u64| #[trigger]
                pool.prefix.contains_key(hash) ==> sharing.pool.prefix.contains_key(hash)
                    && sharing.pool.prefix[hash] == pool.prefix[hash]
            &&& forall|i: int|
                0 <= i < hashes.len() ==> sharing.pool.prefix.contains_key(
                    (#[trigger] hashes[i]).0,
                ) && sharing.pool.prefix[hashes[i].0] == sharing.blocks[i]
        }),
    decreases hashes.len(),
{
    if hashes.len() > 0 {
        let rest = hashes.drop_last();
        law_mapped_prefix_is_cached(pool, rest);
        let before = sequence::share_blocks(pool, rest);
        let sharing = sequence::share_blocks(pool, hashes);
        assert forall|i: int| 0 <= i < hashes.len() implies sharing.pool.prefix.contains_key(
            (#[trigger] hashes[i]).0,
        ) && sharing.pool.prefix[hashes[i].0] == sharing.blocks[i] by {
            if i < rest.len() {
                assert(rest[i] == hashes[i]);
            }
        }
    }
}

/// **The second request shares the first one's prompt.** When a prompt has been
/// mapped, mapping the same prompt again shares every block: it maps the same
/// blocks and takes no free one.
pub proof fn law_second_request_shares_the_prompt(pool: PoolView, hashes: Seq<BlockHash>)
    requires
        !sequence::share_blocks(pool, hashes).exhausted,
    ensures
        ({
            let first = sequence::share_blocks(pool, hashes);
            let second = sequence::share_blocks(first.pool, hashes);
            &&& !second.exhausted
            &&& second.shared == hashes.len()
            &&& second.blocks == first.blocks
            &&& second.pool.free == first.pool.free
        }),
{
    let first = sequence::share_blocks(pool, hashes);
    law_mapped_prefix_is_cached(pool, hashes);
    law_cached_prefix_is_shared(first.pool, hashes);
    let second = sequence::share_blocks(first.pool, hashes);
    assert forall|i: int| 0 <= i < hashes.len() implies second.blocks[i] == first.blocks[i] by {
        assert(first.pool.prefix.contains_key(hashes[i].0));
    }
    assert(second.blocks =~= first.blocks);
}

/// **An uncached prompt shares nothing.** If no hash is cached and none occurs
/// twice, mapping takes a free block for each.
pub proof fn law_uncached_prompt_shares_nothing(pool: PoolView, hashes: Seq<BlockHash>)
    requires
        pool.wf(),
        hashes.no_duplicates(),
        hashes.len() <= pool.free.len(),
        forall|i: int|
            0 <= i < hashes.len() ==> !pool.prefix.contains_key((#[trigger] hashes[i]).0),
    ensures
        ({
            let sharing = sequence::share_blocks(pool, hashes);
            &&& !sharing.exhausted
            &&& sharing.shared == 0
            &&& sharing.blocks == pool.next_blocks(hashes.len())
            &&& sharing.pool.free == pool.free.take(pool.free.len() - hashes.len())
            &&& forall|hash: u64| #[trigger]
                sharing.pool.prefix.contains_key(hash) ==> pool.prefix.contains_key(hash)
                    || hashes.contains(BlockHash(hash))
        }),
    decreases hashes.len(),
{
    let sharing = sequence::share_blocks(pool, hashes);
    if hashes.len() == 0 {
        assert(pool.free.take(pool.free.len() as int) =~= pool.free);
        assert(sharing.blocks =~= pool.next_blocks(0));
    } else {
        let rest = hashes.drop_last();
        let hash = hashes.last();
        assert forall|i: int| 0 <= i < rest.len() implies !pool.prefix.contains_key(
            (#[trigger] rest[i]).0,
        ) by {
            assert(rest[i] == hashes[i]);
        }
        law_uncached_prompt_shares_nothing(pool, rest);
        let before = sequence::share_blocks(pool, rest);
        assert(hashes[hashes.len() - 1] == hash);
        assert(BlockHash(hash.0) == hash);
        assert(!before.pool.prefix.contains_key(hash.0)) by {
            if rest.contains(hash) {
                let i = choose|i: int| 0 <= i < rest.len() && rest[i] == hash;
                assert(hashes[i] == hashes[hashes.len() - 1]);
            }
        }
        assert(sharing.blocks =~= pool.next_blocks(hashes.len()));
        assert(sharing.pool.free =~= pool.free.take(pool.free.len() - hashes.len()));
        assert forall|other: u64| #[trigger]
            sharing.pool.prefix.contains_key(other) implies pool.prefix.contains_key(other)
            || hashes.contains(BlockHash(other)) by {
            if other == hash.0 {
                assert(hashes[hashes.len() - 1] == BlockHash(other));
            } else {
                assert(before.pool.prefix.contains_key(other));
                if rest.contains(BlockHash(other)) {
                    let i = choose|i: int| 0 <= i < rest.len() && rest[i] == BlockHash(other);
                    assert(hashes[i] == BlockHash(other));
                }
            }
        }
    }
}

/// A block that two mappings have in common was mapped under the same hash.
proof fn lemma_common_block(
    pool: PoolView,
    first: Seq<BlockHash>,
    second: Seq<BlockHash>,
    i: int,
    j: int,
)
    requires
        ({
            let one = sequence::share_blocks(pool, first);
            let two = sequence::share_blocks(one.pool, second);
            &&& !one.exhausted
            &&& !two.exhausted
            &&& two.pool.wf()
            &&& 0 <= i < first.len()
            &&& 0 <= j < second.len()
            &&& one.blocks[i] == two.blocks[j]
        }),
    ensures
        first[i] == second[j],
{
    let one = sequence::share_blocks(pool, first);
    let two = sequence::share_blocks(one.pool, second);
    law_mapped_prefix_is_cached(pool, first);
    law_mapped_prefix_is_cached(one.pool, second);
    assert(one.pool.prefix.contains_key(first[i].0));
    assert(two.pool.prefix.contains_key(first[i].0));
    assert(two.pool.prefix.contains_key(second[j].0));
    assert(BlockHash(first[i].0) == first[i]);
    assert(BlockHash(second[j].0) == second[j]);
}

/// **Prompts mapped in a row share only equal prefixes.** If two prompts, mapped
/// one after the other, have a block in common, they agree on every token up to
/// and including that block, unless the hashes of these two prefixes collide.
pub proof fn law_sharing_means_equal_prefixes(
    pool: PoolView,
    a: Seq<TokenId>,
    b: Seq<TokenId>,
    i: int,
    j: int,
)
    requires
        pool.wf(),
        ({
            let one = sequence::share_blocks(pool, block::prefix_hashes(a));
            let two = sequence::share_blocks(one.pool, block::prefix_hashes(b));
            &&& sequence::room_to_share(pool, block::prefix_hashes(a))
            &&& sequence::room_to_share(one.pool, block::prefix_hashes(b))
            &&& !one.exhausted
            &&& !two.exhausted
            &&& 0 <= i < block::prefix_hashes(a).len()
            &&& 0 <= j < block::prefix_hashes(b).len()
            &&& one.blocks[i] == two.blocks[j]
        }),
        ({
            let x = a.take((i + 1) * block::BLOCK_SIZE);
            let y = b.take((j + 1) * block::BLOCK_SIZE);
            block::prefix_hash(x) == block::prefix_hash(y) ==> x == y
        }),
    ensures
        a.take((i + 1) * block::BLOCK_SIZE) == b.take((j + 1) * block::BLOCK_SIZE),
{
    let one = sequence::share_blocks(pool, block::prefix_hashes(a));
    sequence::lemma_share_growth(pool, block::prefix_hashes(a));
    sequence::lemma_share_growth(one.pool, block::prefix_hashes(b));
    lemma_common_block(pool, block::prefix_hashes(a), block::prefix_hashes(b), i, j);
}

} // verus!
