//! Who holds the references to the blocks of the pool.
use vstd::prelude::*;

use crate::block::{self, PhysicalBlockId, PoolView};
use crate::counting;
use crate::engine::model::{self, EngineView};
use crate::sequence::{self, SeqView};

verus! {

/// How often a sequence's table holds `block`.
pub open spec fn uses_of(block: PhysicalBlockId) -> spec_fn(SeqView) -> nat {
    |seq: SeqView| counting::count(seq.table, block)
}

/// How often the tables of `seqs` hold `block`.
pub open spec fn uses(seqs: Seq<SeqView>, block: PhysicalBlockId) -> nat {
    counting::sum(seqs, uses_of(block))
}

/// How many blocks a sequence's table holds.
pub open spec fn table_lens() -> spec_fn(SeqView) -> nat {
    |seq: SeqView| seq.table.len()
}

/// How many blocks the tables of `seqs` hold, each counted as often as it is
/// held.
pub open spec fn mapped_blocks(seqs: Seq<SeqView>) -> nat {
    counting::sum(seqs, table_lens())
}

/// Every reference to a block of `pool` is an entry in a table of `seqs`.
pub open spec fn balanced(pool: PoolView, seqs: Seq<SeqView>) -> bool {
    forall|block: PhysicalBlockId|
        pool.owns(block) ==> #[trigger] pool.rc(block) == uses(seqs, block)
}

/// The table holds no more blocks than its tokens need.
pub open spec fn snug(seq: SeqView) -> bool {
    seq.table.len() <= block::blocks_covering(seq.len())
}

/// The books of `engine` balance: the running sequences hold every reference to
/// a block, none holds more blocks than its tokens need, and the waiting
/// sequences hold none.
pub open spec fn accounted(engine: EngineView) -> bool {
    &&& engine.pool.wf()
    &&& model::tables_in(engine.running, engine.pool)
    &&& balanced(engine.pool, engine.running)
    &&& forall|i: int| 0 <= i < engine.running.len() ==> snug(#[trigger] engine.running[i])
    &&& forall|i: int|
        0 <= i < engine.waiting.len() ==> (#[trigger] engine.waiting[i]).table.len() == 0
}

/// The blocks that occur in the tables of `seqs`.
pub open spec fn used_blocks(seqs: Seq<SeqView>) -> Set<PhysicalBlockId> {
    Set::new(|block: PhysicalBlockId| uses(seqs, block) > 0)
}

/// There are at most as many such blocks as there are table entries.
proof fn lemma_used_blocks(seqs: Seq<SeqView>)
    ensures
        used_blocks(seqs).finite(),
        used_blocks(seqs).len() <= mapped_blocks(seqs),
    decreases seqs.len(),
{
    if seqs.len() == 0 {
        assert(used_blocks(seqs) =~= Set::empty());
    } else {
        let rest = seqs.drop_last();
        let table = seqs.last().table;
        lemma_used_blocks(rest);
        table.lemma_cardinality_of_set();
        let both = used_blocks(rest).union(table.to_set());
        vstd::set_lib::lemma_len_union(used_blocks(rest), table.to_set());
        assert forall|block: PhysicalBlockId| #[trigger]
            used_blocks(seqs).contains(block) implies both.contains(block) by {
            counting::lemma_count_contains(table, block);
        }
        vstd::set_lib::lemma_len_subset(used_blocks(seqs), both);
        vstd::set_lib::lemma_set_subset_finite(both, used_blocks(seqs));
    }
}

/// What the tables do not hold is free.
pub proof fn lemma_free_blocks(pool: PoolView, seqs: Seq<SeqView>)
    requires
        pool.wf(),
        balanced(pool, seqs),
    ensures
        pool.free.len() + mapped_blocks(seqs) >= pool.total(),
{
    block::law_conservation(pool);
    lemma_used_blocks(seqs);
    assert forall|block: PhysicalBlockId| #[trigger] pool.held().contains(block) implies used_blocks(
        seqs,
    ).contains(block) by {
        assert(pool.rc(block) == uses(seqs, block));
    }
    vstd::set_lib::lemma_len_subset(pool.held(), used_blocks(seqs));
}

/// No cached block has more references than the running sequences have table
/// entries.
pub proof fn lemma_sharers_bounded(engine: EngineView, hash: u64)
    requires
        accounted(engine),
    ensures
        engine.pool.sharers(hash) <= mapped_blocks(engine.running),
{
    if engine.pool.prefix.contains_key(hash) {
        let block = engine.pool.prefix[hash];
        assert(engine.pool.rc(block) == uses(engine.running, block));
        assert forall|i: int| 0 <= i < engine.running.len() implies uses_of(block)(
            #[trigger] engine.running[i],
        ) <= table_lens()(engine.running[i]) by {
            counting::lemma_count_len(engine.running[i].table, block);
        }
        counting::lemma_sum_le(engine.running, uses_of(block), table_lens());
    }
}

/// Releasing blocks that are held takes exactly those references away.
pub proof fn lemma_released_all_counts(pool: PoolView, blocks: Seq<PhysicalBlockId>)
    requires
        pool.wf(),
        forall|i: int| 0 <= i < blocks.len() ==> pool.owns(#[trigger] blocks[i]),
        forall|block: PhysicalBlockId|
            pool.owns(block) ==> counting::count(blocks, block) <= #[trigger] pool.rc(block),
    ensures
        forall|block: PhysicalBlockId|
            pool.owns(block) ==> #[trigger] pool.released_all(blocks).rc(block) == pool.rc(block)
                - counting::count(blocks, block),
    decreases blocks.len(),
{
    if blocks.len() > 0 {
        let rest = blocks.drop_last();
        assert forall|i: int| 0 <= i < rest.len() implies pool.owns(#[trigger] rest[i]) by {
            assert(rest[i] == blocks[i]);
        }
        assert forall|block: PhysicalBlockId| pool.owns(block) implies counting::count(rest, block)
            <= #[trigger] pool.rc(block) by {}
        lemma_released_all_counts(pool, rest);
        pool.lemma_released_all(rest);
        let before = pool.released_all(rest);
        assert(pool.owns(blocks[blocks.len() - 1]));
        assert(pool.rc(blocks.last()) >= counting::count(blocks, blocks.last()));
        assert(before.rc(blocks.last()) == pool.rc(blocks.last()) - counting::count(
            rest,
            blocks.last(),
        ));
        assert forall|block: PhysicalBlockId| pool.owns(block) implies #[trigger] pool.released_all(
            blocks,
        ).rc(block) == pool.rc(block) - counting::count(blocks, block) by {
            assert(before.rc(block) == pool.rc(block) - counting::count(rest, block));
        }
    }
}

/// Releasing the tables of sequences takes exactly their references away.
pub proof fn lemma_release_seqs_counts(pool: PoolView, seqs: Seq<SeqView>)
    requires
        pool.wf(),
        model::tables_in(seqs, pool),
        forall|block: PhysicalBlockId|
            pool.owns(block) ==> uses(seqs, block) <= #[trigger] pool.rc(block),
    ensures
        forall|block: PhysicalBlockId|
            pool.owns(block) ==> #[trigger] model::release_seqs(pool, seqs).rc(block) == pool.rc(
                block,
            ) - uses(seqs, block),
    decreases seqs.len(),
{
    if seqs.len() > 0 {
        let rest = seqs.drop_last();
        let table = seqs.last().table;
        assert forall|i: int| 0 <= i < rest.len() implies model::table_in(
            #[trigger] rest[i],
            pool,
        ) by {
            assert(rest[i] == seqs[i]);
        }
        assert forall|block: PhysicalBlockId| pool.owns(block) implies uses(rest, block)
            <= #[trigger] pool.rc(block) by {}
        lemma_release_seqs_counts(pool, rest);
        crate::engine::upkeep::lemma_release_seqs(pool, rest);
        let before = model::release_seqs(pool, rest);
        assert(model::table_in(seqs[seqs.len() - 1], pool));
        assert forall|i: int| 0 <= i < table.len() implies before.owns(#[trigger] table[i]) by {
            assert(pool.owns(seqs[seqs.len() - 1].table[i]));
        }
        assert forall|block: PhysicalBlockId| before.owns(block) implies counting::count(
            table,
            block,
        ) <= #[trigger] before.rc(block) by {
            assert(pool.rc(block) >= uses(seqs, block));
        }
        lemma_released_all_counts(before, table);
        assert forall|block: PhysicalBlockId| pool.owns(block) implies #[trigger] model::release_seqs(
            pool,
            seqs,
        ).rc(block) == pool.rc(block) - uses(seqs, block) by {
            assert(before.rc(block) == pool.rc(block) - uses(rest, block));
        }
    }
}

/// Handing out blocks adds one reference to each.
pub proof fn lemma_taken_counts(pool: PoolView, n: nat)
    requires
        pool.wf(),
        n <= pool.free.len(),
    ensures
        forall|block: PhysicalBlockId|
            pool.owns(block) ==> #[trigger] pool.taken(n).rc(block) == pool.rc(block)
                + counting::count(pool.next_blocks(n), block),
    decreases n,
{
    if n == 0 {
        assert(pool.next_blocks(0) =~= Seq::empty());
    } else {
        let k = (n - 1) as nat;
        let before = pool.taken(k);
        lemma_taken_counts(pool, k);
        pool.lemma_taken(k);
        before.lemma_allocated();
        let next = before.free.last();
        assert(pool.next_blocks(n) =~= pool.next_blocks(k).push(next));
        assert forall|block: PhysicalBlockId| pool.owns(block) implies #[trigger] pool.taken(n).rc(
            block,
        ) == pool.rc(block) + counting::count(pool.next_blocks(n), block) by {
            counting::lemma_count_push(pool.next_blocks(k), next, block);
            assert(before.rc(block) == pool.rc(block) + counting::count(
                pool.next_blocks(k),
                block,
            ));
        }
    }
}

/// Sharing adds one reference to each block that it maps.
pub proof fn lemma_share_counts(pool: PoolView, hashes: Seq<block::BlockHash>)
    requires
        pool.wf(),
        sequence::room_to_share(pool, hashes),
    ensures
        forall|block: PhysicalBlockId|
            pool.owns(block) ==> #[trigger] sequence::share_blocks(pool, hashes).pool.rc(block)
                == pool.rc(block) + counting::count(
                sequence::share_blocks(pool, hashes).blocks,
                block,
            ),
    decreases hashes.len(),
{
    if hashes.len() > 0 {
        let rest = hashes.drop_last();
        let hash = hashes.last();
        assert forall|h: u64| #[trigger]
            pool.sharers(h) + counting::count(rest, block::BlockHash(h)) <= u16::MAX by {
            assert(pool.sharers(h) + counting::count(hashes, block::BlockHash(h)) <= u16::MAX);
        }
        lemma_share_counts(pool, rest);
        sequence::lemma_share_growth(pool, rest);
        let before = sequence::share_blocks(pool, rest);
        let after = sequence::share_blocks(pool, hashes);
        sequence::lemma_share_room(pool, hashes, hashes.len() - 1);
        assert(hashes.take(hashes.len() - 1) =~= rest);
        sequence::lemma_room_for_first(before.pool, hashes.skip(hashes.len() - 1));
        assert(hashes.skip(hashes.len() - 1)[0] == hash);
        if !before.exhausted && !before.pool.prefix.contains_key(hash.0) && before.pool.free.len()
            > 0 {
            before.pool.lemma_allocated();
        }
        assert forall|block: PhysicalBlockId| pool.owns(block) implies #[trigger] after.pool.rc(
            block,
        ) == pool.rc(block) + counting::count(after.blocks, block) by {
            assert(before.pool.rc(block) == pool.rc(block) + counting::count(
                before.blocks,
                block,
            ));
            if after.blocks != before.blocks {
                counting::lemma_count_push(before.blocks, after.blocks.last(), block);
            }
        }
    }
}

/// Sharing takes at most one free block per hash, so it cannot exhaust a pool
/// that has as many.
pub proof fn lemma_share_enough(pool: PoolView, hashes: Seq<block::BlockHash>)
    requires
        hashes.len() <= pool.free.len(),
    ensures
        !sequence::share_blocks(pool, hashes).exhausted,
        sequence::share_blocks(pool, hashes).pool.free.len() + hashes.len() >= pool.free.len(),
        sequence::share_blocks(pool, hashes).blocks.len() == hashes.len(),
    decreases hashes.len(),
{
    if hashes.len() > 0 {
        lemma_share_enough(pool, hashes.drop_last());
    }
}

} // verus!
