//! Sequences: how they grow, and what they need.
use std::time::Instant;
use vstd::prelude::*;
use vstd::std_specs::cmp::PartialEqSpec;

use super::accounts;
use crate::block::{self, BlockHash, PhysicalBlockId, PoolView};
use crate::counting;
use crate::ids::TokenId;
use crate::sequence::{self, SamplingParams, SeqState, SeqView};

verus! {

/// **Blocks cover tokens, and none is in excess.** So many blocks hold `len`
/// tokens, and one block less does not.
pub proof fn law_blocks_cover_tokens(len: nat)
    ensures
        len <= block::blocks_covering(len) * block::BLOCK_SIZE,
        block::blocks_covering(len) * block::BLOCK_SIZE < len + block::BLOCK_SIZE,
{
    let size = block::BLOCK_SIZE as nat;
    let cover = block::blocks_covering(len);
    assert(len <= cover * size && cover * size < len + size) by (nonlinear_arith)
        requires
            cover == (len + size - 1) as nat / size,
            size == 16,
    ;
}

/// **The footprint is for the tokens and the next one.** It covers one token more
/// than prompt and output have, and one block less does not; it is the same
/// however many blocks the sequence holds and whatever its state.
pub proof fn law_footprint_is_for_the_next_token(seq: SeqView, other: SeqView)
    ensures
        seq.prompt.len() + seq.output.len() + 1 <= seq.footprint() * block::BLOCK_SIZE,
        (seq.footprint() - 1) * block::BLOCK_SIZE < seq.prompt.len() + seq.output.len() + 1,
        seq.prompt.len() == other.prompt.len() && seq.output.len() == other.output.len()
            ==> seq.footprint() == other.footprint(),
        seq.len() == seq.prompt.len() + seq.output.len(),
{
    law_blocks_cover_tokens(seq.len() + 1);
}

/// **What is missing is what covers.** With the missing blocks the table covers
/// `len` tokens; if any is missing, with one block less it does not.
pub proof fn law_missing_blocks_complete_the_table(seq: SeqView, len: nat)
    ensures
        ({
            let full = seq.table.len() + seq.missing_blocks(len);
            &&& len <= full * block::BLOCK_SIZE
            &&& seq.missing_blocks(len) > 0 ==> (full - 1) * block::BLOCK_SIZE < len
        }),
{
    law_blocks_cover_tokens(len);
    let full = seq.table.len() + seq.missing_blocks(len);
    let cover = block::blocks_covering(len);
    let size = block::BLOCK_SIZE as nat;
    assert(cover * size <= full * size) by (nonlinear_arith)
        requires
            cover <= full,
            size == 16,
    ;
    if seq.missing_blocks(len) > 0 {
        assert((full - 1) * size < len) by (nonlinear_arith)
            requires
                full == cover,
                cover * size < len + size,
        ;
    }
}

/// **A generated token is appended.** The output grows by it, the time of the first
/// token is set once, and nothing else changes.
pub proof fn law_generated_token_is_appended(seq: SeqView, token: TokenId, at: Instant)
    ensures
        ({
            let n = seq.output.len() as int;
            let after = seq.pushed(token, at);
            &&& after.output.len() == n + 1
            &&& after.output[n] == token
            &&& after.output.take(n) == seq.output
            &&& after.first_token_at == match seq.first_token_at {
                Some(first) => Some(first),
                None => Some(at),
            }
            &&& after == (SeqView {
                output: after.output,
                first_token_at: after.first_token_at,
                ..seq
            })
        }),
{
    assert(seq.pushed(token, at).output.take(seq.output.len() as int) =~= seq.output);
}

/// **Growing, moving and clearing a sequence change one thing each**: its table,
/// its lifecycle state, its table.
pub proof fn law_one_thing_changes(
    seq: SeqView,
    blocks: Seq<PhysicalBlockId>,
    state: SeqState,
)
    ensures
        seq.mapped(blocks).table.len() == seq.table.len() + blocks.len(),
        seq.mapped(blocks).table.take(seq.table.len() as int) == seq.table,
        seq.mapped(blocks).table.skip(seq.table.len() as int) == blocks,
        seq.mapped(blocks) == (SeqView { table: seq.mapped(blocks).table, ..seq }),
        seq.in_state(state).state == state,
        seq.in_state(state) == (SeqView { state: seq.in_state(state).state, ..seq }),
        seq.unmapped().table.len() == 0,
        seq.unmapped() == (SeqView { table: seq.unmapped().table, ..seq }),
{
    assert(seq.mapped(blocks).table.take(seq.table.len() as int) =~= seq.table);
    assert(seq.mapped(blocks).table.skip(seq.table.len() as int) =~= blocks);
}

/// **Every complete block has a hash, of the whole prefix up to its end.** An
/// incomplete block has none.
pub proof fn law_complete_blocks_have_hashes(tokens: Seq<TokenId>)
    ensures
        ({
            let hashes = block::prefix_hashes(tokens);
            let size = block::BLOCK_SIZE;
            &&& hashes.len() * size <= tokens.len()
            &&& tokens.len() < hashes.len() * size + size
            &&& forall|i: int|
                0 <= i < hashes.len() ==> #[trigger] hashes[i] == block::prefix_hash(
                    tokens.take((i + 1) * size),
                )
        }),
{
    let size = block::BLOCK_SIZE as nat;
    let n = block::prefix_hashes(tokens).len();
    let len = tokens.len();
    assert(n * size <= len && len < n * size + size) by (nonlinear_arith)
        requires
            n == len / size,
            size == 16,
    ;
}

/// **Hashing is by bytes, one after the other.** The hash of nothing is the
/// starting value; each token folds its four bytes in, least significant first,
/// and each byte is mixed in and the result multiplied.
pub proof fn law_hash_folds_bytes(tokens: Seq<TokenId>, token: TokenId)
    ensures
        block::prefix_hash(Seq::empty()) == BlockHash(0xcbf2_9ce4_8422_2325),
        ({
            let fold = |acc: u64, byte: int|
                (acc ^ (byte as u8 as u64)).wrapping_mul(0x0000_0100_0000_01b3);
            let value = token.0 as int;
            block::prefix_hash(tokens.push(token)).0 == fold(
                fold(
                    fold(
                        fold(block::prefix_hash(tokens).0, value % 256),
                        value / 256 % 256,
                    ),
                    value / 65536 % 256,
                ),
                value / 16777216,
            )
        }),
{
    reveal(block::fnv1a_step);
    block::lemma_hash_token(tokens, token);
    assert(block::token_bytes(Seq::empty()) =~= Seq::empty());
}

/// **What is not mapped yet is the rest of the prompt.** The hashes that a sequence
/// still has to map are those of its prompt's complete blocks past its table.
pub proof fn law_unmapped_hashes_are_the_rest(seq: SeqView)
    ensures
        ({
            let all = block::prefix_hashes(seq.prompt);
            let rest = seq.unmapped_hashes();
            let n = seq.table.len();
            &&& n >= all.len() ==> rest.len() == 0
            &&& n < all.len() ==> rest.len() == all.len() - n
            &&& forall|i: int| 0 <= i < rest.len() ==> #[trigger] rest[i] == all[n + i]
        }),
{
}

/// Everything that mapping `hashes` through the prefix index comes to.
pub open spec fn maps_all(
    pool: PoolView,
    hashes: Seq<BlockHash>,
    result: sequence::Sharing,
) -> bool {
    let after = result.pool;
    let n = result.blocks.len();
    &&& n <= hashes.len()
    &&& result.exhausted <==> n < hashes.len()
    &&& result.exhausted ==> after.free.len() == 0 && !after.prefix.contains_key(
        hashes[n as int].0,
    )
    &&& after.free.len() <= pool.free.len()
    &&& after.free == pool.free.take(after.free.len() as int)
    &&& result.shared + (pool.free.len() - after.free.len()) == n
    &&& forall|i: int|
        0 <= i < n ==> after.prefix.contains_key((#[trigger] hashes[i]).0)
            && after.prefix[hashes[i].0] == result.blocks[i]
    &&& forall|hash: u64| #[trigger]
        pool.prefix.contains_key(hash) ==> after.prefix.contains_key(hash) && after.prefix[hash]
            == pool.prefix[hash]
    &&& forall|hash: u64| #[trigger]
        after.prefix.contains_key(hash) ==> pool.prefix.contains_key(hash) || exists|i: int|
            0 <= i < n && (#[trigger] hashes[i]).0 == hash
}

/// **Mapping a prefix shares what is cached and caches what is not.** Each hash
/// leads to the block mapped for it, whatever was cached stays so and nothing
/// else is cached. Each block mapped is a shared one, and is counted, or one that
/// was free. Mapping stops only when an uncached hash finds no free block.
pub proof fn law_mapping_shares_or_caches(pool: PoolView, hashes: Seq<BlockHash>)
    requires
        pool.wf(),
        sequence::room_to_share(pool, hashes),
    ensures
        maps_all(pool, hashes, sequence::share_blocks(pool, hashes)),
        sequence::share_blocks(pool, hashes).pool.refs.len() == pool.refs.len(),
        forall|block: PhysicalBlockId|
            (block.0 as nat) < pool.refs.len() ==> sequence::share_blocks(
                pool,
                hashes,
            ).pool.refs[block.0 as int] == pool.refs[block.0 as int] + #[trigger] counting::count(
                sequence::share_blocks(pool, hashes).blocks,
                block,
            ),
{
    lemma_maps_all(pool, hashes);
    sequence::lemma_share_growth(pool, hashes);
    accounts::lemma_share_counts(pool, hashes);
    let after = sequence::share_blocks(pool, hashes);
    assert forall|block: PhysicalBlockId|
        (block.0 as nat) < pool.refs.len() implies after.pool.refs[block.0 as int]
        == pool.refs[block.0 as int] + #[trigger] counting::count(after.blocks, block) by {
        assert(pool.owns(block));
        assert(after.pool.rc(block) == pool.rc(block) + counting::count(after.blocks, block));
    }
}

/// Mapping one hash after the other comes to that.
proof fn lemma_maps_all(pool: PoolView, hashes: Seq<BlockHash>)
    ensures
        maps_all(pool, hashes, sequence::share_blocks(pool, hashes)),
    decreases hashes.len(),
{
    let result = sequence::share_blocks(pool, hashes);
    if hashes.len() == 0 {
        assert(pool.free.take(pool.free.len() as int) =~= pool.free);
    } else {
        let rest = hashes.drop_last();
        let before = sequence::share_blocks(pool, rest);
        let last = hashes.len() - 1;
        lemma_maps_all(pool, rest);
        assert forall|i: int| 0 <= i < rest.len() implies rest[i] == hashes[i] by {}
        assert(result.pool.free =~= pool.free.take(result.pool.free.len() as int));
        assert forall|i: int| 0 <= i < result.blocks.len() implies result.pool.prefix.contains_key(
            (#[trigger] hashes[i]).0,
        ) && result.pool.prefix[hashes[i].0] == result.blocks[i] by {
            if i < before.blocks.len() {
                assert(rest[i] == hashes[i]);
                assert(before.pool.prefix.contains_key(rest[i].0));
            }
        }
        assert forall|hash: u64| #[trigger]
            result.pool.prefix.contains_key(hash) implies pool.prefix.contains_key(hash)
            || exists|i: int|
            0 <= i < result.blocks.len() && (#[trigger] hashes[i]).0 == hash by {
            if before.pool.prefix.contains_key(hash) {
                if !pool.prefix.contains_key(hash) {
                    let i = choose|i: int|
                        0 <= i < before.blocks.len() && (#[trigger] rest[i]).0 == hash;
                    assert(hashes[i].0 == hash);
                }
            } else {
                assert(hashes[last].0 == hash);
            }
        }
    }
}

/// **Sampling numbers compare as numbers.** A pattern that stands for no number
/// equals nothing, not even itself; the two zeros are equal; any other number
/// equals itself only. One is the number with exponent zero and no fraction.
pub proof fn law_sampling_compares_numbers(a: SamplingParams, b: SamplingParams)
    ensures
        ({
            let nan = |bits: u32| bits % 0x8000_0000 > 0x7f80_0000;
            let zero = |bits: u32| bits == 0 || bits == 0x8000_0000;
            let same = |x: u32, y: u32| !nan(x) && !nan(y) && (x == y || zero(x) && zero(y));
            a.eq_spec(&b) <==> same(a.temperature_bits, b.temperature_bits) && same(
                a.top_p_bits,
                b.top_p_bits,
            ) && a.max_tokens == b.max_tokens
        }),
        SamplingParams::obeys_eq_spec(),
        sequence::UNIT_BITS == 0x3f80_0000,
{
}

} // verus!
