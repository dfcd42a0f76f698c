//! Block allocator and physical-block identifiers for the paged KV-cache.
//!
//! The KV pool is a flat arena of fixed-size blocks. A [`BlockAllocator`] hands
//! out [`PhysicalBlockId`]s from a free list and reference-counts them, so that
//! prefix sharing and copy-on-write can let several sequences point at the same
//! physical block. This module is the *only* place block refcounts and the
//! prefix index are mutated.
//!
//! Contracts speak of a [`PoolView`], the mathematical state of an allocator,
//! and of the transitions it offers.
use std::collections::HashMap;
use vstd::prelude::*;

use crate::ids::TokenId;

verus! {

broadcast use vstd::std_specs::hash::group_hash_axioms;

/// Number of token slots of KV stored in one physical block.
///
/// Logical token position `p` lives in block `p / BLOCK_SIZE` at offset
/// `p % BLOCK_SIZE`; the last block of a sequence may be partially filled.
pub const BLOCK_SIZE: usize = 16;

/// Largest pool whose blocks all have a [`PhysicalBlockId`] of their own.
pub open spec fn max_pool_blocks() -> int {
    0x1_0000_0000
}

/// Identifier of a physical block in the KV-pool arena (`0..total_blocks`).
#[derive(Debug, Clone, Copy, PartialEq, Eq, Structural, Hash, PartialOrd, Ord)]
pub struct PhysicalBlockId(pub u32);

/// Content hash of a full block, chained over the preceding prefix.
///
/// Two sequences share a physical block only when every token up to and
/// including that block matches, so the hash chains the previous block's hash
/// into the current one (the KV of a block depends on the whole prefix).
#[derive(Debug, Clone, Copy, PartialEq, Eq, Structural, Hash)]
pub struct BlockHash(pub u64);

/// Error returned when the KV pool cannot satisfy an allocation.
#[derive(Debug, Clone, Copy, PartialEq, Eq, Structural)]
pub enum AllocError {
    /// No free blocks remain; the scheduler must apply backpressure rather than
    /// let the engine OOM.
    Exhausted,
}

/// The state of a block pool.
#[verifier::ext_equal]
pub struct PoolView {
    /// Free blocks; the last one is handed out next.
    pub free: Seq<PhysicalBlockId>,
    /// Reference count of every block.
    pub refs: Seq<u16>,
    /// Block cached for each registered prefix hash.
    pub prefix: Map<u64, PhysicalBlockId>,
    /// Prefix hash under which each block is registered.
    pub hashes: Seq<Option<BlockHash>>,
}

impl PoolView {
    /// Number of blocks in the pool.
    pub open spec fn total(self) -> nat {
        self.refs.len()
    }

    /// `block` names a block of this pool.
    pub open spec fn owns(self, block: PhysicalBlockId) -> bool {
        block.0 < self.refs.len()
    }

    /// Reference count of `block`.
    pub open spec fn rc(self, block: PhysicalBlockId) -> u16 {
        self.refs[block.0 as int]
    }

    /// The blocks with a positive reference count.
    pub open spec fn held(self) -> Set<PhysicalBlockId> {
        Set::new(|block: PhysicalBlockId| self.owns(block) && self.rc(block) > 0)
    }

    /// A block is in the free list iff its refcount is zero, the free list never
    /// contains duplicates, and a block is in the prefix index, under exactly
    /// the hash recorded for it, only while its refcount is positive.
    pub open spec fn wf(self) -> bool {
        &&& self.refs.len() <= max_pool_blocks()
        &&& self.hashes.len() == self.refs.len()
        &&& self.free.no_duplicates()
        &&& forall|block: PhysicalBlockId| #[trigger]
            self.free.contains(block) <==> self.owns(block) && self.rc(block) == 0
        &&& forall|hash: u64| #[trigger]
            self.prefix.contains_key(hash) ==> {
                &&& self.owns(self.prefix[hash])
                &&& self.rc(self.prefix[hash]) > 0
                &&& self.hashes[self.prefix[hash].0 as int] == Some(BlockHash(hash))
            }
        &&& forall|i: int|
            0 <= i < self.hashes.len() && (#[trigger] self.hashes[i]) is Some ==> {
                &&& self.prefix.contains_key(self.hashes[i]->Some_0.0)
                &&& self.prefix[self.hashes[i]->Some_0.0].0 == i
            }
    }

    /// The pool of `total` blocks, all free, handing out low ids first.
    pub open spec fn fresh(total: nat) -> PoolView {
        PoolView {
            free: Seq::new(total, |i: int| PhysicalBlockId((total - 1 - i) as u32)),
            refs: Seq::new(total, |i: int| 0u16),
            prefix: Map::empty(),
            hashes: Seq::new(total, |i: int| None),
        }
    }

    /// The pool after its next free block has been handed out.
    pub open spec fn allocated(self) -> PoolView {
        PoolView {
            free: self.free.drop_last(),
            refs: self.refs.update(self.free.last().0 as int, 1),
            ..self
        }
    }

    /// The pool after its next free block has been handed out and registered
    /// under `hash`.
    pub open spec fn registered(self, hash: BlockHash) -> PoolView {
        PoolView {
            prefix: self.prefix.insert(hash.0, self.free.last()),
            hashes: self.hashes.update(self.free.last().0 as int, Some(hash)),
            ..self.allocated()
        }
    }

    /// The pool after one more reference to `block` has been taken.
    pub open spec fn shared(self, block: PhysicalBlockId) -> PoolView {
        PoolView {
            refs: self.refs.update(block.0 as int, (self.rc(block) + 1) as u16),
            ..self
        }
    }

    /// The pool after one reference to `block` has been dropped. The last
    /// reference puts the block back on the free list and evicts it from the
    /// prefix index; a block that is already free is left alone.
    pub open spec fn released(self, block: PhysicalBlockId) -> PoolView {
        if self.rc(block) == 0 {
            self
        } else if self.rc(block) > 1 {
            PoolView {
                refs: self.refs.update(block.0 as int, (self.rc(block) - 1) as u16),
                ..self
            }
        } else {
            PoolView {
                free: self.free.push(block),
                refs: self.refs.update(block.0 as int, 0),
                prefix: match self.hashes[block.0 as int] {
                    Some(hash) => self.prefix.remove(hash.0),
                    None => self.prefix,
                },
                hashes: self.hashes.update(block.0 as int, None),
            }
        }
    }

    /// The next `n` blocks that the pool will hand out, in that order.
    pub open spec fn next_blocks(self, n: nat) -> Seq<PhysicalBlockId> {
        Seq::new(n, |i: int| self.free[self.free.len() - 1 - i])
    }

    /// The pool after its next `n` free blocks have been handed out.
    pub open spec fn taken(self, n: nat) -> PoolView
        decreases n,
    {
        if n == 0 {
            self
        } else {
            self.taken((n - 1) as nat).allocated()
        }
    }

    /// The pool after one reference to each of `blocks` has been dropped.
    pub open spec fn released_all(self, blocks: Seq<PhysicalBlockId>) -> PoolView
        decreases blocks.len(),
    {
        if blocks.len() == 0 {
            self
        } else {
            self.released_all(blocks.drop_last()).released(blocks.last())
        }
    }

    /// References held on the block cached for `hash`; zero if none is cached.
    pub open spec fn sharers(self, hash: u64) -> nat {
        if self.prefix.contains_key(hash) {
            self.rc(self.prefix[hash]) as nat
        } else {
            0
        }
    }

    /// A pool hands out a block of its own that nobody holds.
    pub proof fn lemma_allocated(self)
        requires
            self.wf(),
            self.free.len() > 0,
        ensures
            self.owns(self.free.last()),
            self.rc(self.free.last()) == 0,
            self.hashes[self.free.last().0 as int] is None,
            self.allocated().wf(),
    {
        let block = self.free.last();
        let post = self.allocated();
        assert(self.free.contains(block));
        assert forall|b: PhysicalBlockId| #[trigger]
            post.free.contains(b) <==> post.owns(b) && post.rc(b) == 0 by {
            if post.free.contains(b) {
                let i = choose|i: int| 0 <= i < post.free.len() && post.free[i] == b;
                assert(self.free[i] == b);
                assert(self.free.contains(b));
            }
            if post.owns(b) && post.rc(b) == 0 {
                assert(b.0 != block.0);
                assert(self.free.contains(b));
                let i = choose|i: int| 0 <= i < self.free.len() && self.free[i] == b;
                assert(post.free[i] == b);
            }
        }
    }

    /// Registering the block that is handed out keeps the pool well formed.
    pub proof fn lemma_registered(self, hash: BlockHash)
        requires
            self.wf(),
            self.free.len() > 0,
            !self.prefix.contains_key(hash.0),
        ensures
            self.registered(hash).wf(),
    {
        self.lemma_allocated();
        let block = self.free.last();
        let mid = self.allocated();
        let post = self.registered(hash);
        assert(post.free == mid.free);
        assert forall|b: PhysicalBlockId| #[trigger]
            post.free.contains(b) <==> post.owns(b) && post.rc(b) == 0 by {
            assert(mid.free.contains(b) <==> mid.owns(b) && mid.rc(b) == 0);
        }
        assert forall|h: u64| #[trigger] post.prefix.contains_key(h) implies {
            &&& post.owns(post.prefix[h])
            &&& post.rc(post.prefix[h]) > 0
            &&& post.hashes[post.prefix[h].0 as int] == Some(BlockHash(h))
        } by {
            if h != hash.0 {
                assert(self.prefix.contains_key(h));
            }
        }
        assert forall|i: int|
            0 <= i < post.hashes.len() && (#[trigger] post.hashes[i]) is Some implies {
            &&& post.prefix.contains_key(post.hashes[i]->Some_0.0)
            &&& post.prefix[post.hashes[i]->Some_0.0].0 == i
        } by {
            if i != block.0 {
                assert(self.hashes[i] is Some);
            }
        }
    }

    /// Taking another reference to a held block keeps the pool well formed.
    pub proof fn lemma_shared(self, block: PhysicalBlockId)
        requires
            self.wf(),
            self.owns(block),
            0 < self.rc(block) < u16::MAX,
        ensures
            self.shared(block).wf(),
    {
        let post = self.shared(block);
        assert forall|b: PhysicalBlockId| #[trigger]
            post.free.contains(b) <==> post.owns(b) && post.rc(b) == 0 by {
            assert(self.free.contains(b) <==> self.owns(b) && self.rc(b) == 0);
        }
        assert forall|h: u64| #[trigger] post.prefix.contains_key(h) implies {
            &&& post.owns(post.prefix[h])
            &&& post.rc(post.prefix[h]) > 0
            &&& post.hashes[post.prefix[h].0 as int] == Some(BlockHash(h))
        } by {
            assert(self.prefix.contains_key(h));
        }
    }

    /// Dropping a reference keeps the pool well formed.
    pub proof fn lemma_released(self, block: PhysicalBlockId)
        requires
            self.wf(),
            self.owns(block),
        ensures
            self.released(block).wf(),
            self.released(block).total() == self.total(),
    {
        let post = self.released(block);
        if self.rc(block) > 0 {
            assert forall|b: PhysicalBlockId| #[trigger]
                post.free.contains(b) <==> post.owns(b) && post.rc(b) == 0 by {
                assert(self.free.contains(b) <==> self.owns(b) && self.rc(b) == 0);
                if self.rc(block) == 1 {
                    assert(post.free[self.free.len() as int] == block);
                    if self.free.contains(b) {
                        let i = choose|i: int| 0 <= i < self.free.len() && self.free[i] == b;
                        assert(post.free[i] == b);
                    }
                }
            }
            assert(!self.free.contains(block));
            assert forall|h: u64| #[trigger] post.prefix.contains_key(h) implies {
                &&& post.owns(post.prefix[h])
                &&& post.rc(post.prefix[h]) > 0
                &&& post.hashes[post.prefix[h].0 as int] == Some(BlockHash(h))
            } by {
                assert(self.prefix.contains_key(h));
            }
            assert forall|i: int|
                0 <= i < post.hashes.len() && (#[trigger] post.hashes[i]) is Some implies {
                &&& post.prefix.contains_key(post.hashes[i]->Some_0.0)
                &&& post.prefix[post.hashes[i]->Some_0.0].0 == i
            } by {
                assert(self.hashes[i] is Some);
            }
        }
    }

    /// Handing out free blocks keeps the pool well formed and leaves every
    /// cached block's count alone; each block handed out is one of the pool's.
    pub proof fn lemma_taken(self, n: nat)
        requires
            self.wf(),
            n <= self.free.len(),
        ensures
            self.taken(n).wf(),
            self.taken(n).total() == self.total(),
            self.taken(n).free == self.free.take(self.free.len() - n),
            self.taken(n).prefix == self.prefix,
            self.taken(n).hashes == self.hashes,
            forall|hash: u64| #[trigger] self.taken(n).sharers(hash) == self.sharers(hash),
            forall|i: int| 0 <= i < n ==> self.owns(#[trigger] self.next_blocks(n)[i]),
        decreases n,
    {
        if n == 0 {
            assert(self.free.take(self.free.len() as int) =~= self.free);
        } else {
            let before = self.taken((n - 1) as nat);
            self.lemma_taken((n - 1) as nat);
            before.lemma_allocated();
            assert(self.taken(n).free =~= self.free.take(self.free.len() - n));
            assert forall|hash: u64| #[trigger]
                self.taken(n).sharers(hash) == self.sharers(hash) by {
                assert(before.sharers(hash) == self.sharers(hash));
                if before.prefix.contains_key(hash) {
                    assert(before.rc(before.prefix[hash]) > 0);
                }
            }
            assert forall|i: int| 0 <= i < n implies self.owns(
                #[trigger] self.next_blocks(n)[i],
            ) by {
                assert(self.free.contains(self.free[self.free.len() - 1 - i]));
            }
        }
    }

    /// Dropping references keeps the pool well formed and adds to no cached
    /// block's count.
    pub proof fn lemma_released_all(self, blocks: Seq<PhysicalBlockId>)
        requires
            self.wf(),
            forall|i: int| 0 <= i < blocks.len() ==> self.owns(#[trigger] blocks[i]),
        ensures
            self.released_all(blocks).wf(),
            self.released_all(blocks).total() == self.total(),
            forall|hash: u64| #[trigger]
                self.released_all(blocks).sharers(hash) <= self.sharers(hash),
        decreases blocks.len(),
    {
        if blocks.len() > 0 {
            let rest = blocks.drop_last();
            assert forall|i: int| 0 <= i < rest.len() implies self.owns(#[trigger] rest[i]) by {
                assert(rest[i] == blocks[i]);
            }
            self.lemma_released_all(rest);
            let before = self.released_all(rest);
            let block = blocks.last();
            assert(self.owns(blocks[blocks.len() - 1]));
            before.lemma_released(block);
            assert forall|hash: u64| #[trigger]
                self.released_all(blocks).sharers(hash) <= self.sharers(hash) by {
                assert(before.sharers(hash) <= self.sharers(hash));
            }
        }
    }
}

/// Blocks needed to hold `len` tokens.
pub open spec fn blocks_covering(len: nat) -> nat {
    (len + BLOCK_SIZE as nat - 1) as nat / BLOCK_SIZE as nat
}

/// Number of blocks required to hold `len` tokens (rounding up).
#[must_use]
pub fn blocks_for_len(len: usize) -> (blocks: usize)
    ensures
        blocks == blocks_covering(len as nat),
        len <= blocks * BLOCK_SIZE < len + BLOCK_SIZE,
{
    let full: usize = len / BLOCK_SIZE;
    if len % BLOCK_SIZE == 0 {
        full
    } else {
        full + 1
    }
}

/// Starting value of the FNV-1a hash.
pub const FNV_OFFSET: u64 = 0xcbf2_9ce4_8422_2325;

/// Multiplier of the FNV-1a hash.
pub const FNV_PRIME: u64 = 0x0000_0100_0000_01b3;

/// FNV-1a after one more byte.
#[verifier::opaque]
pub open spec fn fnv1a_step(acc: u64, byte: u8) -> u64 {
    (acc ^ (byte as u64)).wrapping_mul(FNV_PRIME)
}

/// FNV-1a hash of `bytes`.
pub open spec fn fnv1a(bytes: Seq<u8>) -> u64
    decreases bytes.len(),
{
    if bytes.len() == 0 {
        FNV_OFFSET
    } else {
        fnv1a_step(fnv1a(bytes.drop_last()), bytes.last())
    }
}

/// The bytes of a token, least significant first.
pub open spec fn le_bytes(token: TokenId) -> Seq<u8> {
    seq![
        (token.0 % 256) as u8,
        (token.0 / 256 % 256) as u8,
        (token.0 / 65536 % 256) as u8,
        (token.0 / 16777216) as u8,
    ]
}

/// The bytes of `tokens`, one token after the other.
pub open spec fn token_bytes(tokens: Seq<TokenId>) -> Seq<u8>
    decreases tokens.len(),
{
    if tokens.len() == 0 {
        Seq::empty()
    } else {
        token_bytes(tokens.drop_last()) + le_bytes(tokens.last())
    }
}

/// Content hash of the prefix `tokens`.
pub open spec fn prefix_hash(tokens: Seq<TokenId>) -> BlockHash {
    BlockHash(fnv1a(token_bytes(tokens)))
}

/// Content hash of the prefix that ends with each complete block of `tokens`.
pub open spec fn prefix_hashes(tokens: Seq<TokenId>) -> Seq<BlockHash> {
    Seq::new(
        tokens.len() / BLOCK_SIZE as nat,
        |i: int| prefix_hash(tokens.take((i + 1) * BLOCK_SIZE)),
    )
}

/// Hashing one more token folds its four bytes in.
pub proof fn lemma_hash_token(tokens: Seq<TokenId>, token: TokenId)
    ensures
        fnv1a(token_bytes(tokens.push(token))) == ({
            let b = le_bytes(token);
            fnv1a_step(
                fnv1a_step(fnv1a_step(fnv1a_step(fnv1a(token_bytes(tokens)), b[0]), b[1]), b[2]),
                b[3],
            )
        }),
{
    let before = token_bytes(tokens);
    let b = le_bytes(token);
    let b0 = before.push(b[0]);
    let b1 = b0.push(b[1]);
    let b2 = b1.push(b[2]);
    let b3 = b2.push(b[3]);
    assert(tokens.push(token).drop_last() =~= tokens);
    assert(token_bytes(tokens.push(token)) =~= b3);
    assert(b0.drop_last() =~= before);
    assert(fnv1a(b0) == fnv1a_step(fnv1a(before), b[0]));
    assert(b1.drop_last() =~= b0);
    assert(fnv1a(b1) == fnv1a_step(fnv1a(b0), b[1]));
    assert(b2.drop_last() =~= b1);
    assert(fnv1a(b2) == fnv1a_step(fnv1a(b1), b[2]));
    assert(b3.drop_last() =~= b2);
    assert(fnv1a(b3) == fnv1a_step(fnv1a(b2), b[3]));
}

/// Folds one byte into a running FNV-1a hash.
fn fold_byte(acc: u64, byte: u8) -> (next: u64)
    ensures
        next == fnv1a_step(acc, byte),
{
    reveal(fnv1a_step);
    (acc ^ (byte as u64)).wrapping_mul(FNV_PRIME)
}

/// Folds the bytes of one token into a running FNV-1a hash.
fn fold_token(acc: u64, token: TokenId) -> (next: u64)
    ensures
        next == ({
            let b = le_bytes(token);
            fnv1a_step(fnv1a_step(fnv1a_step(fnv1a_step(acc, b[0]), b[1]), b[2]), b[3])
        }),
{
    let value: u32 = token.0;
    let acc0: u64 = fold_byte(acc, (value % 256) as u8);
    let acc1: u64 = fold_byte(acc0, (value / 256 % 256) as u8);
    let acc2: u64 = fold_byte(acc1, (value / 65536 % 256) as u8);
    fold_byte(acc2, (value / 16777216) as u8)
}

/// Chained content hashes for each *complete* block of `tokens`.
///
/// Returns one [`BlockHash`] per full `BLOCK_SIZE`-token block; a trailing
/// partial block is not hashable (its content is not yet fixed) and is omitted.
/// Each hash covers the whole prefix up to and including its block, so equal
/// prefixes hash equal. A production cache verifies token equality on a hit to
/// guard against the astronomically unlikely collision; here hash equality
/// stands in for content equality.
#[must_use]
pub fn chained_block_hashes(tokens: &[TokenId]) -> (hashes: Vec<BlockHash>)
    ensures
        hashes@ == prefix_hashes(tokens@),
{
    let count: usize = tokens.len();
    let complete: usize = count / BLOCK_SIZE;
    let mut hashes: Vec<BlockHash> = Vec::with_capacity(complete);
    let mut acc: u64 = FNV_OFFSET;
    let mut block: usize = 0;
    assert(tokens@.take(0) =~= Seq::empty());
    while block < complete
        invariant
            block <= complete,
            count == tokens@.len(),
            complete == count / BLOCK_SIZE,
            acc == fnv1a(token_bytes(tokens@.take(block * BLOCK_SIZE))),
            hashes@ =~= prefix_hashes(tokens@).take(block as int),
        decreases complete - block,
    {
        let start: usize = block * BLOCK_SIZE;
        let mut offset: usize = 0;
        while offset < BLOCK_SIZE
            invariant
                offset <= BLOCK_SIZE,
                start + BLOCK_SIZE <= count == tokens@.len(),
                acc == fnv1a(token_bytes(tokens@.take(start + offset))),
            decreases BLOCK_SIZE - offset,
        {
            let token: TokenId = tokens[start + offset];
            proof {
                let done = tokens@.take(start + offset);
                lemma_hash_token(done, token);
                assert(tokens@.take(start + offset + 1) =~= done.push(token));
            }
            acc = fold_token(acc, token);
            offset = offset + 1;
        }
        hashes.push(BlockHash(acc));
        block = block + 1;
    }
    hashes
}

/// Owns the free list, per-block reference counts, and the prefix-share index.
///
/// Invariant: a block is in the free list **iff** its refcount is zero, and the
/// free list never contains duplicates. Therefore
/// `free_blocks() + allocated_blocks() == total_blocks()` always holds. A block
/// is present in the prefix index only while its refcount is positive.
#[derive(Debug)]
pub struct BlockAllocator {
    free_list: Vec<PhysicalBlockId>,
    refcounts: Vec<u16>,
    prefix_index: HashMap<u64, PhysicalBlockId>,
    block_hash: Vec<Option<BlockHash>>,
}

impl View for BlockAllocator {
    type V = PoolView;

    closed spec fn view(&self) -> PoolView {
        PoolView {
            free: self.free_list@,
            refs: self.refcounts@,
            prefix: self.prefix_index@,
            hashes: self.block_hash@,
        }
    }
}

impl BlockAllocator {
    /// The allocator's invariant.
    pub open spec fn wf(&self) -> bool {
        self@.wf()
    }

    /// Create an allocator managing `total_blocks` blocks, all initially free.
    #[must_use]
    pub fn new(total_blocks: usize) -> (alloc: Self)
        requires
            total_blocks <= max_pool_blocks(),
        ensures
            alloc.wf(),
            alloc@ == PoolView::fresh(total_blocks as nat),
            alloc@.refs.len() == total_blocks,
            alloc@.free.len() == total_blocks,
    {
        // Ids are pushed in reverse so the stack hands out low ids first, purely
        // for readable traces; correctness does not depend on it.
        let mut free_list: Vec<PhysicalBlockId> = Vec::new();
        let mut refcounts: Vec<u16> = Vec::new();
        let mut block_hash: Vec<Option<BlockHash>> = Vec::new();
        let mut left: usize = total_blocks;
        while left > 0
            invariant
                left <= total_blocks <= max_pool_blocks(),
                free_list@ =~= PoolView::fresh(total_blocks as nat).free.take(total_blocks - left),
                refcounts@ =~= PoolView::fresh(total_blocks as nat).refs.take(total_blocks - left),
                block_hash@ =~= PoolView::fresh(total_blocks as nat).hashes.take(
                    total_blocks - left,
                ),
            decreases left,
        {
            left = left - 1;
            free_list.push(PhysicalBlockId(left as u32));
            refcounts.push(0);
            block_hash.push(None);
        }
        let alloc = BlockAllocator {
            free_list,
            refcounts,
            prefix_index: HashMap::new(),
            block_hash,
        };
        proof {
            let pool = PoolView::fresh(total_blocks as nat);
            assert(alloc@ =~= pool);
            assert forall|block: PhysicalBlockId| #[trigger]
                pool.free.contains(block) <==> pool.owns(block) && pool.rc(block) == 0 by {
                if pool.owns(block) {
                    assert(pool.free[total_blocks - 1 - block.0] == block);
                }
            }
        }
        alloc
    }

    /// Total number of blocks under management.
    #[must_use]
    pub fn total_blocks(&self) -> (total: usize)
        ensures
            total == self@.total(),
            total == self@.refs.len(),
    {
        self.refcounts.len()
    }

    /// Number of blocks currently available to allocate.
    #[must_use]
    pub fn free_blocks(&self) -> (free: usize)
        ensures
            free == self@.free.len(),
    {
        self.free_list.len()
    }

    /// Number of blocks currently held (refcount > 0).
    #[must_use]
    pub fn allocated_blocks(&self) -> (held: usize)
        requires
            self.wf(),
        ensures
            held == self@.held().len(),
            held + self@.free.len() == self@.total(),
    {
        proof {
            law_conservation(self@);
        }
        self.refcounts.len() - self.free_list.len()
    }

    /// Current reference count of `block` (0 means free).
    #[must_use]
    pub fn refcount(&self, block: PhysicalBlockId) -> (count: u16)
        requires
            self@.owns(block),
        ensures
            count == self@.rc(block),
            count == self@.refs[block.0 as int],
    {
        self.refcounts[block.0 as usize]
    }

    /// Allocate one free block, returning its id with refcount 1.
    ///
    /// Returns [`AllocError::Exhausted`] when the pool is empty.
    pub fn allocate_block(&mut self) -> (result: Result<PhysicalBlockId, AllocError>)
        requires
            old(self).wf(),
        ensures
            final(self).wf(),
            old(self)@.free.len() == 0 ==> {
                &&& result == Err::<PhysicalBlockId, AllocError>(AllocError::Exhausted)
                &&& final(self)@ == old(self)@
            },
            old(self)@.free.len() > 0 ==> {
                &&& result == Ok::<PhysicalBlockId, AllocError>(old(self)@.free.last())
                &&& old(self)@.owns(old(self)@.free.last())
                &&& old(self)@.rc(old(self)@.free.last()) == 0
                &&& final(self)@ == old(self)@.allocated()
            },
    {
        match self.free_list.pop() {
            None => {
                assert(self@ =~= old(self)@);
                Err(AllocError::Exhausted)
            },
            Some(block) => {
                proof {
                    old(self)@.lemma_allocated();
                }
                self.refcounts[block.0 as usize] = 1;
                assert(self@ =~= old(self)@.allocated());
                Ok(block)
            },
        }
    }

    /// Allocate a block for the prefix identified by `hash`, sharing an existing
    /// physical block when the prefix is already cached.
    ///
    /// Returns the block and whether it was **shared** (an existing block whose
    /// refcount was bumped) rather than freshly allocated. A freshly allocated
    /// block is registered so later sequences with the same prefix can share it.
    pub fn allocate_shared(&mut self, hash: BlockHash) -> (result: Result<
        (PhysicalBlockId, bool),
        AllocError,
    >)
        requires
            old(self).wf(),
            old(self)@.prefix.contains_key(hash.0) ==> old(self)@.rc(old(self)@.prefix[hash.0])
                < u16::MAX,
        ensures
            final(self).wf(),
            old(self)@.prefix.contains_key(hash.0) ==> {
                &&& result == Ok::<(PhysicalBlockId, bool), AllocError>(
                    (old(self)@.prefix[hash.0], true),
                )
                &&& final(self)@ == old(self)@.shared(old(self)@.prefix[hash.0])
            },
            !old(self)@.prefix.contains_key(hash.0) && old(self)@.free.len() == 0 ==> {
                &&& result == Err::<(PhysicalBlockId, bool), AllocError>(AllocError::Exhausted)
                &&& final(self)@ == old(self)@
            },
            !old(self)@.prefix.contains_key(hash.0) && old(self)@.free.len() > 0 ==> {
                &&& result == Ok::<(PhysicalBlockId, bool), AllocError>(
                    (old(self)@.free.last(), false),
                )
                &&& final(self)@ == old(self)@.registered(hash)
            },
    {
        if let Some(cached) = self.prefix_index.get(&hash.0) {
            // Cached blocks always have a positive refcount (evicted on free).
            let block: PhysicalBlockId = *cached;
            self.incref(block);
            return Ok((block, true));
        }
        match self.allocate_block() {
            Err(error) => Err(error),
            Ok(block) => {
                proof {
                    old(self)@.lemma_allocated();
                    old(self)@.lemma_registered(hash);
                }
                self.block_hash[block.0 as usize] = Some(hash);
                self.prefix_index.insert(hash.0, block);
                assert(self@ =~= old(self)@.registered(hash));
                Ok((block, false))
            },
        }
    }

    /// Increment the refcount of an already-held block (prefix sharing / CoW).
    pub fn incref(&mut self, block: PhysicalBlockId)
        requires
            old(self).wf(),
            old(self)@.owns(block),
            0 < old(self)@.rc(block) < u16::MAX,
        ensures
            final(self).wf(),
            final(self)@ == old(self)@.shared(block),
    {
        proof {
            old(self)@.lemma_shared(block);
        }
        let count: u16 = self.refcounts[block.0 as usize];
        self.refcounts[block.0 as usize] = count + 1;
        assert(self@ =~= old(self)@.shared(block));
    }

    /// Privatize a shared block before a divergent write (copy-on-write).
    ///
    /// If `block` is uniquely owned this is a no-op returning `block` itself.
    /// Otherwise a fresh private block is allocated and this owner's share of the
    /// original is released; the caller repoints its block table at the copy. A
    /// real KV runtime copies the block's tensor contents here; without tensor
    /// contents, privatization is purely the block-table swap.
    pub fn copy_on_write(&mut self, block: PhysicalBlockId) -> (result: Result<
        PhysicalBlockId,
        AllocError,
    >)
        requires
            old(self).wf(),
            old(self)@.owns(block),
        ensures
            final(self).wf(),
            old(self)@.rc(block) <= 1 ==> {
                &&& result == Ok::<PhysicalBlockId, AllocError>(block)
                &&& final(self)@ == old(self)@
            },
            old(self)@.rc(block) > 1 && old(self)@.free.len() == 0 ==> {
                &&& result == Err::<PhysicalBlockId, AllocError>(AllocError::Exhausted)
                &&& final(self)@ == old(self)@
            },
            old(self)@.rc(block) > 1 && old(self)@.free.len() > 0 ==> {
                &&& result == Ok::<PhysicalBlockId, AllocError>(old(self)@.free.last())
                &&& final(self)@ == old(self)@.allocated().released(block)
            },
    {
        if self.refcount(block) <= 1 {
            return Ok(block);
        }
        match self.allocate_block() {
            Err(error) => Err(error),
            Ok(private) => {
                self.free_block(block);
                Ok(private)
            },
        }
    }

    /// Decrement `block`'s refcount, returning it to the free list at zero.
    ///
    /// A no-op on an already-free block. When the block becomes free, any
    /// prefix-index entry for it is evicted.
    pub fn free_block(&mut self, block: PhysicalBlockId)
        requires
            old(self).wf(),
            old(self)@.owns(block),
        ensures
            final(self).wf(),
            final(self)@ == old(self)@.released(block),
    {
        proof {
            old(self)@.lemma_released(block);
        }
        let index: usize = block.0 as usize;
        let count: u16 = self.refcounts[index];
        if count == 0 {
            return;
        }
        self.refcounts[index] = count - 1;
        if count == 1 {
            if let Some(hash) = self.block_hash[index] {
                self.prefix_index.remove(&hash.0);
            }
            self.block_hash[index] = None;
            self.free_list.push(block);
        }
        assert(self@ =~= old(self)@.released(block));
    }
}

/// **Conservation.** Every block is either free or held: the free blocks and
/// the held blocks together are exactly the blocks of the pool.
pub proof fn law_conservation(pool: PoolView)
    requires
        pool.wf(),
    ensures
        pool.held().finite(),
        pool.free.len() + pool.held().len() == pool.total(),
{
    let total = pool.total() as int;
    let free = pool.free.to_set();
    let held = pool.held();
    let ids = vstd::set_lib::set_int_range(0, total);
    let all = Set::new(|block: PhysicalBlockId| pool.owns(block));
    vstd::set_lib::lemma_int_range(0, total);
    let id_of = |i: int| PhysicalBlockId(i as u32);
    assert forall|block: PhysicalBlockId| #[trigger] all.contains(block) implies ids.map(
        id_of,
    ).contains(block) by {
        assert(ids.contains(block.0 as int) && id_of(block.0 as int) == block);
    }
    assert(ids.map(id_of) =~= all);
    vstd::set_lib::lemma_map_size(ids, all, id_of);
    pool.free.unique_seq_to_set();
    assert(free.union(held) =~= all);
    assert(free.disjoint(held));
    vstd::set_lib::lemma_set_subset_finite(all, held);
    vstd::set_lib::lemma_set_disjoint_lens(free, held);
}

} // verus!
