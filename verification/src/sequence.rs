//! Sequences and their logical-to-physical block mapping.
//!
//! A [`Sequence`] is one in-flight generation request. It owns its tokens and a
//! **block table** that maps each logical block index to a physical block in the
//! KV pool. Growth and release go through the [`BlockAllocator`], which remains
//! the sole owner of refcounts.
use std::time::Instant;
use vstd::prelude::*;

use crate::block::{
    blocks_for_len, chained_block_hashes, AllocError, BlockAllocator, BlockHash, PhysicalBlockId,
    PoolView, BLOCK_SIZE,
};
use crate::clock::now;
use crate::ids::{SeqId, TokenId};
use crate::{block, counting};

verus! {

/// Lifecycle state of a sequence.
///
/// Transitions are owned by the engine; this type only records the current
/// state.
#[derive(Debug, Clone, Copy, PartialEq, Eq, Structural)]
pub enum SeqState {
    /// Queued, not yet admitted to the running set.
    Waiting,
    /// Admitted and advancing one token per engine step.
    Running,
    /// Evicted under memory pressure; eligible for readmission.
    Preempted,
    /// Completed (EOS, max tokens, or stop condition).
    Finished,
}

/// Bit pattern of the single-precision number one.
pub const UNIT_BITS: u32 = 0x3f80_0000;

/// Bit pattern of the single-precision infinity.
pub const INFINITY_BITS: u32 = 0x7f80_0000;

/// Weight of the sign bit of a single-precision number.
pub const SIGN_BIT: u32 = 0x8000_0000;

/// The bits are those of a number: they are not a NaN, whose bits without the
/// sign are above those of infinity.
pub open spec fn is_number(bits: u32) -> bool {
    bits % SIGN_BIT <= INFINITY_BITS
}

/// The bits are those of zero, of either sign.
pub open spec fn is_zero(bits: u32) -> bool {
    bits % SIGN_BIT == 0
}

/// Bit patterns of equal single-precision numbers: a NaN equals nothing, the two
/// zeros are equal, and any other number has one bit pattern.
pub open spec fn equal_numbers(a: u32, b: u32) -> bool {
    is_number(a) && is_number(b) && (a == b || is_zero(a) && is_zero(b))
}

/// Compares two single-precision numbers by their bits.
fn numbers_are_equal(a: u32, b: u32) -> (equal: bool)
    ensures
        equal == equal_numbers(a, b),
{
    let (size_a, size_b): (u32, u32) = (a % SIGN_BIT, b % SIGN_BIT);
    size_a <= INFINITY_BITS && size_b <= INFINITY_BITS && (a == b || size_a == 0 && size_b == 0)
}

/// Token-sampling configuration for a request.
///
/// The engine reads `max_tokens` only. The two sampling numbers are carried for
/// the model runtime as IEEE 754 single-precision bit patterns, and compared as
/// the numbers that they stand for.
#[derive(Debug, Clone, Copy)]
pub struct SamplingParams {
    /// Bits of the softmax temperature; zero selects greedy decoding.
    pub temperature_bits: u32,
    /// Bits of the nucleus (top-p) cutoff, above zero and at most one.
    pub top_p_bits: u32,
    /// Maximum tokens to generate; `0` means unbounded (caller enforces).
    pub max_tokens: usize,
}

impl Default for SamplingParams {
    /// Temperature one, no nucleus cutoff, no token limit.
    fn default() -> (params: Self)
        ensures
            params == (SamplingParams {
                temperature_bits: UNIT_BITS,
                top_p_bits: UNIT_BITS,
                max_tokens: 0,
            }),
    {
        SamplingParams { temperature_bits: UNIT_BITS, top_p_bits: UNIT_BITS, max_tokens: 0 }
    }
}

impl PartialEq for SamplingParams {
    fn eq(&self, other: &Self) -> (equal: bool) {
        numbers_are_equal(self.temperature_bits, other.temperature_bits) && numbers_are_equal(
            self.top_p_bits,
            other.top_p_bits,
        ) && self.max_tokens == other.max_tokens
    }
}

impl vstd::std_specs::cmp::PartialEqSpecImpl for SamplingParams {
    open spec fn obeys_eq_spec() -> bool {
        true
    }

    open spec fn eq_spec(&self, other: &Self) -> bool {
        &&& equal_numbers(self.temperature_bits, other.temperature_bits)
        &&& equal_numbers(self.top_p_bits, other.top_p_bits)
        &&& self.max_tokens == other.max_tokens
    }
}

/// The tokens of a sequence: its prompt, followed by what it generated.
#[derive(Debug)]
struct TokenLog {
    all: Vec<TokenId>,
    prompt_len: usize,
}

impl TokenLog {
    #[verifier::type_invariant]
    spec fn inv(self) -> bool {
        self.prompt_len <= self.all@.len()
    }

    spec fn prompt(self) -> Seq<TokenId> {
        self.all@.take(self.prompt_len as int)
    }

    spec fn output(self) -> Seq<TokenId> {
        self.all@.skip(self.prompt_len as int)
    }

    fn new(prompt: Vec<TokenId>) -> (log: Self)
        ensures
            log.prompt() == prompt@,
            log.output() == Seq::<TokenId>::empty(),
    {
        let prompt_len: usize = prompt.len();
        let log = TokenLog { all: prompt, prompt_len };
        assert(log.prompt() =~= prompt@);
        assert(log.output() =~= Seq::empty());
        log
    }

    fn prompt_tokens(&self) -> (tokens: &[TokenId])
        ensures
            tokens@ == self.prompt(),
    {
        proof {
            use_type_invariant(self);
        }
        vstd::slice::slice_subrange(self.all.as_slice(), 0, self.prompt_len)
    }

    fn output_tokens(&self) -> (tokens: &[TokenId])
        ensures
            tokens@ == self.output(),
    {
        proof {
            use_type_invariant(self);
        }
        vstd::slice::slice_subrange(self.all.as_slice(), self.prompt_len, self.all.len())
    }

    fn len(&self) -> (len: usize)
        ensures
            len == self.prompt().len() + self.output().len(),
    {
        proof {
            use_type_invariant(self);
        }
        self.all.len()
    }

    fn push(&mut self, token: TokenId)
        ensures
            final(self).prompt() == old(self).prompt(),
            final(self).output() == old(self).output().push(token),
    {
        let mut taken = TokenLog { all: Vec::new(), prompt_len: 0 };
        std::mem::swap(self, &mut taken);
        proof {
            use_type_invariant(&taken);
        }
        let mut all: Vec<TokenId> = taken.all;
        let prompt_len: usize = taken.prompt_len;
        all.push(token);
        *self = TokenLog { all, prompt_len };
        assert(self.prompt() =~= old(self).prompt());
        assert(self.output() =~= old(self).output().push(token));
    }
}

/// The state of a sequence.
#[verifier::ext_equal]
pub struct SeqView {
    /// Identifier of the request.
    pub id: SeqId,
    /// Lifecycle state.
    pub state: SeqState,
    /// The input tokens.
    pub prompt: Seq<TokenId>,
    /// The generated tokens, in order.
    pub output: Seq<TokenId>,
    /// Physical block of each logical block.
    pub table: Seq<PhysicalBlockId>,
    /// Scheduling priority.
    pub priority: u8,
    /// Sampling configuration.
    pub sampling: SamplingParams,
    /// When the request arrived.
    pub arrival: Instant,
    /// When its first token was generated.
    pub first_token_at: Option<Instant>,
}

impl SeqView {
    /// Total logical token length.
    pub open spec fn len(self) -> nat {
        self.prompt.len() + self.output.len()
    }

    /// Additional blocks the table needs to cover `len` tokens.
    pub open spec fn missing_blocks(self, len: nat) -> nat {
        if block::blocks_covering(len) > self.table.len() {
            (block::blocks_covering(len) - self.table.len()) as nat
        } else {
            0
        }
    }

    /// Blocks that cover one token more than the sequence has.
    pub open spec fn footprint(self) -> nat {
        block::blocks_covering(self.len() + 1)
    }

    /// Hashes of the complete prompt blocks that the table does not cover yet.
    pub open spec fn unmapped_hashes(self) -> Seq<BlockHash> {
        let hashes = block::prefix_hashes(self.prompt);
        if self.table.len() <= hashes.len() {
            hashes.skip(self.table.len() as int)
        } else {
            Seq::empty()
        }
    }

    /// The sequence after `token` was generated at time `at`.
    pub open spec fn pushed(self, token: TokenId, at: Instant) -> SeqView {
        SeqView {
            output: self.output.push(token),
            first_token_at: if self.first_token_at is None {
                Some(at)
            } else {
                self.first_token_at
            },
            ..self
        }
    }

    /// The sequence with its table grown by `blocks`.
    pub open spec fn mapped(self, blocks: Seq<PhysicalBlockId>) -> SeqView {
        SeqView { table: self.table + blocks, ..self }
    }

    /// The sequence in lifecycle state `state`.
    pub open spec fn in_state(self, state: SeqState) -> SeqView {
        SeqView { state, ..self }
    }

    /// The sequence without blocks.
    pub open spec fn unmapped(self) -> SeqView {
        SeqView { table: Seq::empty(), ..self }
    }
}

/// The states of `seqs`.
pub open spec fn seq_views(seqs: Seq<Sequence>) -> Seq<SeqView> {
    seqs.map_values(|seq: Sequence| seq@)
}

/// What mapping a run of prompt blocks through the prefix cache comes to.
#[verifier::ext_equal]
pub struct Sharing {
    /// The pool afterwards.
    pub pool: PoolView,
    /// The blocks mapped, in order.
    pub blocks: Seq<PhysicalBlockId>,
    /// How many of them were already cached.
    pub shared: nat,
    /// The pool ran out of blocks before all were mapped.
    pub exhausted: bool,
}

/// Maps one block per hash, in order, until the pool is exhausted: a cached
/// block is shared, any other is allocated and registered.
pub open spec fn share_blocks(pool: PoolView, hashes: Seq<BlockHash>) -> Sharing
    decreases hashes.len(),
{
    if hashes.len() == 0 {
        Sharing { pool, blocks: Seq::empty(), shared: 0, exhausted: false }
    } else {
        let before = share_blocks(pool, hashes.drop_last());
        let hash = hashes.last();
        if before.exhausted {
            before
        } else if before.pool.prefix.contains_key(hash.0) {
            let block = before.pool.prefix[hash.0];
            Sharing {
                pool: before.pool.shared(block),
                blocks: before.blocks.push(block),
                shared: before.shared + 1,
                exhausted: false,
            }
        } else if before.pool.free.len() == 0 {
            Sharing { exhausted: true, ..before }
        } else {
            Sharing {
                pool: before.pool.registered(hash),
                blocks: before.blocks.push(before.pool.free.last()),
                ..before
            }
        }
    }
}

/// Sharing one block per hash overflows no reference count.
pub open spec fn room_to_share(pool: PoolView, hashes: Seq<BlockHash>) -> bool {
    forall|hash: u64| #[trigger]
        pool.sharers(hash) + counting::count(hashes, BlockHash(hash)) <= u16::MAX
}

/// A single generation request and its KV block mapping.
#[derive(Debug)]
pub struct Sequence {
    id: SeqId,
    state: SeqState,
    tokens: TokenLog,
    block_table: Vec<PhysicalBlockId>,
    priority: u8,
    sampling: SamplingParams,
    arrival: Instant,
    first_token_at: Option<Instant>,
}

impl View for Sequence {
    type V = SeqView;

    closed spec fn view(&self) -> SeqView {
        SeqView {
            id: self.id,
            state: self.state,
            prompt: self.tokens.prompt(),
            output: self.tokens.output(),
            table: self.block_table@,
            priority: self.priority,
            sampling: self.sampling,
            arrival: self.arrival,
            first_token_at: self.first_token_at,
        }
    }
}

impl Sequence {
    /// Create a waiting sequence from its prompt, arriving now.
    #[must_use]
    pub fn new(
        id: SeqId,
        prompt_tokens: Vec<TokenId>,
        sampling: SamplingParams,
        priority: u8,
    ) -> (seq: Self)
        ensures
            seq@ == (SeqView {
                id,
                state: SeqState::Waiting,
                prompt: prompt_tokens@,
                output: Seq::empty(),
                table: Seq::empty(),
                priority,
                sampling,
                arrival: seq@.arrival,
                first_token_at: None,
            }),
    {
        Sequence::arriving_at(id, prompt_tokens, sampling, priority, now())
    }

    /// Create a waiting sequence from its prompt, arriving at `arrival`.
    #[must_use]
    pub fn arriving_at(
        id: SeqId,
        prompt_tokens: Vec<TokenId>,
        sampling: SamplingParams,
        priority: u8,
        arrival: Instant,
    ) -> (seq: Self)
        ensures
            seq@ == (SeqView {
                id,
                state: SeqState::Waiting,
                prompt: prompt_tokens@,
                output: Seq::empty(),
                table: Seq::empty(),
                priority,
                sampling,
                arrival,
                first_token_at: None,
            }),
    {
        Sequence {
            id,
            state: SeqState::Waiting,
            tokens: TokenLog::new(prompt_tokens),
            block_table: Vec::new(),
            priority,
            sampling,
            arrival,
            first_token_at: None,
        }
    }

    /// Sequence identifier.
    #[must_use]
    pub fn id(&self) -> (id: SeqId)
        ensures
            id == self@.id,
    {
        self.id
    }

    /// Current lifecycle state.
    #[must_use]
    pub fn state(&self) -> (state: SeqState)
        ensures
            state == self@.state,
    {
        self.state
    }

    /// Prompt tokens (the input prefix).
    #[must_use]
    pub fn prompt_tokens(&self) -> (tokens: &[TokenId])
        ensures
            tokens@ == self@.prompt,
    {
        self.tokens.prompt_tokens()
    }

    /// Generated output tokens, in order.
    #[must_use]
    pub fn output_tokens(&self) -> (tokens: &[TokenId])
        ensures
            tokens@ == self@.output,
    {
        self.tokens.output_tokens()
    }

    /// The block table: logical block index to physical block.
    #[must_use]
    pub fn block_table(&self) -> (table: &[PhysicalBlockId])
        ensures
            table@ == self@.table,
    {
        self.block_table.as_slice()
    }

    /// Scheduling priority (higher preempts lower).
    #[must_use]
    pub fn priority(&self) -> (priority: u8)
        ensures
            priority == self@.priority,
    {
        self.priority
    }

    /// Sampling configuration.
    #[must_use]
    pub fn sampling(&self) -> (sampling: SamplingParams)
        ensures
            sampling == self@.sampling,
    {
        self.sampling
    }

    /// Arrival time, used for FCFS ordering and TTFT.
    #[must_use]
    pub fn arrival(&self) -> (arrival: Instant)
        ensures
            arrival == self@.arrival,
    {
        self.arrival
    }

    /// Time the first output token was produced, if any (for TTFT).
    #[must_use]
    pub fn first_token_at(&self) -> (at: Option<Instant>)
        ensures
            at == self@.first_token_at,
    {
        self.first_token_at
    }

    /// Total logical token length (prompt + generated): what the KV holds.
    #[must_use]
    pub fn len(&self) -> (len: usize)
        ensures
            len == self@.len(),
    {
        self.tokens.len()
    }

    /// True when the sequence holds no tokens at all.
    #[must_use]
    pub fn is_empty(&self) -> (empty: bool)
        ensures
            empty == (self@.len() == 0),
    {
        self.len() == 0
    }

    /// Set the lifecycle state.
    pub fn set_state(&mut self, state: SeqState)
        ensures
            final(self)@ == old(self)@.in_state(state),
    {
        self.state = state;
    }

    /// Append a generated token, recording time-to-first-token once.
    pub fn push_output(&mut self, token: TokenId)
        ensures
            exists|at: Instant| final(self)@ == #[trigger] old(self)@.pushed(token, at),
    {
        self.push_output_at(token, now());
    }

    /// Append a token generated at time `at`, which becomes the time of the
    /// first token if there was none before.
    pub fn push_output_at(&mut self, token: TokenId, at: Instant)
        ensures
            final(self)@ == old(self)@.pushed(token, at),
    {
        if self.first_token_at.is_none() {
            self.first_token_at = Some(at);
        }
        self.tokens.push(token);
    }

    /// Physical block and in-block offset for logical token position `pos`,
    /// or `None` if the block table does not yet cover that position.
    #[must_use]
    pub fn locate(&self, pos: usize) -> (place: Option<(PhysicalBlockId, usize)>)
        ensures
            place == (if pos / BLOCK_SIZE < self@.table.len() {
                Some((self@.table[(pos / BLOCK_SIZE) as int], pos % BLOCK_SIZE))
            } else {
                None
            }),
    {
        let index: usize = pos / BLOCK_SIZE;
        if index < self.block_table.len() {
            Some((self.block_table[index], pos % BLOCK_SIZE))
        } else {
            None
        }
    }

    /// Additional blocks the table needs to cover `len` tokens.
    #[must_use]
    pub fn blocks_needed(&self, len: usize) -> (needed: usize)
        ensures
            needed == self@.missing_blocks(len as nat),
    {
        let covering: usize = blocks_for_len(len);
        let held: usize = self.block_table.len();
        if covering > held {
            covering - held
        } else {
            0
        }
    }

    /// Additional blocks required for the one token this sequence will produce
    /// next step (covering logical length `len() + 1`).
    #[must_use]
    pub fn blocks_needed_for_next(&self) -> (needed: usize)
        ensures
            needed == self@.missing_blocks(self@.len() + 1),
    {
        let covering: usize = self.footprint_after_next();
        let held: usize = self.block_table.len();
        if covering > held {
            covering - held
        } else {
            0
        }
    }

    /// Total blocks this sequence will hold after producing its next token
    /// (covering logical length `len() + 1`), independent of what it holds now.
    ///
    /// The scheduler packs these footprints into the pool to size the active set;
    /// it is the same value whether the sequence is running, freshly waiting, or
    /// a preempted sequence whose blocks were reclaimed.
    #[must_use]
    pub fn footprint_after_next(&self) -> (footprint: usize)
        ensures
            footprint == self@.footprint(),
            footprint == (self@.prompt.len() + self@.output.len()) / BLOCK_SIZE as nat + 1,
            footprint >= 1,
    {
        self.len() / BLOCK_SIZE + 1
    }

    /// Grow the block table to cover the sequence's current length, allocating
    /// from `alloc`. Returns the number of blocks added.
    ///
    /// All-or-nothing: if the pool cannot satisfy the full requirement the table
    /// is left untouched and [`AllocError::Exhausted`] is returned, so a caller
    /// deferring admission never leaks partially allocated blocks.
    pub fn reserve(&mut self, alloc: &mut BlockAllocator) -> (result: Result<usize, AllocError>)
        requires
            old(alloc).wf(),
        ensures
            final(alloc).wf(),
            ({
                let needed = old(self)@.missing_blocks(old(self)@.len());
                if needed <= old(alloc)@.free.len() {
                    &&& result == Ok::<usize, AllocError>(needed as usize)
                    &&& final(self)@ == old(self)@.mapped(old(alloc)@.next_blocks(needed))
                    &&& final(alloc)@ == old(alloc)@.taken(needed)
                } else {
                    &&& result == Err::<usize, AllocError>(AllocError::Exhausted)
                    &&& final(self)@ == old(self)@
                    &&& final(alloc)@ == old(alloc)@
                }
            }),
    {
        let needed: usize = self.blocks_needed(self.len());
        if alloc.free_blocks() < needed {
            return Err(AllocError::Exhausted);
        }
        let mut added: usize = 0;
        assert(old(alloc)@.next_blocks(0) =~= Seq::empty());
        assert(self@ =~= old(self)@.mapped(old(alloc)@.next_blocks(0)));
        while added < needed
            invariant
                added <= needed <= old(alloc)@.free.len(),
                alloc.wf(),
                alloc@ == old(alloc)@.taken(added as nat),
                alloc@.free == old(alloc)@.free.take(old(alloc)@.free.len() - added),
                self@ == old(self)@.mapped(old(alloc)@.next_blocks(added as nat)),
            decreases needed - added,
        {
            match alloc.allocate_block() {
                Err(error) => {
                    return Err(error);
                },
                Ok(block) => {
                    self.block_table.push(block);
                },
            }
            added = added + 1;
            assert(alloc@.free =~= old(alloc)@.free.take(old(alloc)@.free.len() - added));
            assert(self@ =~= old(self)@.mapped(old(alloc)@.next_blocks(added as nat)));
        }
        Ok(needed)
    }

    /// Map the complete blocks of the prompt that the table does not cover yet,
    /// sharing every block whose prefix is already cached and registering the
    /// others so that later sequences can share them. Returns the number of
    /// blocks shared.
    ///
    /// If the pool runs out, the blocks mapped so far stay in the table and
    /// [`AllocError::Exhausted`] is returned.
    pub fn share_prefix(&mut self, alloc: &mut BlockAllocator) -> (result: Result<
        usize,
        AllocError,
    >)
        requires
            old(alloc).wf(),
            room_to_share(old(alloc)@, old(self)@.unmapped_hashes()),
        ensures
            final(alloc).wf(),
            ({
                let sharing = share_blocks(old(alloc)@, old(self)@.unmapped_hashes());
                &&& final(self)@ == old(self)@.mapped(sharing.blocks)
                &&& final(alloc)@ == sharing.pool
                &&& if sharing.exhausted {
                    result == Err::<usize, AllocError>(AllocError::Exhausted)
                } else {
                    result == Ok::<usize, AllocError>(sharing.shared as usize) && result->Ok_0
                        == sharing.shared
                }
            }),
    {
        let hashes: Vec<BlockHash> = chained_block_hashes(self.prompt_tokens());
        let start: usize = self.block_table.len();
        let mut index: usize = start;
        let mut shared: usize = 0;
        let ghost todo = old(self)@.unmapped_hashes();
        proof {
            assert(todo.take(0) =~= Seq::empty());
            assert(self@ =~= old(self)@.mapped(Seq::empty()));
        }
        while index < hashes.len()
            invariant
                start == old(self)@.table.len(),
                start <= index,
                index <= hashes@.len() || index == start,
                hashes@ == block::prefix_hashes(old(self)@.prompt),
                todo == old(self)@.unmapped_hashes(),
                alloc.wf(),
                old(alloc).wf(),
                room_to_share(old(alloc)@, todo),
                ({
                    let sharing = share_blocks(old(alloc)@, todo.take(index - start));
                    &&& !sharing.exhausted
                    &&& self@ == old(self)@.mapped(sharing.blocks)
                    &&& alloc@ == sharing.pool
                    &&& shared == sharing.shared
                    &&& shared <= index - start
                }),
            decreases hashes@.len() - index,
        {
            let ghost done = todo.take(index - start);
            proof {
                lemma_share_room(old(alloc)@, todo, index - start);
                lemma_room_for_first(alloc@, todo.skip(index - start));
                assert(todo.take(index - start + 1).drop_last() =~= done);
                assert(todo[index - start] == hashes@[index as int]);
            }
            match alloc.allocate_shared(hashes[index]) {
                Err(error) => {
                    proof {
                        lemma_share_stuck(old(alloc)@, todo, index - start + 1);
                    }
                    return Err(error);
                },
                Ok((block, was_shared)) => {
                    self.block_table.push(block);
                    if was_shared {
                        shared = shared + 1;
                    }
                },
            }
            index = index + 1;
            assert(self@ =~= old(self)@.mapped(
                share_blocks(old(alloc)@, todo.take(index - start)).blocks,
            ));
        }
        assert(todo.take(index - start) =~= todo);
        Ok(shared)
    }

    /// Return all of this sequence's blocks to the allocator and clear the table.
    pub fn free_blocks(&mut self, alloc: &mut BlockAllocator)
        requires
            old(alloc).wf(),
            forall|i: int|
                0 <= i < old(self)@.table.len() ==> old(alloc)@.owns(#[trigger] old(self)@.table[i]),
        ensures
            final(alloc).wf(),
            final(self)@ == old(self)@.unmapped(),
            final(alloc)@ == old(alloc)@.released_all(old(self)@.table),
    {
        let mut index: usize = 0;
        let ghost table = self@.table;
        assert(table.take(0) =~= Seq::empty());
        while index < self.block_table.len()
            invariant
                *self == *old(self),
                table == self.block_table@,
                table == old(self)@.table,
                index <= table.len(),
                alloc.wf(),
                alloc@ == old(alloc)@.released_all(table.take(index as int)),
                alloc@.total() == old(alloc)@.total(),
                forall|i: int| 0 <= i < table.len() ==> old(alloc)@.owns(#[trigger] table[i]),
            decreases table.len() - index,
        {
            let block: PhysicalBlockId = self.block_table[index];
            proof {
                assert(old(alloc)@.owns(table[index as int]));
                alloc@.lemma_released(block);
                assert(table.take(index + 1).drop_last() =~= table.take(index as int));
            }
            alloc.free_block(block);
            index = index + 1;
        }
        assert(table.take(index as int) =~= table);
        self.block_table.clear();
        assert(self@ =~= old(self)@.unmapped());
    }
}

/// Mapping one block takes at most one reference more on the block cached for
/// its hash, and changes no other cached block's count.
pub proof fn lemma_share_step(pool: PoolView, hash: BlockHash, other: u64)
    requires
        pool.wf(),
        pool.sharers(hash.0) < u16::MAX,
    ensures
        pool.prefix.contains_key(hash.0) ==> pool.shared(pool.prefix[hash.0]).sharers(other)
            == pool.sharers(other) + if other == hash.0 {
            1nat
        } else {
            0nat
        },
        !pool.prefix.contains_key(hash.0) && pool.free.len() > 0 ==> pool.registered(hash).sharers(
            other,
        ) == pool.sharers(other) + if other == hash.0 {
            1nat
        } else {
            0nat
        },
{
    if pool.prefix.contains_key(hash.0) {
        if pool.prefix.contains_key(other) && other != hash.0 {
            assert(pool.hashes[pool.prefix[other].0 as int] == Some(BlockHash(other)));
            assert(pool.hashes[pool.prefix[hash.0].0 as int] == Some(BlockHash(hash.0)));
        }
    } else if pool.free.len() > 0 {
        pool.lemma_allocated();
        if pool.prefix.contains_key(other) && other != hash.0 {
            assert(pool.rc(pool.prefix[other]) > 0);
        }
    }
}

/// Room to share a run of blocks is room to share the first of them.
pub proof fn lemma_room_for_first(pool: PoolView, hashes: Seq<BlockHash>)
    requires
        room_to_share(pool, hashes),
        hashes.len() > 0,
    ensures
        pool.sharers(hashes[0].0) < u16::MAX,
{
    counting::lemma_count_contains(hashes, hashes[0]);
    assert(hashes.contains(hashes[0]));
    assert(BlockHash(hashes[0].0) == hashes[0]);
    assert(pool.sharers(hashes[0].0) + counting::count(hashes, BlockHash(hashes[0].0))
        <= u16::MAX);
}

/// While sharing is under way no reference count has overflowed, and there is
/// room for the blocks that are left.
pub proof fn lemma_share_room(pool: PoolView, hashes: Seq<BlockHash>, done: int)
    requires
        pool.wf(),
        room_to_share(pool, hashes),
        0 <= done <= hashes.len(),
    ensures
        share_blocks(pool, hashes.take(done)).pool.wf(),
        room_to_share(share_blocks(pool, hashes.take(done)).pool, hashes.skip(done)),
    decreases done,
{
    if done == 0 {
        assert(hashes.take(0) =~= Seq::empty());
        assert(hashes.skip(0) =~= hashes);
    } else {
        let hash = hashes[done - 1];
        lemma_share_room(pool, hashes, done - 1);
        assert(hashes.take(done).drop_last() =~= hashes.take(done - 1));
        assert(hashes.take(done).last() == hash);
        assert(hashes.skip(done - 1) =~= seq![hash] + hashes.skip(done));
        let before = share_blocks(pool, hashes.take(done - 1));
        let after = share_blocks(pool, hashes.take(done));
        lemma_room_for_first(before.pool, hashes.skip(done - 1));
        assert forall|h: u64| #[trigger]
            after.pool.sharers(h) + counting::count(hashes.skip(done), BlockHash(h)) <= u16::MAX by {
            counting::lemma_count_add(seq![hash], hashes.skip(done), BlockHash(h));
            assert(seq![hash].drop_last() =~= Seq::empty());
            assert(before.pool.sharers(h) + counting::count(hashes.skip(done - 1), BlockHash(h))
                <= u16::MAX);
            lemma_share_step(before.pool, hash, h);
        }
        if !before.exhausted {
            if before.pool.prefix.contains_key(hash.0) {
                before.pool.lemma_shared(before.pool.prefix[hash.0]);
            } else if before.pool.free.len() > 0 {
                before.pool.lemma_registered(hash);
            }
        }
    }
}

/// Sharing maps blocks of the pool only, leaves the pool well formed, and adds
/// to the count of a cached block no more than once for each time its hash
/// occurs.
pub proof fn lemma_share_growth(pool: PoolView, hashes: Seq<BlockHash>)
    requires
        pool.wf(),
        room_to_share(pool, hashes),
    ensures
        share_blocks(pool, hashes).pool.wf(),
        share_blocks(pool, hashes).pool.total() == pool.total(),
        forall|i: int|
            0 <= i < share_blocks(pool, hashes).blocks.len() ==> pool.owns(
                #[trigger] share_blocks(pool, hashes).blocks[i],
            ),
        forall|hash: u64| #[trigger]
            share_blocks(pool, hashes).pool.sharers(hash) <= pool.sharers(hash) + counting::count(
                hashes,
                BlockHash(hash),
            ),
    decreases hashes.len(),
{
    lemma_share_room(pool, hashes, hashes.len() as int);
    assert(hashes.take(hashes.len() as int) =~= hashes);
    if hashes.len() > 0 {
        let rest = hashes.drop_last();
        let hash = hashes.last();
        assert forall|h: u64| #[trigger]
            pool.sharers(h) + counting::count(rest, BlockHash(h)) <= u16::MAX by {
            assert(pool.sharers(h) + counting::count(hashes, BlockHash(h)) <= u16::MAX);
        }
        lemma_share_growth(pool, rest);
        let before = share_blocks(pool, rest);
        let after = share_blocks(pool, hashes);
        lemma_share_room(pool, hashes, hashes.len() - 1);
        assert(hashes.take(hashes.len() - 1) =~= rest);
        lemma_room_for_first(before.pool, hashes.skip(hashes.len() - 1));
        assert forall|h: u64| #[trigger]
            after.pool.sharers(h) <= pool.sharers(h) + counting::count(hashes, BlockHash(h)) by {
            assert(before.pool.sharers(h) <= pool.sharers(h) + counting::count(
                rest,
                BlockHash(h),
            ));
            lemma_share_step(before.pool, hash, h);
        }
        if !before.exhausted && !before.pool.prefix.contains_key(hash.0) && before.pool.free.len()
            > 0 {
            before.pool.lemma_allocated();
        }
        assert forall|i: int| 0 <= i < after.blocks.len() implies pool.owns(
            #[trigger] after.blocks[i],
        ) by {
            if i < before.blocks.len() {
                assert(pool.owns(before.blocks[i]));
            }
        }
    }
}

/// Once the pool is exhausted, sharing maps no further block.
pub proof fn lemma_share_stuck(pool: PoolView, hashes: Seq<BlockHash>, done: int)
    requires
        0 <= done <= hashes.len(),
        share_blocks(pool, hashes.take(done)).exhausted,
    ensures
        share_blocks(pool, hashes) == share_blocks(pool, hashes.take(done)),
    decreases hashes.len() - done,
{
    if done == hashes.len() {
        assert(hashes.take(done) =~= hashes);
    } else {
        assert(hashes.take(done + 1).drop_last() =~= hashes.take(done));
        lemma_share_stuck(pool, hashes, done + 1);
    }
}

} // verus!
