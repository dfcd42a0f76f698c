//! The single-threaded, synchronous engine step loop.
//!
//! The [`Engine`] owns all authoritative serving state (the waiting queue, the
//! running set, the [`BlockAllocator`], the injected runtime, and the scheduling
//! policy) and advances it one deterministic step at a time:
//! `schedule -> preempt -> admit -> execute -> reconcile`. There is no shared
//! mutable state and no locking; determinism is a feature, so the loop is
//! replayable from a script.
pub mod model;
pub mod turns;
pub mod upkeep;

use std::collections::{HashSet, VecDeque};
use std::time::Instant;
use vstd::prelude::*;

use crate::block::{AllocError, BlockAllocator};
use crate::clock::now;
use crate::ids::{SeqId, TokenId};
use crate::metrics::{self, bump, EngineMetrics};
use crate::runtime::{ModelRuntime, RuntimeError};
use crate::scheduler::{self, PlanView, SchedulerPolicy, StepPlan};
use crate::sequence::{self, SeqState, SeqView, Sequence};
use model::{Ask, EngineState, EngineView, Progress, TraceView, Turn};

verus! {

broadcast use vstd::std_specs::hash::group_hash_axioms;

/// Engine configuration knobs.
#[derive(Debug, Clone, Copy)]
pub struct EngineConfig {
    /// Token that ends generation when produced. It is not appended to output.
    pub eos_token: Option<TokenId>,
    /// Preemption recovery threshold: a victim with `len() <= swap_threshold_tokens`
    /// is recovered by **recompute**, a longer one by **swap**. The block lifecycle
    /// is identical for both (blocks are reclaimed and rebuilt on resume); the
    /// distinction drives the recovery accounting that a KV runtime turns into
    /// recompute-vs-copy. Defaults to [`usize::MAX`] (always recompute).
    pub swap_threshold_tokens: usize,
}

impl Default for EngineConfig {
    /// No end-of-sequence token; always recompute.
    fn default() -> (config: Self)
        ensures
            config == (EngineConfig { eos_token: None, swap_threshold_tokens: usize::MAX }),
    {
        EngineConfig { eos_token: None, swap_threshold_tokens: usize::MAX }
    }
}

/// Errors raised while stepping the engine.
#[derive(Debug, Clone, Copy, PartialEq, Eq, Structural)]
pub enum EngineError {
    /// The runtime failed to produce a token.
    Runtime(RuntimeError),
    /// The KV pool was exhausted mid-step. With a correct plan this cannot
    /// happen; it signals a scheduler bug.
    Alloc(AllocError),
    /// A waiting sequence's footprint exceeds the whole pool, so it can never be
    /// scheduled; the engine would otherwise spin forever making no progress.
    Unschedulable { needed: usize, capacity: usize },
}

impl From<RuntimeError> for EngineError {
    fn from(error: RuntimeError) -> (result: Self) {
        EngineError::Runtime(error)
    }
}

impl vstd::std_specs::convert::FromSpecImpl<RuntimeError> for EngineError {
    open spec fn obeys_from_spec() -> bool {
        true
    }

    open spec fn from_spec(error: RuntimeError) -> Self {
        EngineError::Runtime(error)
    }
}

impl From<AllocError> for EngineError {
    fn from(error: AllocError) -> (result: Self) {
        EngineError::Alloc(error)
    }
}

impl vstd::std_specs::convert::FromSpecImpl<AllocError> for EngineError {
    open spec fn obeys_from_spec() -> bool {
        true
    }

    open spec fn from_spec(error: AllocError) -> Self {
        EngineError::Alloc(error)
    }
}

/// A record of what one step did, for tracing and tests.
#[derive(Debug, Clone, Default, PartialEq, Eq)]
pub struct StepTrace {
    /// Step index, starting at 0.
    pub step: u64,
    /// Sequences admitted this step (fresh prefill or resumed preemption).
    pub admitted: Vec<SeqId>,
    /// Sequences decoded this step.
    pub decoded: Vec<SeqId>,
    /// Sequences preempted this step.
    pub preempted: Vec<SeqId>,
    /// Sequences that finished this step.
    pub finished: Vec<SeqId>,
    /// Running-set size after reconciliation.
    pub running_after: usize,
    /// Free blocks after reconciliation.
    pub free_blocks_after: usize,
}

impl View for StepTrace {
    type V = TraceView;

    open spec fn view(&self) -> TraceView {
        TraceView {
            step: self.step,
            admitted: self.admitted@,
            decoded: self.decoded@,
            preempted: self.preempted@,
            finished: self.finished@,
            running_after: self.running_after as nat,
            free_blocks_after: self.free_blocks_after as nat,
        }
    }
}

/// The serving engine: owns all authoritative state and drives the step loop.
#[derive(Debug)]
pub struct Engine<R, P> {
    waiting: VecDeque<Sequence>,
    running: Vec<Sequence>,
    finished: Vec<Sequence>,
    allocator: BlockAllocator,
    runtime: R,
    policy: P,
    config: EngineConfig,
    metrics: EngineMetrics,
    step_count: u64,
}

impl<R, P> View for Engine<R, P> {
    type V = EngineState<R, P>;

    closed spec fn view(&self) -> EngineState<R, P> {
        EngineState {
            core: EngineView {
                waiting: sequence::seq_views(self.waiting@),
                running: sequence::seq_views(self.running@),
                finished: sequence::seq_views(self.finished@),
                pool: self.allocator@,
                config: self.config,
                metrics: self.metrics,
                step_count: self.step_count,
            },
            runtime: self.runtime,
            policy: self.policy,
        }
    }
}

impl<R, P> Engine<R, P> where R: ModelRuntime, P: SchedulerPolicy {
    /// Create an engine over a KV pool, runtime, and scheduling policy.
    pub fn new(allocator: BlockAllocator, runtime: R, policy: P, config: EngineConfig) -> (engine:
        Self)
        ensures
            engine@ == (EngineState {
                core: EngineView::fresh(allocator@, config),
                runtime,
                policy,
            }),
    {
        let engine = Engine {
            waiting: VecDeque::new(),
            running: Vec::new(),
            finished: Vec::new(),
            allocator,
            runtime,
            policy,
            config,
            metrics: EngineMetrics::default(),
            step_count: 0,
        };
        assert(engine@.core =~= EngineView::fresh(allocator@, config));
        engine
    }

    /// Queue a sequence for admission.
    pub fn submit(&mut self, seq: Sequence)
        ensures
            final(self)@ == (EngineState { core: old(self)@.core.submitted(seq@), ..old(self)@ }),
            final(self)@.core.waiting == old(self)@.core.waiting.push(seq@),
    {
        self.waiting.push_back(seq);
        assert(self@.core =~= old(self)@.core.submitted(seq@));
    }

    /// True when no work remains (nothing waiting or running).
    #[must_use]
    pub fn is_idle(&self) -> (idle: bool)
        ensures
            idle == self@.core.idle(),
            idle == (self@.core.waiting.len() == 0 && self@.core.running.len() == 0),
    {
        self.waiting.len() == 0 && self.running.len() == 0
    }

    /// Snapshot of cumulative metrics.
    #[must_use]
    pub fn metrics(&self) -> (metrics: EngineMetrics)
        ensures
            metrics == self@.core.metrics,
    {
        self.metrics
    }

    /// Sequences that have completed, in completion order.
    #[must_use]
    pub fn finished(&self) -> (finished: &[Sequence])
        ensures
            sequence::seq_views(finished@) == self@.core.finished,
    {
        self.finished.as_slice()
    }

    /// Number of running sequences.
    #[must_use]
    pub fn running_len(&self) -> (len: usize)
        ensures
            len == self@.core.running.len(),
    {
        self.running.len()
    }

    /// Number of waiting sequences.
    #[must_use]
    pub fn waiting_len(&self) -> (len: usize)
        ensures
            len == self@.core.waiting.len(),
    {
        self.waiting.len()
    }

    /// Free blocks currently available in the KV pool.
    #[must_use]
    pub fn free_blocks(&self) -> (free: usize)
        ensures
            free == self@.core.pool.free.len(),
    {
        self.allocator.free_blocks()
    }
}

/// Collects ids for lookup.
fn id_set(ids: &Vec<SeqId>) -> (set: HashSet<u64>)
    ensures
        forall|id: SeqId| #[trigger] ids@.contains(id) <==> set@.contains(id.0),
{
    let mut set: HashSet<u64> = HashSet::new();
    let mut index: usize = 0;
    while index < ids.len()
        invariant
            index <= ids@.len(),
            forall|raw: u64| #[trigger]
                set@.contains(raw) <==> exists|i: int| 0 <= i < index && ids@[i] == SeqId(raw),
        decreases ids@.len() - index,
    {
        let raw: u64 = ids[index].0;
        let ghost before = set@;
        set.insert(raw);
        proof {
            assert forall|other: u64| #[trigger] set@.contains(other) <==> exists|i: int|
                0 <= i < index + 1 && ids@[i] == SeqId(other) by {
                assert(ids@[index as int] == SeqId(raw));
                if before.contains(other) {
                    let i = choose|i: int| 0 <= i < index && ids@[i] == SeqId(other);
                    assert(0 <= i < index + 1 && ids@[i] == SeqId(other));
                }
            }
        }
        index = index + 1;
    }
    proof {
        assert forall|id: SeqId| #[trigger] ids@.contains(id) <==> set@.contains(id.0) by {
            assert(SeqId(id.0) == id);
            if ids@.contains(id) {
                let i = choose|i: int| 0 <= i < ids@.len() && ids@[i] == id;
                assert(0 <= i < index && ids@[i] == SeqId(id.0));
            }
        }
    }
    set
}

/// Filtering one item more keeps it or not.
proof fn lemma_filter_next<T>(items: Seq<T>, keep: spec_fn(T) -> bool, n: int)
    requires
        0 <= n < items.len(),
    ensures
        items.take(n + 1).filter(keep) == if keep(items[n]) {
            items.take(n).filter(keep).push(items[n])
        } else {
            items.take(n).filter(keep)
        },
{
    reveal(Seq::filter);
    assert(items.take(n + 1).drop_last() =~= items.take(n));
}

/// Splits sequences into those that `ids` names and the others, in order.
fn split_by_id(seqs: Vec<Sequence>, ids: &Vec<SeqId>) -> (parts: (Vec<Sequence>, Vec<Sequence>))
    ensures
        sequence::seq_views(parts.0@) == sequence::seq_views(seqs@).filter(
            model::named_in(ids@),
        ),
        sequence::seq_views(parts.1@) == sequence::seq_views(seqs@).filter(
            model::not_named_in(ids@),
        ),
{
    let ghost views = sequence::seq_views(seqs@);
    let set: HashSet<u64> = id_set(ids);
    let mut named: Vec<Sequence> = Vec::new();
    let mut others: Vec<Sequence> = Vec::new();
    proof {
        reveal(Seq::filter);
        assert(views.take(0) =~= Seq::empty());
    }
    for seq in it: seqs
        invariant
            it.seq() == seqs@,
            views == sequence::seq_views(seqs@),
            forall|id: SeqId| #[trigger] ids@.contains(id) <==> set@.contains(id.0),
            sequence::seq_views(named@) == views.take(it.index()).filter(model::named_in(ids@)),
            sequence::seq_views(others@) == views.take(it.index()).filter(
                model::not_named_in(ids@),
            ),
    {
        proof {
            assert(views[it.index()] == seq@);
            lemma_filter_next(views, model::named_in(ids@), it.index());
            lemma_filter_next(views, model::not_named_in(ids@), it.index());
        }
        let ghost named_before = named@;
        let ghost others_before = others@;
        if set.contains(&seq.id().0) {
            named.push(seq);
        } else {
            others.push(seq);
        }
        assert(sequence::seq_views(named_before.push(seq)) =~= sequence::seq_views(
            named_before,
        ).push(seq@));
        assert(sequence::seq_views(others_before.push(seq)) =~= sequence::seq_views(
            others_before,
        ).push(seq@));
    }
    assert(views.take(views.len() as int) =~= views);
    (named, others)
}

/// Views of one sequence more.
proof fn lemma_views_push(seqs: Seq<Sequence>, seq: Sequence)
    ensures
        sequence::seq_views(seqs.push(seq)) == sequence::seq_views(seqs).push(seq@),
{
    assert(sequence::seq_views(seqs.push(seq)) =~= sequence::seq_views(seqs).push(seq@));
}

/// Ids of one sequence more.
proof fn lemma_ids_next(seqs: Seq<SeqView>, n: int)
    requires
        0 <= n < seqs.len(),
    ensures
        model::ids_of(seqs.take(n + 1)) == model::ids_of(seqs.take(n)).push(seqs[n].id),
{
    assert(model::ids_of(seqs.take(n + 1)) =~= model::ids_of(seqs.take(n)).push(seqs[n].id));
}

impl<R, P> Engine<R, P> where R: ModelRuntime, P: SchedulerPolicy {
    /// Evict the victim sequences: reclaim their blocks and return them to the
    /// waiting queue as `Preempted`, so a later step can resume them.
    fn preempt(&mut self, victims: &Vec<SeqId>) -> (ids: Vec<SeqId>)
        requires
            old(self)@.core.wf(),
        ensures
            final(self)@ == (EngineState {
                core: old(self)@.core.after_preempt(victims@),
                ..old(self)@
            }),
            ids@ == model::ids_of(old(self)@.core.evicted(victims@)),
    {
        let ghost core = self@.core;
        let ghost evicted_views = core.evicted(victims@);
        let ghost short = model::not_longer_than(self.config.swap_threshold_tokens);
        let mut running: Vec<Sequence> = Vec::new();
        std::mem::swap(&mut running, &mut self.running);
        let (evicted, kept) = split_by_id(running, victims);
        self.running = kept;
        let evictions: usize = evicted.len();
        let mut recomputed: usize = 0;
        let mut ids: Vec<SeqId> = Vec::new();
        proof {
            upkeep::lemma_evicted_tables(core, victims@);
            reveal(Seq::filter);
            assert(evicted_views.take(0) =~= Seq::empty());
            assert(self@.core.waiting =~= evicted_views.take(0).map_values(
                model::to_preempted(),
            ).reverse() + core.waiting);
        }
        for seq in it: evicted
            invariant
                it.seq() == evicted@,
                core == old(self)@.core,
                evicted_views == core.evicted(victims@),
                evicted_views == sequence::seq_views(evicted@),
                evicted_views.len() == evictions,
                short == model::not_longer_than(core.config.swap_threshold_tokens),
                core.pool.wf(),
                model::tables_in(evicted_views, core.pool),
                self.allocator@ == model::release_seqs(core.pool, evicted_views.take(it.index())),
                self@ == (EngineState {
                    core: EngineView {
                        running: core.running.filter(model::not_named_in(victims@)),
                        waiting: evicted_views.take(it.index()).map_values(
                            model::to_preempted(),
                        ).reverse() + core.waiting,
                        pool: self@.core.pool,
                        ..core
                    },
                    ..old(self)@
                }),
                ids@ == model::ids_of(evicted_views.take(it.index())),
                recomputed == evicted_views.take(it.index()).filter(short).len(),
                recomputed <= it.index(),
        {
            let ghost n = it.index();
            let mut seq: Sequence = seq;
            proof {
                assert(evicted_views[n] == seq@);
                assert forall|i: int| 0 <= i < n implies model::table_in(
                    #[trigger] evicted_views.take(n)[i],
                    core.pool,
                ) by {
                    assert(model::table_in(evicted_views[i], core.pool));
                }
                upkeep::lemma_release_seqs(core.pool, evicted_views.take(n));
                assert(model::table_in(evicted_views[n], core.pool));
                assert(evicted_views.take(n + 1).drop_last() =~= evicted_views.take(n));
                lemma_filter_next(evicted_views, short, n);
                lemma_ids_next(evicted_views, n);
            }
            if seq.len() <= self.config.swap_threshold_tokens {
                recomputed = recomputed + 1;
            }
            let ghost waiting_before = self.waiting@;
            seq.free_blocks(&mut self.allocator);
            seq.set_state(SeqState::Preempted);
            ids.push(seq.id());
            self.waiting.push_front(seq);
            proof {
                assert(sequence::seq_views(seq![seq] + waiting_before) =~= seq![seq@]
                    + sequence::seq_views(waiting_before));
                assert(seq@ == model::to_preempted()(evicted_views[n]));
                assert(evicted_views.take(n + 1).map_values(model::to_preempted()).reverse()
                    =~= seq![seq@] + evicted_views.take(n).map_values(
                    model::to_preempted(),
                ).reverse());
                assert(self@.core.waiting =~= evicted_views.take(n + 1).map_values(
                    model::to_preempted(),
                ).reverse() + core.waiting);
            }
        }
        assert(evicted_views.take(evicted_views.len() as int) =~= evicted_views);
        self.metrics.preemptions = bump(self.metrics.preemptions, evictions);
        self.metrics.preemptions_recompute = bump(self.metrics.preemptions_recompute, recomputed);
        self.metrics.preemptions_swap = bump(
            self.metrics.preemptions_swap,
            evictions - recomputed,
        );
        ids
    }

    /// Move admitted sequences from the waiting queue into the running set,
    /// preserving queue order for those left behind.
    fn admit_planned(&mut self, planned: &Vec<SeqId>) -> (ids: Vec<SeqId>)
        ensures
            final(self)@ == (EngineState {
                core: old(self)@.core.after_admit(planned@),
                ..old(self)@
            }),
            ids@ == model::ids_of(old(self)@.core.admissible(planned@)),
    {
        let ghost core = self@.core;
        let ghost named = model::named_in(planned@);
        let ghost others = model::not_named_in(planned@);
        let set: HashSet<u64> = id_set(planned);
        let mut queue: VecDeque<Sequence> = VecDeque::new();
        std::mem::swap(&mut queue, &mut self.waiting);
        let ghost all = queue@;
        let mut ids: Vec<SeqId> = Vec::new();
        let ghost mut n: int = 0;
        proof {
            reveal(Seq::filter);
            assert(core.waiting.take(0) =~= Seq::empty());
            assert(all.skip(0) =~= all);
            assert(self@.core.waiting =~= core.waiting.take(0).filter(others));
            assert(self@.core.running =~= core.running + core.waiting.take(0).filter(
                named,
            ).map_values(model::to_running()));
        }
        while queue.len() > 0
            invariant
                core == old(self)@.core,
                named == model::named_in(planned@),
                others == model::not_named_in(planned@),
                core.waiting == sequence::seq_views(all),
                forall|id: SeqId| #[trigger] planned@.contains(id) <==> set@.contains(id.0),
                0 <= n <= all.len(),
                queue@ == all.skip(n),
                self@ == (EngineState {
                    core: EngineView {
                        waiting: core.waiting.take(n).filter(others),
                        running: core.running + core.waiting.take(n).filter(named).map_values(
                            model::to_running(),
                        ),
                        ..core
                    },
                    ..old(self)@
                }),
                ids@ == model::ids_of(core.waiting.take(n).filter(named)),
            decreases queue@.len(),
        {
            let ghost before = core.waiting.take(n).filter(named);
            let ghost running_before = self.running@;
            let ghost waiting_before = self.waiting@;
            proof {
                lemma_filter_next(core.waiting, named, n);
                lemma_filter_next(core.waiting, others, n);
                assert(all.skip(n).subrange(1, all.skip(n).len() as int) =~= all.skip(n + 1));
            }
            if let Some(seq) = queue.pop_front() {
                let mut seq: Sequence = seq;
                assert(core.waiting[n] == seq@);
                let ghost item = core.waiting[n];
                if set.contains(&seq.id().0) {
                    seq.set_state(SeqState::Running);
                    ids.push(seq.id());
                    self.running.push(seq);
                    proof {
                        lemma_views_push(running_before, seq);
                        assert(before.push(item).map_values(model::to_running())
                            =~= before.map_values(model::to_running()).push(seq@));
                        assert(model::ids_of(before.push(item)) =~= model::ids_of(before).push(
                            item.id,
                        ));
                        assert(self@.core.running =~= core.running + before.push(
                            item,
                        ).map_values(model::to_running()));
                    }
                } else {
                    self.waiting.push_back(seq);
                    proof {
                        lemma_views_push(waiting_before, seq);
                    }
                }
            }
            proof {
                n = n + 1;
            }
        }
        assert(core.waiting.take(n) =~= core.waiting);
        ids
    }

    /// Most recent token of running sequence `idx` (its last output token).
    fn last_token(&self, idx: usize) -> (token: TokenId)
        requires
            idx < self@.core.running.len(),
            self@.core.running[idx as int].output.len() > 0,
        ensures
            token == self@.core.running[idx as int].output.last(),
    {
        let output: &[TokenId] = self.running[idx].output_tokens();
        output[output.len() - 1]
    }

    /// Apply a produced token to running sequence `idx`: detect EOS / max-tokens,
    /// append, and grow the block table for the new token.
    fn apply_token(&mut self, idx: usize, token: TokenId) -> (result: Result<(), AllocError>)
        requires
            idx < old(self)@.core.running.len(),
            old(self)@.core.pool.wf(),
        ensures
            exists|at: Instant|
                {
                    let after = #[trigger] old(self)@.core.token_applied(idx as int, token, at);
                    &&& final(self)@ == old(self)@.with_core(after.engine)
                    &&& after.error == match result {
                        Ok(()) => None,
                        Err(error) => Some(EngineError::Alloc(error)),
                    }
                },
    {
        let ghost core = self@.core;
        let finishes: bool = match self.config.eos_token {
            Some(eos) => eos == token,
            None => false,
        };
        if finishes {
            self.running[idx].set_state(SeqState::Finished);
            assert(self@.core.running =~= core.token_applied(
                idx as int,
                token,
                arbitrary(),
            ).engine.running);
            return Ok(());
        }
        let at: Instant = now();
        let ghost after = core.token_applied(idx as int, token, at);
        self.running[idx].push_output_at(token, at);
        match self.running[idx].reserve(&mut self.allocator) {
            Err(error) => {
                assert(self@.core.running =~= after.engine.running);
                return Err(error);
            },
            Ok(_) => {},
        }
        self.metrics.tokens_generated = bump(self.metrics.tokens_generated, 1);
        let limit: usize = self.running[idx].sampling().max_tokens;
        if limit > 0 && self.running[idx].output_tokens().len() >= limit {
            self.running[idx].set_state(SeqState::Finished);
        }
        assert(self@.core.running =~= after.engine.running);
        Ok(())
    }

    /// What running sequence `idx` asks of the runtime under the plan whose
    /// admissions and decodes are given.
    fn ask(
        &self,
        idx: usize,
        prefill: &HashSet<u64>,
        decode: &HashSet<u64>,
        Ghost(plan): Ghost<PlanView>,
    ) -> (ask: Ask)
        requires
            idx < self@.core.running.len(),
            forall|id: SeqId| #[trigger] plan.prefill.contains(id) <==> prefill@.contains(id.0),
            forall|id: SeqId| #[trigger] plan.decode.contains(id) <==> decode@.contains(id.0),
        ensures
            ask == self@.core.ask(plan, idx as int),
    {
        let raw: u64 = self.running[idx].id().0;
        if prefill.contains(&raw) {
            if self.running[idx].output_tokens().len() == 0 {
                Ask::Prefill
            } else {
                Ask::Resume
            }
        } else if decode.contains(&raw) {
            Ask::Decode
        } else {
            Ask::Idle
        }
    }

    /// Let running sequence `idx` take its turn. A fresh admission shares any
    /// cached prompt-prefix blocks, then prefills its prompt and emits the first
    /// token. A resumed sequence, whose blocks were reclaimed, decodes like any
    /// other: that rebuilds them and continues generation exactly where it left
    /// off.
    fn take_turn(&mut self, idx: usize, ask: Ask) -> (result: Result<(), EngineError>)
        requires
            idx < old(self)@.core.running.len(),
            old(self)@.core.pool.wf(),
            ask is Prefill ==> sequence::room_to_share(
                old(self)@.core.pool,
                old(self)@.core.running[idx as int].unmapped_hashes(),
            ),
            ask is Resume || ask is Decode ==> old(self)@.core.running[idx as int].output.len() > 0,
        ensures
            exists|turn: Turn| #[trigger]
                old(self)@.turns_to(ask, idx as int, turn, model::error_of(result), final(self)@),
    {
        let ghost core = self@.core;
        let ghost at: Instant = arbitrary();
        let id: SeqId = self.running[idx].id();
        let reply: Result<TokenId, RuntimeError> = match ask {
            Ask::Idle => {
                assert(old(self)@.turns_to(
                    ask,
                    idx as int,
                    (Turn { reply: arbitrary(), at }),
                    None,
                    self@,
                ));
                return Ok(());
            },
            Ask::Prefill => {
                match self.running[idx].share_prefix(&mut self.allocator) {
                    Err(error) => {
                        assert(self@.core.running =~= core.prefix_mapped(
                            idx as int,
                        ).engine.running);
                        assert(old(self)@.turns_to(
                            ask,
                            idx as int,
                            (Turn { reply: arbitrary(), at }),
                            Some(EngineError::Alloc(error)),
                            self@,
                        ));
                        return Err(EngineError::from(error));
                    },
                    Ok(shared) => {
                        self.metrics.blocks_shared = bump(self.metrics.blocks_shared, shared);
                    },
                }
                assert(self@.core =~= core.prefix_mapped(idx as int).engine);
                self.runtime.prefill(id, self.running[idx].prompt_tokens())
            },
            Ask::Resume | Ask::Decode => {
                let last: TokenId = self.last_token(idx);
                self.runtime.decode(id, last)
            },
        };
        match reply {
            Err(error) => {
                assert(old(self)@.turns_to(
                    ask,
                    idx as int,
                    (Turn { reply, at }),
                    Some(EngineError::Runtime(error)),
                    self@,
                ));
                Err(EngineError::from(error))
            },
            Ok(token) => {
                let ghost asked = self@;
                let applied: Result<(), AllocError> = self.apply_token(idx, token);
                let ghost at = choose|at: Instant|
                    {
                        let after = #[trigger] asked.core.token_applied(idx as int, token, at);
                        &&& self@ == asked.with_core(after.engine)
                        &&& after.error == match applied {
                            Ok(()) => None,
                            Err(error) => Some(EngineError::Alloc(error)),
                        }
                    };
                match applied {
                    Err(error) => {
                        assert(old(self)@.turns_to(
                            ask,
                            idx as int,
                            (Turn { reply, at }),
                            Some(EngineError::Alloc(error)),
                            self@,
                        ));
                        Err(EngineError::from(error))
                    },
                    Ok(()) => {
                        assert(old(self)@.turns_to(
                            ask,
                            idx as int,
                            (Turn { reply, at }),
                            None,
                            self@,
                        ));
                        Ok(())
                    },
                }
            },
        }
    }

    /// Run prefill for fresh admissions, decode for resumed and running ones.
    fn execute(&mut self, plan: &StepPlan) -> (result: Result<Vec<SeqId>, EngineError>)
        requires
            old(self)@.core.mid_step(plan@, 0),
        ensures
            exists|turns: Seq<Turn>, states: Seq<R>| #[trigger]
                old(self)@.executes(
                    plan@,
                    turns,
                    states,
                    model::error_of(result),
                    final(self)@,
                ),
            result is Ok ==> result->Ok_0@ == old(self)@.core.decoded(plan@),
    {
        let prefill: HashSet<u64> = id_set(&plan.prefill);
        let decode: HashSet<u64> = id_set(&plan.decode);
        let mut decoded: Vec<SeqId> = Vec::new();
        let mut idx: usize = 0;
        let ghost core = self@.core;
        let ghost len = core.running.len();
        let ghost keep = core.decodes_at(plan@);
        let ghost mut turns: Seq<Turn> = Seq::empty();
        let ghost mut states: Seq<R> = seq![self@.runtime];
        assert(core.running.take(0) =~= Seq::empty());
        while idx < self.running.len()
            invariant
                core == old(self)@.core,
                len == core.running.len(),
                keep == core.decodes_at(plan@),
                forall|id: SeqId| #[trigger]
                    plan@.prefill.contains(id) <==> prefill@.contains(id.0),
                forall|id: SeqId| #[trigger]
                    plan@.decode.contains(id) <==> decode@.contains(id.0),
                self.running@.len() == self@.core.running.len() == len,
                idx <= len,
                turns.len() == idx,
                core.executed(plan@, turns, idx as nat) == (Progress {
                    engine: self@.core,
                    error: None,
                }),
                core.served(plan@, turns, idx as nat, states),
                states[0] == old(self)@.runtime,
                states.last() == self@.runtime,
                self@.policy == old(self)@.policy,
                self@.core.mid_step(plan@, idx as int),
                decoded@ == scheduler::ids_where(core.running.take(idx as int), keep),
            decreases len - idx,
        {
            let ghost before = self@;
            proof {
                turns::lemma_executed_frame(core, plan@, turns, idx as nat);
                assert(before.core.running[idx as int] == core.running[idx as int]);
                assert(before.core.ask(plan@, idx as int) == core.ask(plan@, idx as int));
                assert(core.running.take(idx + 1).drop_last() =~= core.running.take(idx as int));
            }
            let ask: Ask = self.ask(idx, &prefill, &decode, Ghost(plan@));
            proof {
                if ask is Prefill {
                    upkeep::lemma_prefix_mapped(before.core, plan@, idx as int);
                }
            }
            let outcome: Result<(), EngineError> = self.take_turn(idx, ask);
            let ghost turn = choose|turn: Turn| #[trigger]
                before.turns_to(ask, idx as int, turn, model::error_of(outcome), self@);
            proof {
                upkeep::lemma_turn_taken(before.core, plan@, idx as int, turn);
                turns::lemma_served_push(core, plan@, turns, states, turn, self@.runtime);
                turns = turns.push(turn);
                states = states.push(self@.runtime);
                turns::lemma_executed_frame(core, plan@, turns, (idx + 1) as nat);
            }
            match outcome {
                Err(error) => {
                    proof {
                        let all = turns::lemma_executed_stuck(
                            core,
                            plan@,
                            turns,
                            (idx + 1) as nat,
                            len,
                            states,
                        );
                        assert(old(self)@.executes(plan@, turns, all, Some(error), self@));
                    }
                    return Err(error);
                },
                Ok(()) => {},
            }
            assert(self@.core.running[idx as int].id == core.running[idx as int].id);
            assert(keep(idx as int) == (ask is Decode));
            match ask {
                Ask::Decode => {
                    decoded.push(self.running[idx].id());
                },
                _ => {},
            }
            idx = idx + 1;
        }
        proof {
            assert(core.running.take(idx as int) =~= core.running);
            assert(old(self)@.executes(plan@, turns, states, None, self@));
        }
        Ok(decoded)
    }

    /// Reclaim the blocks of finished sequences, preserving running-set order.
    fn reconcile(&mut self) -> (ids: Vec<SeqId>)
        requires
            old(self)@.core.wf(),
        ensures
            final(self)@ == old(self)@.with_core(old(self)@.core.reconciled()),
            ids@ == model::ids_of(old(self)@.core.running.filter(model::is_done())),
    {
        let ghost core = self@.core;
        let ghost done_views = core.running.filter(model::is_done());
        let mut running: Vec<Sequence> = Vec::new();
        std::mem::swap(&mut running, &mut self.running);
        let (done, still) = split_done(running);
        self.running = still;
        let mut ids: Vec<SeqId> = Vec::new();
        proof {
            upkeep::lemma_done_tables(core);
            assert(done_views.take(0) =~= Seq::empty());
            assert(self@.core.finished =~= core.finished + done_views.take(0).map_values(
                model::to_unmapped(),
            ));
        }
        for seq in it: done
            invariant
                it.seq() == done@,
                core == old(self)@.core,
                done_views == core.running.filter(model::is_done()),
                done_views == sequence::seq_views(done@),
                core.pool.wf(),
                model::tables_in(done_views, core.pool),
                self.allocator@ == model::release_seqs(core.pool, done_views.take(it.index())),
                self@ == old(self)@.with_core(
                    (EngineView {
                        running: core.running.filter(model::is_not_done()),
                        finished: core.finished + done_views.take(it.index()).map_values(
                            model::to_unmapped(),
                        ),
                        pool: self@.core.pool,
                        ..core
                    }),
                ),
                ids@ == model::ids_of(done_views.take(it.index())),
        {
            let ghost n = it.index();
            let mut seq: Sequence = seq;
            proof {
                assert(done_views[n] == seq@);
                assert forall|i: int| 0 <= i < n implies model::table_in(
                    #[trigger] done_views.take(n)[i],
                    core.pool,
                ) by {
                    assert(model::table_in(done_views[i], core.pool));
                }
                upkeep::lemma_release_seqs(core.pool, done_views.take(n));
                assert(model::table_in(done_views[n], core.pool));
                assert(done_views.take(n + 1).drop_last() =~= done_views.take(n));
                lemma_ids_next(done_views, n);
            }
            let ghost finished_before = self.finished@;
            seq.free_blocks(&mut self.allocator);
            ids.push(seq.id());
            self.finished.push(seq);
            proof {
                lemma_views_push(finished_before, seq);
                assert(self@.core.finished =~= core.finished + done_views.take(
                    n + 1,
                ).map_values(model::to_unmapped()));
            }
        }
        assert(done_views.take(done_views.len() as int) =~= done_views);
        ids
    }

    /// Blocks that a waiting sequence needs and the pool does not have.
    fn unmet_need(&self) -> (needed: usize)
        requires
            self@.core.waiting.len() > 0,
            self@.core.pool.wf(),
        ensures
            needed == model::unschedulable_need(self@.core.waiting, self@.core.pool.total()),
    {
        match smallest_footprint_above(&self.waiting, self.allocator.total_blocks()) {
            Some(needed) => needed,
            None => match smallest_footprint_above(&self.waiting, 0) {
                Some(needed) => needed,
                None => 0,
            },
        }
    }

    /// Apply the plan to the queues: evict, then move admissions over and count
    /// them. Victims' blocks are freed first so admission and growth always fit
    /// the pool.
    /// Returns the ids of the admitted and of the preempted sequences.
    fn arrange(&mut self, plan: &StepPlan) -> (ids: (Vec<SeqId>, Vec<SeqId>))
        requires
            old(self)@.core.wf(),
        ensures
            final(self)@ == old(self)@.with_core(old(self)@.core.arranged(plan@)),
            ids.0@ == model::ids_of(
                old(self)@.core.after_preempt(plan@.preempt).admissible(plan@.prefill),
            ),
            ids.1@ == model::ids_of(old(self)@.core.evicted(plan@.preempt)),
    {
        let preempted: Vec<SeqId> = self.preempt(&plan.preempt);
        let admitted: Vec<SeqId> = self.admit_planned(&plan.prefill);
        self.metrics.sequences_admitted = bump(
            self.metrics.sequences_admitted,
            admitted.len(),
        );
        (admitted, preempted)
    }

    /// Close the step: reclaim what finished, count it and the step, and record
    /// what happened.
    fn conclude(
        &mut self,
        admitted: Vec<SeqId>,
        decoded: Vec<SeqId>,
        preempted: Vec<SeqId>,
    ) -> (trace: StepTrace)
        requires
            old(self)@.core.wf(),
        ensures
            final(self)@ == old(self)@.with_core(old(self)@.core.concluded()),
            trace@ == (TraceView {
                step: old(self)@.core.step_count,
                admitted: admitted@,
                decoded: decoded@,
                preempted: preempted@,
                finished: model::ids_of(old(self)@.core.running.filter(model::is_done())),
                running_after: final(self)@.core.running.len(),
                free_blocks_after: final(self)@.core.pool.free.len(),
            }),
    {
        let finished: Vec<SeqId> = self.reconcile();
        self.metrics.sequences_finished = bump(
            self.metrics.sequences_finished,
            finished.len(),
        );
        let trace: StepTrace = StepTrace {
            step: self.step_count,
            admitted,
            decoded,
            preempted,
            finished,
            running_after: self.running.len(),
            free_blocks_after: self.allocator.free_blocks(),
        };
        self.step_count = bump(self.step_count, 1);
        self.metrics.steps = bump(self.metrics.steps, 1);
        trace
    }

    /// Run one engine step: schedule, preempt, admit, execute, reconcile.
    pub fn step(&mut self) -> (result: Result<StepTrace, EngineError>)
        requires
            old(self)@.core.wf(),
            old(self)@.steppable(),
        ensures
            old(self)@.steps(model::outcome(result), final(self)@),
            final(self)@.core.wf(),
            final(self)@.core.pool.total() == old(self)@.core.pool.total(),
            old(self)@.core.started() && (result is Ok || result->Err_0 is Unschedulable)
                ==> final(self)@.core.started(),
            result is Err && result->Err_0 is Unschedulable ==> {
                let core = final(self)@.core;
                &&& result->Err_0->needed == model::unschedulable_need(
                    core.waiting,
                    core.pool.total(),
                )
                &&& result->Err_0->capacity == core.pool.total()
            },
    {
        let ghost start = self@;
        let plan: StepPlan = self.policy.plan(
            &self.waiting,
            self.running.as_slice(),
            &self.allocator,
        );
        proof {
            assert(P::plans(
                start.policy,
                start.core.waiting,
                start.core.running,
                start.core.pool,
                plan@,
                self.policy,
            ));
            upkeep::lemma_stepped_wf(start.core, plan@, Seq::empty());
            upkeep::lemma_arranged_wf(start.core, plan@);
        }
        let (admitted, preempted) = self.arrange(&plan);
        let ghost arranged = self@;
        if self.running.len() == 0 && self.waiting.len() > 0 {
            let error: EngineError = EngineError::Unschedulable {
                needed: self.unmet_need(),
                capacity: self.allocator.total_blocks(),
            };
            proof {
                turns::lemma_step_stalled(start, plan@, error, self@);
            }
            return Err(error);
        }
        let executed: Result<Vec<SeqId>, EngineError> = self.execute(&plan);
        let ghost (turns, states) = choose|turns: Seq<Turn>, states: Seq<R>| #[trigger]
            arranged.executes(plan@, turns, states, model::error_of(executed), self@);
        proof {
            let n = arranged.core.running.len();
            turns::lemma_executed_frame(arranged.core, plan@, turns, n);
            upkeep::lemma_executed_mid_step(arranged.core, plan@, turns, n);
        }
        match executed {
            Err(error) => {
                proof {
                    turns::lemma_step_failed(start, plan@, arranged, turns, states, error, self@);
                }
                Err(error)
            },
            Ok(decoded) => {
                let ghost done = self@;
                let trace: StepTrace = self.conclude(admitted, decoded, preempted);
                proof {
                    turns::lemma_step_done(
                        start,
                        plan@,
                        arranged,
                        turns,
                        states,
                        done,
                        trace@,
                        self@,
                    );
                    upkeep::lemma_stepped_wf(start.core, plan@, turns);
                    if start.core.started() {
                        upkeep::lemma_stepped_started(start.core, plan@, turns);
                    }
                }
                Ok(trace)
            },
        }
    }

    /// Step until the engine is idle, returning the trace of every step.
    pub fn run_to_idle(&mut self) -> (result: Result<Vec<StepTrace>, EngineError>)
        requires
            old(self)@.core.wf(),
            model::sustainable(old(self)@),
        ensures
            result is Ok ==> final(self)@.core.idle(),
            result is Ok ==> model::runs_to(
                old(self)@,
                model::trace_views(result->Ok_0@),
                final(self)@,
            ),
            result is Err ==> model::runs_into(old(self)@, result->Err_0, final(self)@),
            final(self)@.core.wf(),
            final(self)@.core.pool.total() == old(self)@.core.pool.total(),
            old(self)@.core.started() && (result is Ok || result->Err_0 is Unschedulable)
                ==> final(self)@.core.started(),
    {
        let mut traces: Vec<StepTrace> = Vec::new();
        proof {
            assert(model::trace_views(traces@) =~= Seq::empty());
            assert(model::runs(seq![self@], model::trace_views(traces@)));
        }
        while !self.is_idle()
            invariant
                model::sustainable(old(self)@),
                self@.core.wf(),
                old(self)@.core.started() ==> self@.core.started(),
                self@.core.pool.total() == old(self)@.core.pool.total(),
                model::runs_to(old(self)@, model::trace_views(traces@), self@),
            decreases usize::MAX - traces.len(),
        {
            let ghost before = self@;
            let ghost shown = model::trace_views(traces@);
            match self.step() {
                Err(error) => {
                    return Err(error);
                },
                Ok(trace) => {
                    traces.push(trace);
                    proof {
                        turns::lemma_runs_on(old(self)@, shown, before, trace@, self@);
                        assert(model::trace_views(traces@) =~= shown.push(trace@));
                    }
                },
            }
        }
        Ok(traces)
    }
}

/// Splits sequences into the finished ones and the others, in order.
fn split_done(seqs: Vec<Sequence>) -> (parts: (Vec<Sequence>, Vec<Sequence>))
    ensures
        sequence::seq_views(parts.0@) == sequence::seq_views(seqs@).filter(model::is_done()),
        sequence::seq_views(parts.1@) == sequence::seq_views(seqs@).filter(model::is_not_done()),
{
    let ghost views = sequence::seq_views(seqs@);
    let mut done: Vec<Sequence> = Vec::new();
    let mut still: Vec<Sequence> = Vec::new();
    proof {
        reveal(Seq::filter);
        assert(views.take(0) =~= Seq::empty());
    }
    for seq in it: seqs
        invariant
            it.seq() == seqs@,
            views == sequence::seq_views(seqs@),
            sequence::seq_views(done@) == views.take(it.index()).filter(model::is_done()),
            sequence::seq_views(still@) == views.take(it.index()).filter(model::is_not_done()),
    {
        proof {
            assert(views[it.index()] == seq@);
            lemma_filter_next(views, model::is_done(), it.index());
            lemma_filter_next(views, model::is_not_done(), it.index());
            lemma_views_push(done@, seq);
            lemma_views_push(still@, seq);
        }
        if seq.state() == SeqState::Finished {
            done.push(seq);
        } else {
            still.push(seq);
        }
    }
    assert(views.take(views.len() as int) =~= views);
    (done, still)
}

/// Finds the smallest footprint of a waiting sequence that is above `floor`.
fn smallest_footprint_above(waiting: &VecDeque<Sequence>, floor: usize) -> (least: Option<usize>)
    ensures
        match (least, model::smallest_footprint_above(
            sequence::seq_views(waiting@),
            floor as int,
        )) {
            (Some(found), Some(expected)) => found == expected,
            (None, None) => true,
            _ => false,
        },
{
    let ghost views = sequence::seq_views(waiting@);
    let mut least: Option<usize> = None;
    let mut index: usize = 0;
    assert(views.take(0) =~= Seq::empty());
    while index < waiting.len()
        invariant
            views == sequence::seq_views(waiting@),
            index <= waiting@.len(),
            match (least, model::smallest_footprint_above(
                views.take(index as int),
                floor as int,
            )) {
                (Some(found), Some(expected)) => found == expected,
                (None, None) => true,
                _ => false,
            },
        decreases waiting@.len() - index,
    {
        assert(views.take(index + 1).drop_last() =~= views.take(index as int));
        let footprint: usize = waiting[index].footprint_after_next();
        if footprint > floor {
            least = match least {
                Some(found) => if footprint < found {
                    Some(footprint)
                } else {
                    Some(found)
                },
                None => Some(footprint),
            };
        }
        index = index + 1;
    }
    assert(views.take(index as int) =~= views);
    least
}

} // verus!
