//! The mathematical model of the engine: its state, and what each phase of a
//! step does to it.
use std::time::Instant;
use vstd::prelude::*;

use super::{EngineConfig, EngineError, StepTrace};
use crate::block::{AllocError, PoolView};
use crate::ids::{SeqId, TokenId};
use crate::metrics::{self, EngineMetrics};
use crate::runtime::{ModelRuntime, RuntimeError};
use crate::scheduler::{self, PlanView, SchedulerPolicy};
use crate::sequence::{self, SeqState, SeqView};
use crate::{block, counting};

verus! {

/// The engine's own state: everything but the runtime and the policy.
#[verifier::ext_equal]
pub struct EngineView {
    /// Sequences queued for admission, next first.
    pub waiting: Seq<SeqView>,
    /// Sequences that advance each step.
    pub running: Seq<SeqView>,
    /// Sequences that have completed, in completion order.
    pub finished: Seq<SeqView>,
    /// The KV pool.
    pub pool: PoolView,
    /// Configuration.
    pub config: EngineConfig,
    /// Cumulative counters.
    pub metrics: EngineMetrics,
    /// Number of completed steps.
    pub step_count: u64,
}

/// The engine's state, its runtime and its policy.
pub struct EngineState<R, P> {
    /// The engine's own state.
    pub core: EngineView,
    /// The model runtime.
    pub runtime: R,
    /// The scheduling policy.
    pub policy: P,
}

/// The contents of a step trace.
#[verifier::ext_equal]
pub struct TraceView {
    /// Step index.
    pub step: u64,
    /// Sequences admitted.
    pub admitted: Seq<SeqId>,
    /// Sequences decoded.
    pub decoded: Seq<SeqId>,
    /// Sequences preempted.
    pub preempted: Seq<SeqId>,
    /// Sequences that finished.
    pub finished: Seq<SeqId>,
    /// Running-set size afterwards.
    pub running_after: nat,
    /// Free blocks afterwards.
    pub free_blocks_after: nat,
}

/// What the runtime and the clock answer when a running sequence takes its turn.
pub struct Turn {
    /// The runtime's answer.
    pub reply: Result<TokenId, RuntimeError>,
    /// The time at which the token was recorded.
    pub at: Instant,
}

/// What a running sequence asks of the runtime when it takes its turn.
#[derive(Debug, Clone, Copy, PartialEq, Eq, Structural)]
pub enum Ask {
    /// Nothing: the plan does not name it.
    Idle,
    /// A fresh admission prefills its prompt.
    Prefill,
    /// A resumed sequence decodes from where it left off.
    Resume,
    /// A sequence that was running already decodes.
    Decode,
}

/// The engine after some of its running sequences have taken their turns.
#[verifier::ext_equal]
pub struct Progress {
    /// The engine's state.
    pub engine: EngineView,
    /// The error that stopped the step, if there was one.
    pub error: Option<EngineError>,
}

/// The error of a result, if it has one.
pub open spec fn error_of<T>(result: Result<T, EngineError>) -> Option<EngineError> {
    match result {
        Ok(_) => None,
        Err(error) => Some(error),
    }
}

/// What a step returned, with the contents of its trace.
pub open spec fn outcome(result: Result<StepTrace, EngineError>) -> Result<TraceView, EngineError> {
    match result {
        Ok(trace) => Ok(trace@),
        Err(error) => Err(error),
    }
}

/// The contents of `traces`.
pub open spec fn trace_views(traces: Seq<StepTrace>) -> Seq<TraceView> {
    traces.map_values(|trace: StepTrace| trace@)
}

/// Sequences whose id is one of `ids`.
pub open spec fn named_in(ids: Seq<SeqId>) -> spec_fn(SeqView) -> bool {
    |seq: SeqView| ids.contains(seq.id)
}

/// Sequences whose id is none of `ids`.
pub open spec fn not_named_in(ids: Seq<SeqId>) -> spec_fn(SeqView) -> bool {
    |seq: SeqView| !ids.contains(seq.id)
}

/// Sequences of at most `limit` tokens.
pub open spec fn not_longer_than(limit: usize) -> spec_fn(SeqView) -> bool {
    |seq: SeqView| seq.len() <= limit
}

/// Sequences in lifecycle state `Finished`.
pub open spec fn is_done() -> spec_fn(SeqView) -> bool {
    |seq: SeqView| seq.state == SeqState::Finished
}

/// Sequences in any other lifecycle state.
pub open spec fn is_not_done() -> spec_fn(SeqView) -> bool {
    |seq: SeqView| seq.state != SeqState::Finished
}

/// A sequence after it was evicted.
pub open spec fn to_preempted() -> spec_fn(SeqView) -> SeqView {
    |seq: SeqView| seq.unmapped().in_state(SeqState::Preempted)
}

/// A sequence after it was admitted.
pub open spec fn to_running() -> spec_fn(SeqView) -> SeqView {
    |seq: SeqView| seq.in_state(SeqState::Running)
}

/// A sequence after its blocks were reclaimed.
pub open spec fn to_unmapped() -> spec_fn(SeqView) -> SeqView {
    |seq: SeqView| seq.unmapped()
}

/// The ids of `seqs`.
pub open spec fn ids_of(seqs: Seq<SeqView>) -> Seq<SeqId> {
    seqs.map_values(|seq: SeqView| seq.id)
}

/// The pool after every block of `seqs` has been released.
pub open spec fn release_seqs(pool: PoolView, seqs: Seq<SeqView>) -> PoolView
    decreases seqs.len(),
{
    if seqs.len() == 0 {
        pool
    } else {
        release_seqs(pool, seqs.drop_last()).released_all(seqs.last().table)
    }
}

/// The smallest footprint among `seqs` that is above `floor`.
pub open spec fn smallest_footprint_above(seqs: Seq<SeqView>, floor: int) -> Option<nat>
    decreases seqs.len(),
{
    if seqs.len() == 0 {
        None
    } else {
        let rest = smallest_footprint_above(seqs.drop_last(), floor);
        let footprint = seqs.last().footprint();
        if footprint <= floor {
            rest
        } else {
            match rest {
                Some(least) => if footprint < least {
                    Some(footprint)
                } else {
                    Some(least)
                },
                None => Some(footprint),
            }
        }
    }
}

/// The footprint reported when nothing can be scheduled: the smallest one that
/// exceeds the pool, or the smallest of all if none does.
pub open spec fn unschedulable_need(waiting: Seq<SeqView>, capacity: nat) -> nat {
    match smallest_footprint_above(waiting, capacity as int) {
        Some(needed) => needed,
        None => match smallest_footprint_above(waiting, 0) {
            Some(needed) => needed,
            None => 0,
        },
    }
}

/// How often prefilling a sequence will map a block through the prefix cache
/// under `hash`: never, once it has an output.
pub open spec fn fresh_shares(hash: u64) -> spec_fn(SeqView) -> nat {
    |seq: SeqView|
        if seq.output.len() == 0 {
            counting::count(seq.unmapped_hashes(), block::BlockHash(hash))
        } else {
            0
        }
}

/// How often a sequence will do so in a step that admits `ids`.
pub open spec fn planned_shares(ids: Seq<SeqId>, hash: u64) -> spec_fn(SeqView) -> nat {
    counting::kept_weight(named_in(ids), fresh_shares(hash))
}

/// Every block in the table of `seq` is a block of `pool`.
pub open spec fn table_in(seq: SeqView, pool: PoolView) -> bool {
    forall|j: int| 0 <= j < seq.table.len() ==> pool.owns(#[trigger] seq.table[j])
}

/// Every block in the tables of `seqs` is a block of `pool`.
pub open spec fn tables_in(seqs: Seq<SeqView>, pool: PoolView) -> bool {
    forall|i: int| 0 <= i < seqs.len() ==> table_in(#[trigger] seqs[i], pool)
}

impl EngineView {
    /// The state of an engine that holds no sequences yet.
    pub open spec fn fresh(pool: PoolView, config: EngineConfig) -> EngineView {
        EngineView {
            waiting: Seq::empty(),
            running: Seq::empty(),
            finished: Seq::empty(),
            pool,
            config,
            metrics: EngineMetrics::zero(),
            step_count: 0,
        }
    }

    /// Nothing waits and nothing runs.
    pub open spec fn idle(self) -> bool {
        self.waiting.len() == 0 && self.running.len() == 0
    }

    /// The pool is well formed and the block tables name its blocks.
    pub open spec fn wf(self) -> bool {
        &&& self.pool.wf()
        &&& tables_in(self.waiting, self.pool)
        &&& tables_in(self.running, self.pool)
    }

    /// Every running sequence has produced a token to decode from.
    pub open spec fn started(self) -> bool {
        forall|i: int| 0 <= i < self.running.len() ==> (#[trigger] self.running[i]).output.len() > 0
    }

    /// In a step under `plan`, the running sequences from place `n` on can take
    /// their turns: no reference count will overflow, and nobody is asked to
    /// decode without a token to decode from.
    pub open spec fn can_go_on(self, plan: PlanView, n: int) -> bool {
        &&& forall|hash: u64| #[trigger]
            self.pool.sharers(hash) + counting::sum(
                self.running.skip(n),
                planned_shares(plan.prefill, hash),
            ) <= u16::MAX
        &&& forall|i: int|
            n <= i < self.running.len() && (#[trigger] self.running[i]).output.len() == 0 ==> !(
            self.ask(plan, i) is Decode)
    }

    /// The engine is well formed, and in a step under `plan` the running
    /// sequences from place `n` on can take their turns.
    pub open spec fn mid_step(self, plan: PlanView, n: int) -> bool {
        self.wf() && 0 <= n <= self.running.len() && self.can_go_on(plan, n)
    }

    /// The engine can execute `plan` once it is applied to the queues.
    pub open spec fn executable(self, plan: PlanView) -> bool {
        self.arranged(plan).can_go_on(plan, 0)
    }

    /// The engine after `seq` was queued.
    pub open spec fn submitted(self, seq: SeqView) -> EngineView {
        EngineView { waiting: self.waiting.push(seq), ..self }
    }

    /// The running sequences that `victims` names.
    pub open spec fn evicted(self, victims: Seq<SeqId>) -> Seq<SeqView> {
        self.running.filter(named_in(victims))
    }

    /// The engine after `victims` were preempted: their blocks are reclaimed and
    /// they are back at the head of the waiting queue, the last one foremost.
    pub open spec fn after_preempt(self, victims: Seq<SeqId>) -> EngineView {
        let evicted = self.evicted(victims);
        let short = evicted.filter(not_longer_than(self.config.swap_threshold_tokens)).len();
        EngineView {
            running: self.running.filter(not_named_in(victims)),
            waiting: evicted.map_values(to_preempted()).reverse() + self.waiting,
            pool: release_seqs(self.pool, evicted),
            metrics: EngineMetrics {
                preemptions: metrics::bumped(self.metrics.preemptions, evicted.len()),
                preemptions_recompute: metrics::bumped(self.metrics.preemptions_recompute, short),
                preemptions_swap: metrics::bumped(
                    self.metrics.preemptions_swap,
                    (evicted.len() - short) as nat,
                ),
                ..self.metrics
            },
            ..self
        }
    }

    /// The waiting sequences that `ids` names.
    pub open spec fn admissible(self, ids: Seq<SeqId>) -> Seq<SeqView> {
        self.waiting.filter(named_in(ids))
    }

    /// The engine after the waiting sequences that `ids` names were moved to the
    /// end of the running set.
    pub open spec fn after_admit(self, ids: Seq<SeqId>) -> EngineView {
        let admitted = self.admissible(ids);
        EngineView {
            waiting: self.waiting.filter(not_named_in(ids)),
            running: self.running + admitted.map_values(to_running()),
            ..self
        }
    }

    /// The engine with the step's plan applied and its admissions counted, before
    /// anything is executed.
    pub open spec fn arranged(self, plan: PlanView) -> EngineView {
        let evicted = self.after_preempt(plan.preempt);
        EngineView {
            metrics: EngineMetrics {
                sequences_admitted: metrics::bumped(
                    evicted.metrics.sequences_admitted,
                    evicted.admissible(plan.prefill).len(),
                ),
                ..evicted.metrics
            },
            ..evicted.after_admit(plan.prefill)
        }
    }

    /// There is work, and none of it was scheduled.
    pub open spec fn stalled(self) -> bool {
        self.running.len() == 0 && self.waiting.len() > 0
    }

    /// What running sequence `idx` asks for under `plan`.
    pub open spec fn ask(self, plan: PlanView, idx: int) -> Ask {
        let seq = self.running[idx];
        if plan.prefill.contains(seq.id) {
            if seq.output.len() == 0 {
                Ask::Prefill
            } else {
                Ask::Resume
            }
        } else if plan.decode.contains(seq.id) {
            Ask::Decode
        } else {
            Ask::Idle
        }
    }

    /// The engine after `token` was applied to running sequence `idx` at time
    /// `at`: the end-of-sequence token only finishes it; any other is appended,
    /// given a block slot, and finishes it when it was the last one allowed.
    pub open spec fn token_applied(self, idx: int, token: TokenId, at: Instant) -> Progress {
        if self.config.eos_token == Some(token) {
            Progress {
                engine: EngineView {
                    running: self.running.update(
                        idx,
                        self.running[idx].in_state(SeqState::Finished),
                    ),
                    ..self
                },
                error: None,
            }
        } else {
            let grown = self.running[idx].pushed(token, at);
            let needed = grown.missing_blocks(grown.len());
            if needed > self.pool.free.len() {
                Progress {
                    engine: EngineView { running: self.running.update(idx, grown), ..self },
                    error: Some(EngineError::Alloc(AllocError::Exhausted)),
                }
            } else {
                let mapped = grown.mapped(self.pool.next_blocks(needed));
                let limit = mapped.sampling.max_tokens;
                let settled = if limit > 0 && mapped.output.len() >= limit {
                    mapped.in_state(SeqState::Finished)
                } else {
                    mapped
                };
                Progress {
                    engine: EngineView {
                        running: self.running.update(idx, settled),
                        pool: self.pool.taken(needed),
                        metrics: EngineMetrics {
                            tokens_generated: metrics::bumped(self.metrics.tokens_generated, 1),
                            ..self.metrics
                        },
                        ..self
                    },
                    error: None,
                }
            }
        }
    }

    /// The engine after the runtime answered running sequence `idx`.
    pub open spec fn answered(self, idx: int, turn: Turn) -> Progress {
        match turn.reply {
            Ok(token) => self.token_applied(idx, token, turn.at),
            Err(error) => Progress { engine: self, error: Some(EngineError::Runtime(error)) },
        }
    }

    /// The engine after fresh running sequence `idx` mapped its prompt through
    /// the prefix cache.
    pub open spec fn prefix_mapped(self, idx: int) -> Progress {
        let sharing = sequence::share_blocks(self.pool, self.running[idx].unmapped_hashes());
        let engine = EngineView {
            running: self.running.update(idx, self.running[idx].mapped(sharing.blocks)),
            pool: sharing.pool,
            ..self
        };
        if sharing.exhausted {
            Progress { engine, error: Some(EngineError::Alloc(AllocError::Exhausted)) }
        } else {
            Progress {
                engine: EngineView {
                    metrics: EngineMetrics {
                        blocks_shared: metrics::bumped(self.metrics.blocks_shared, sharing.shared),
                        ..self.metrics
                    },
                    ..engine
                },
                error: None,
            }
        }
    }

    /// The engine after running sequence `idx` took its turn, with `ask`.
    pub open spec fn turn_taken(self, ask: Ask, idx: int, turn: Turn) -> Progress {
        match ask {
            Ask::Idle => Progress { engine: self, error: None },
            Ask::Prefill => {
                let mapped = self.prefix_mapped(idx);
                if mapped.error is Some {
                    mapped
                } else {
                    mapped.engine.answered(idx, turn)
                }
            },
            Ask::Resume => self.answered(idx, turn),
            Ask::Decode => self.answered(idx, turn),
        }
    }

    /// The engine after the first `n` running sequences took their turns, in
    /// order; the first error stops them.
    pub open spec fn executed(self, plan: PlanView, turns: Seq<Turn>, n: nat) -> Progress
        decreases n,
    {
        if n == 0 {
            Progress { engine: self, error: None }
        } else {
            let before = self.executed(plan, turns, (n - 1) as nat);
            if before.error is Some {
                before
            } else {
                before.engine.turn_taken(before.engine.ask(plan, n - 1), n - 1, turns[n - 1])
            }
        }
    }

    /// On its turn, with `ask`, running sequence `idx` took the runtime from
    /// state `pre` to state `post`: a fresh sequence is prefilled with its
    /// prompt, any other is decoded from its last token.
    pub open spec fn consults<R: ModelRuntime>(
        self,
        ask: Ask,
        idx: int,
        turn: Turn,
        pre: R,
        post: R,
    ) -> bool {
        let seq = self.running[idx];
        match ask {
            Ask::Idle => pre == post,
            Ask::Prefill => if self.prefix_mapped(idx).error is Some {
                pre == post
            } else {
                R::prefills(pre, seq.id, seq.prompt, turn.reply, post)
            },
            Ask::Resume => R::decodes(pre, seq.id, seq.output.last(), turn.reply, post),
            Ask::Decode => R::decodes(pre, seq.id, seq.output.last(), turn.reply, post),
        }
    }

    /// On its turn, after those before it, running sequence `idx` took the
    /// runtime from state `states[idx]` to the next; after an error it had none.
    pub open spec fn consulted<R: ModelRuntime>(
        self,
        plan: PlanView,
        turns: Seq<Turn>,
        idx: int,
        states: Seq<R>,
    ) -> bool {
        let before = self.executed(plan, turns, idx as nat);
        if before.error is Some {
            states[idx] == states[idx + 1]
        } else {
            before.engine.consults(
                before.engine.ask(plan, idx),
                idx,
                turns[idx],
                states[idx],
                states[idx + 1],
            )
        }
    }

    /// While the first `n` running sequences took their turns, the runtime went
    /// through `states`, and its answers are those of `turns`.
    pub open spec fn served<R: ModelRuntime>(
        self,
        plan: PlanView,
        turns: Seq<Turn>,
        n: nat,
        states: Seq<R>,
    ) -> bool {
        &&& states.len() == n + 1
        &&& forall|i: int| 0 <= i < n ==> #[trigger] self.consulted(plan, turns, i, states)
    }

    /// The engine after the finished sequences left the running set and their
    /// blocks were reclaimed.
    pub open spec fn reconciled(self) -> EngineView {
        let done = self.running.filter(is_done());
        EngineView {
            running: self.running.filter(is_not_done()),
            finished: self.finished + done.map_values(to_unmapped()),
            pool: release_seqs(self.pool, done),
            ..self
        }
    }

    /// The engine at the end of a step: what finished is reclaimed, and it and
    /// the step are counted.
    pub open spec fn concluded(self) -> EngineView {
        EngineView {
            step_count: metrics::bumped(self.step_count, 1),
            metrics: EngineMetrics {
                steps: metrics::bumped(self.metrics.steps, 1),
                sequences_finished: metrics::bumped(
                    self.metrics.sequences_finished,
                    self.running.filter(is_done()).len(),
                ),
                ..self.metrics
            },
            ..self.reconciled()
        }
    }

    /// The places of the running sequences that `plan` decodes without admitting
    /// them.
    pub open spec fn decodes_at(self, plan: PlanView) -> spec_fn(int) -> bool {
        |i: int| self.ask(plan, i) is Decode
    }

    /// Their ids.
    pub open spec fn decoded(self, plan: PlanView) -> Seq<SeqId> {
        scheduler::ids_where(self.running, self.decodes_at(plan))
    }

    /// The engine after one step under `plan`, with the given answers.
    pub open spec fn stepped(self, plan: PlanView, turns: Seq<Turn>) -> EngineView {
        let arranged = self.arranged(plan);
        let progress = arranged.executed(plan, turns, arranged.running.len());
        if arranged.stalled() {
            arranged
        } else if progress.error is Some {
            progress.engine
        } else {
            progress.engine.concluded()
        }
    }

    /// What that step returns.
    pub open spec fn step_result(self, plan: PlanView, turns: Seq<Turn>) -> Result<
        TraceView,
        EngineError,
    > {
        let arranged = self.arranged(plan);
        let progress = arranged.executed(plan, turns, arranged.running.len());
        let after = self.stepped(plan, turns);
        if arranged.stalled() {
            Err(
                EngineError::Unschedulable {
                    needed: unschedulable_need(arranged.waiting, arranged.pool.total()) as usize,
                    capacity: arranged.pool.total() as usize,
                },
            )
        } else if let Some(error) = progress.error {
            Err(error)
        } else {
            Ok(
                TraceView {
                    step: self.step_count,
                    admitted: ids_of(self.after_preempt(plan.preempt).admissible(plan.prefill)),
                    decoded: arranged.decoded(plan),
                    preempted: ids_of(self.evicted(plan.preempt)),
                    finished: ids_of(progress.engine.running.filter(is_done())),
                    running_after: after.running.len(),
                    free_blocks_after: after.pool.free.len(),
                },
            )
        }
    }
}

impl<R: ModelRuntime, P: SchedulerPolicy> EngineState<R, P> {
    /// Whatever the policy plans next, the engine can execute it.
    pub open spec fn steppable(self) -> bool {
        forall|plan: PlanView, post: P| #[trigger]
            P::plans(
                self.policy,
                self.core.waiting,
                self.core.running,
                self.core.pool,
                plan,
                post,
            ) ==> self.core.executable(plan)
    }

    /// The state with the engine's own state replaced.
    pub open spec fn with_core(self, core: EngineView) -> EngineState<R, P> {
        EngineState { core, ..self }
    }

    /// Running sequence `idx` took its turn, with `ask` and the answer `turn`,
    /// which led from here to `post` and to `error`.
    pub open spec fn turns_to(
        self,
        ask: Ask,
        idx: int,
        turn: Turn,
        error: Option<EngineError>,
        post: EngineState<R, P>,
    ) -> bool {
        &&& self.core.turn_taken(ask, idx, turn) == (Progress { engine: post.core, error })
        &&& self.core.consults(ask, idx, turn, self.runtime, post.runtime)
        &&& post.policy == self.policy
    }

    /// All running sequences took their turns under `plan`, with the answers
    /// `turns`, which led from here to `post` and to `error`, while the runtime
    /// went through `states`.
    pub open spec fn executes(
        self,
        plan: PlanView,
        turns: Seq<Turn>,
        states: Seq<R>,
        error: Option<EngineError>,
        post: EngineState<R, P>,
    ) -> bool {
        let n = self.core.running.len();
        &&& self.core.executed(plan, turns, n) == (Progress { engine: post.core, error })
        &&& self.core.served(plan, turns, n, states)
        &&& states[0] == self.runtime
        &&& states.last() == post.runtime
        &&& post.policy == self.policy
    }

    /// One step under `plan`, with the answers `turns`, led from here to `post`
    /// and returned `result`, while the runtime went through `states`.
    pub open spec fn steps_by(
        self,
        plan: PlanView,
        turns: Seq<Turn>,
        states: Seq<R>,
        result: Result<TraceView, EngineError>,
        post: EngineState<R, P>,
    ) -> bool {
        let arranged = self.core.arranged(plan);
        &&& P::plans(
            self.policy,
            self.core.waiting,
            self.core.running,
            self.core.pool,
            plan,
            post.policy,
        )
        &&& post.core == self.core.stepped(plan, turns)
        &&& result == self.core.step_result(plan, turns)
        &&& states.len() > 0
        &&& states[0] == self.runtime
        &&& states.last() == post.runtime
        &&& if arranged.stalled() {
            states.len() == 1
        } else {
            arranged.served(plan, turns, arranged.running.len(), states)
        }
    }

    /// One step may lead from here to `post` and return `result`: the policy may
    /// return a plan and the runtime may give answers that do so.
    pub open spec fn steps(
        self,
        result: Result<TraceView, EngineError>,
        post: EngineState<R, P>,
    ) -> bool {
        exists|plan: PlanView, turns: Seq<Turn>, states: Seq<R>| #[trigger]
            self.steps_by(plan, turns, states, result, post)
    }
}

/// Step `i` of a run was taken while work remained, and led from `trail[i]` to
/// the next state with the trace `traces[i]`.
pub open spec fn runs_at<R: ModelRuntime, P: SchedulerPolicy>(
    trail: Seq<EngineState<R, P>>,
    traces: Seq<TraceView>,
    i: int,
) -> bool {
    !trail[i].core.idle() && trail[i].steps(Ok(traces[i]), trail[i + 1])
}

/// Successful steps with the given traces may lead through the states of
/// `trail`, each taken while work remained.
pub open spec fn runs<R: ModelRuntime, P: SchedulerPolicy>(
    trail: Seq<EngineState<R, P>>,
    traces: Seq<TraceView>,
) -> bool {
    &&& trail.len() == traces.len() + 1
    &&& forall|i: int| 0 <= i < traces.len() ==> #[trigger] runs_at(trail, traces, i)
}

/// Successful steps with the given traces may lead from `start` to `post`.
pub open spec fn runs_to<R: ModelRuntime, P: SchedulerPolicy>(
    start: EngineState<R, P>,
    traces: Seq<TraceView>,
    post: EngineState<R, P>,
) -> bool {
    exists|trail: Seq<EngineState<R, P>>| #[trigger]
        runs(trail, traces) && trail[0] == start && trail.last() == post
}

/// Wherever successful steps may lead from `start`, another can be taken while
/// work remains.
pub open spec fn sustainable<R: ModelRuntime, P: SchedulerPolicy>(
    start: EngineState<R, P>,
) -> bool {
    forall|traces: Seq<TraceView>, last: EngineState<R, P>| #[trigger]
        runs_to(start, traces, last) && !last.core.idle() ==> last.steppable()
}

/// Successful steps may lead from `start` to a state where work remains and the
/// next step may fail with `error`, leaving the engine in `post`.
pub open spec fn runs_into<R: ModelRuntime, P: SchedulerPolicy>(
    start: EngineState<R, P>,
    error: EngineError,
    post: EngineState<R, P>,
) -> bool {
    exists|traces: Seq<TraceView>, last: EngineState<R, P>| #[trigger]
        runs_to(start, traces, last) && !last.core.idle() && last.steps(Err(error), post)
}

} // verus!
