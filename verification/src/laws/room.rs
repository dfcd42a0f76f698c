//! When no reference count can overflow.
//!
//! A block's reference count is a small number. A step must not share a block
//! more often than it can count; these laws name two ordinary situations in
//! which it never will.
use vstd::prelude::*;

use super::service;
use super::{accounts, capacity};
use crate::block::{self, BlockHash};
use crate::counting;
use crate::engine::model::{self, EngineState, EngineView, TraceView, Turn};
use crate::engine::{turns, upkeep};
use crate::runtime::ModelRuntime;
use crate::scheduler::{PlanView, SchedulerPolicy};
use crate::sequence::SeqView;

verus! {

/// If every running sequence has an output, a plan asks nobody to decode who has
/// none.
proof fn lemma_started_can_decode(engine: EngineView, plan: PlanView)
    requires
        engine.started(),
    ensures
        forall|i: int|
            0 <= i < engine.arranged(plan).running.len() && (
            #[trigger] engine.arranged(plan).running[i]).output.len() == 0 ==> !(engine.arranged(
                plan,
            ).ask(plan, i) is Decode),
{
    upkeep::lemma_arranged_started(engine, plan);
}

/// A block cannot be shared more often than the pool has blocks, when the plan
/// is correct: so small pools overflow no count.
proof fn lemma_small_pool_executes(engine: EngineView, plan: PlanView)
    requires
        service::sound(engine),
        capacity::correct(engine, plan),
        engine.pool.total() <= u16::MAX,
    ensures
        engine.executable(plan),
{
    let arranged = engine.arranged(plan);
    capacity::lemma_preempt_accounted(engine, plan.preempt);
    capacity::lemma_admit_accounted(engine.after_preempt(plan.preempt), plan.prefill);
    upkeep::lemma_arranged_wf(engine, plan);
    lemma_started_can_decode(engine, plan);
    assert(arranged.running.skip(0) =~= arranged.running);
    assert forall|hash: u64| #[trigger]
        arranged.pool.sharers(hash) + counting::sum(
            arranged.running.skip(0),
            model::planned_shares(plan.prefill, hash),
        ) <= u16::MAX by {
        let planned = model::planned_shares(plan.prefill, hash);
        assert forall|i: int| 0 <= i < arranged.running.len() implies accounts::table_lens()(
            #[trigger] arranged.running[i],
        ) + planned(arranged.running[i]) <= capacity::footprint_of()(arranged.running[i]) by {
            let seq = arranged.running[i];
            assert(accounts::snug(seq));
            counting::lemma_count_len(seq.unmapped_hashes(), BlockHash(hash));
        }
        counting::lemma_sum_two_le(
            arranged.running,
            accounts::table_lens(),
            planned,
            capacity::footprint_of(),
        );
        accounts::lemma_sharers_bounded(arranged, hash);
    }
}

/// A sound engine with a small pool can take a step.
proof fn lemma_small_pool_steps<R: ModelRuntime, P: SchedulerPolicy>(state: EngineState<R, P>)
    requires
        service::prudent::<P>(),
        service::sound(state.core),
        state.core.pool.total() <= u16::MAX,
    ensures
        state.steppable(),
{
    assert forall|plan: PlanView, post: P| #[trigger]
        P::plans(
            state.policy,
            state.core.waiting,
            state.core.running,
            state.core.pool,
            plan,
            post,
        ) implies state.core.executable(plan) by {
        lemma_small_pool_executes(state.core, plan);
    }
}

/// Along a run, a sound engine with a small pool stays one.
proof fn lemma_small_pool_trail<R: ModelRuntime, P: SchedulerPolicy>(
    trail: Seq<EngineState<R, P>>,
    traces: Seq<TraceView>,
    n: int,
)
    requires
        service::prudent::<P>(),
        model::runs(trail, traces),
        service::sound(trail[0].core),
        trail[0].core.pool.total() <= u16::MAX,
        0 <= n <= traces.len(),
    ensures
        service::sound(trail[n].core),
        trail[n].core.pool.total() <= u16::MAX,
    decreases n,
{
    if n > 0 {
        lemma_small_pool_trail(trail, traces, n - 1);
        lemma_small_pool_steps(trail[n - 1]);
        assert(model::runs_at(trail, traces, n - 1));
        service::law_step_keeps_sound(trail[n - 1], Ok(traces[n - 1]), trail[n]);
    }
}

/// **Small pools are sustainable.** A sound engine under a prudent policy, over a
/// pool of no more blocks than a reference count can count, can take a step, and
/// go on doing so while work remains, however many requests wait.
pub proof fn law_small_pools_are_sustainable<R: ModelRuntime, P: SchedulerPolicy>(
    start: EngineState<R, P>,
)
    requires
        service::prudent::<P>(),
        service::sound(start.core),
        start.core.pool.total() <= u16::MAX,
    ensures
        start.steppable(),
        model::sustainable(start),
{
    lemma_small_pool_steps(start);
    assert forall|traces: Seq<TraceView>, last: EngineState<R, P>| #[trigger]
        model::runs_to(start, traces, last) && !last.core.idle() implies last.steppable() by {
        let trail = choose|trail: Seq<EngineState<R, P>>| #[trigger]
            model::runs(trail, traces) && trail[0] == start && trail.last() == last;
        lemma_small_pool_trail(trail, traces, traces.len() as int);
        lemma_small_pool_steps(last);
    }
}

/// The reference counts have room for the prompts of all that wait.
pub open spec fn spacious(engine: EngineView) -> bool {
    forall|hash: u64| #[trigger]
        engine.pool.sharers(hash) + counting::sum(engine.waiting, model::fresh_shares(hash))
            <= u16::MAX
}

/// Applying a plan to the queues shares nothing and forgets nobody.
proof fn lemma_arranged_spacious(engine: EngineView, plan: PlanView, hash: u64)
    requires
        engine.wf(),
        engine.started(),
    ensures
        ({
            let arranged = engine.arranged(plan);
            arranged.pool.sharers(hash) + counting::sum(
                arranged.running,
                model::planned_shares(plan.prefill, hash),
            ) + counting::sum(arranged.waiting, model::fresh_shares(hash)) <= engine.pool.sharers(
                hash,
            ) + counting::sum(engine.waiting, model::fresh_shares(hash))
        }),
{
    let fresh = model::fresh_shares(hash);
    let planned = model::planned_shares(plan.prefill, hash);
    let mid = engine.after_preempt(plan.preempt);
    let arranged = engine.arranged(plan);
    let evicted = engine.evicted(plan.preempt);
    let returned = evicted.map_values(model::to_preempted()).reverse();
    let admitted = mid.admissible(plan.prefill);
    let joined = admitted.map_values(model::to_running());
    upkeep::lemma_arranged_wf(engine, plan);
    assert(arranged.pool.sharers(hash) <= engine.pool.sharers(hash));
    assert forall|i: int| 0 <= i < returned.len() implies fresh(#[trigger] returned[i]) == 0 by {
        let j = upkeep::lemma_filter_source(
            engine.running,
            model::named_in(plan.preempt),
            evicted.len() - 1 - i,
        );
        assert(engine.running[j].output.len() > 0);
    }
    counting::lemma_sum_nothing(returned, fresh);
    counting::lemma_sum_add(returned, engine.waiting, fresh);
    counting::lemma_sum_split(
        mid.waiting,
        model::named_in(plan.prefill),
        model::not_named_in(plan.prefill),
        fresh,
    );
    assert forall|i: int| 0 <= i < mid.running.len() implies planned(
        #[trigger] mid.running[i],
    ) == 0 by {
        let j = upkeep::lemma_filter_source(engine.running, model::not_named_in(plan.preempt), i);
        assert(engine.running[j].output.len() > 0);
    }
    counting::lemma_sum_nothing(mid.running, planned);
    counting::lemma_sum_add(mid.running, joined, planned);
    assert forall|i: int| 0 <= i < joined.len() implies planned(#[trigger] joined[i]) == fresh(
        admitted[i],
    ) by {
        let j = upkeep::lemma_filter_source(mid.waiting, model::named_in(plan.prefill), i);
    }
    counting::lemma_sum_zip(joined, admitted, planned, fresh);
}

/// With room for everybody's prompt every plan can be executed, and there is
/// room for everybody's prompt afterwards.
proof fn lemma_spacious_steps(engine: EngineView, plan: PlanView, turns: Seq<Turn>)
    requires
        engine.wf(),
        engine.started(),
        spacious(engine),
    ensures
        engine.executable(plan),
        spacious(engine.stepped(plan, turns)),
{
    let arranged = engine.arranged(plan);
    let n = arranged.running.len();
    let after = engine.stepped(plan, turns);
    assert(arranged.running.skip(0) =~= arranged.running);
    lemma_started_can_decode(engine, plan);
    assert forall|hash: u64| #[trigger]
        arranged.pool.sharers(hash) + counting::sum(
            arranged.running.skip(0),
            model::planned_shares(plan.prefill, hash),
        ) <= u16::MAX by {
        lemma_arranged_spacious(engine, plan, hash);
        assert(engine.pool.sharers(hash) + counting::sum(
            engine.waiting,
            model::fresh_shares(hash),
        ) <= u16::MAX);
    }
    upkeep::lemma_arranged_wf(engine, plan);
    upkeep::lemma_executed_mid_step(arranged, plan, turns, n);
    turns::lemma_executed_frame(arranged, plan, turns, n);
    let executed = arranged.executed(plan, turns, n).engine;
    upkeep::lemma_reconciled_wf(executed);
    assert(arranged.running.take(n as int) =~= arranged.running);
    assert forall|hash: u64| #[trigger]
        after.pool.sharers(hash) + counting::sum(after.waiting, model::fresh_shares(hash))
            <= u16::MAX by {
        lemma_arranged_spacious(engine, plan, hash);
        assert(engine.pool.sharers(hash) + counting::sum(
            engine.waiting,
            model::fresh_shares(hash),
        ) <= u16::MAX);
        assert(executed.pool.sharers(hash) <= arranged.pool.sharers(hash) + counting::sum(
            arranged.running.take(n as int),
            model::planned_shares(plan.prefill, hash),
        ));
        assert(executed.reconciled().pool.sharers(hash) <= executed.pool.sharers(hash));
    }
}

/// Along a run there stays room for everybody's prompt.
proof fn lemma_spacious_trail<R: ModelRuntime, P: SchedulerPolicy>(
    trail: Seq<EngineState<R, P>>,
    traces: Seq<TraceView>,
    n: int,
)
    requires
        model::runs(trail, traces),
        trail[0].core.wf(),
        trail[0].core.started(),
        spacious(trail[0].core),
        0 <= n <= traces.len(),
    ensures
        trail[n].core.wf(),
        trail[n].core.started(),
        spacious(trail[n].core),
    decreases n,
{
    if n > 0 {
        lemma_spacious_trail(trail, traces, n - 1);
        assert(model::runs_at(trail, traces, n - 1));
        let (plan, turns, states) =
            choose|plan: PlanView, turns: Seq<Turn>, states: Seq<R>| #[trigger]
            trail[n - 1].steps_by(plan, turns, states, Ok(traces[n - 1]), trail[n]);
        lemma_spacious_steps(trail[n - 1].core, plan, turns);
        upkeep::lemma_stepped_wf(trail[n - 1].core, plan, turns);
        upkeep::lemma_stepped_started(trail[n - 1].core, plan, turns);
    }
}

/// **Short queues are sustainable.** Whatever the policy, an engine whose
/// reference counts have room for the prompts of all that wait can take a step,
/// and go on doing so while work remains.
pub proof fn law_short_queues_are_sustainable<R: ModelRuntime, P: SchedulerPolicy>(
    start: EngineState<R, P>,
)
    requires
        start.core.wf(),
        start.core.started(),
        spacious(start.core),
    ensures
        start.steppable(),
        model::sustainable(start),
{
    assert forall|plan: PlanView, post: P| #[trigger]
        P::plans(
            start.policy,
            start.core.waiting,
            start.core.running,
            start.core.pool,
            plan,
            post,
        ) implies start.core.executable(plan) by {
        lemma_spacious_steps(start.core, plan, Seq::empty());
    }
    assert forall|traces: Seq<TraceView>, last: EngineState<R, P>| #[trigger]
        model::runs_to(start, traces, last) && !last.core.idle() implies last.steppable() by {
        let trail = choose|trail: Seq<EngineState<R, P>>| #[trigger]
            model::runs(trail, traces) && trail[0] == start && trail.last() == last;
        lemma_spacious_trail(trail, traces, traces.len() as int);
        assert forall|plan: PlanView, post: P| #[trigger]
            P::plans(
                last.policy,
                last.core.waiting,
                last.core.running,
                last.core.pool,
                plan,
                post,
            ) implies last.core.executable(plan) by {
            lemma_spacious_steps(last.core, plan, Seq::empty());
        }
    }
}

/// Complete blocks in a prompt.
pub open spec fn prompt_blocks() -> spec_fn(SeqView) -> nat {
    |seq: SeqView| seq.prompt.len() / block::BLOCK_SIZE as nat
}

/// **Few blocks leave room.** If the running sequences hold, and the waiting
/// prompts fill, no more blocks than a reference count can count, then there is
/// room for the prompts of all that wait.
pub proof fn law_few_blocks_leave_room(engine: EngineView)
    requires
        accounts::accounted(engine),
        accounts::mapped_blocks(engine.running) + counting::sum(engine.waiting, prompt_blocks())
            <= u16::MAX,
    ensures
        spacious(engine),
{
    assert forall|hash: u64| #[trigger]
        engine.pool.sharers(hash) + counting::sum(engine.waiting, model::fresh_shares(hash))
            <= u16::MAX by {
        accounts::lemma_sharers_bounded(engine, hash);
        assert forall|i: int| 0 <= i < engine.waiting.len() implies model::fresh_shares(hash)(
            #[trigger] engine.waiting[i],
        ) <= prompt_blocks()(engine.waiting[i]) by {
            counting::lemma_count_len(engine.waiting[i].unmapped_hashes(), BlockHash(hash));
        }
        counting::lemma_sum_le(engine.waiting, model::fresh_shares(hash), prompt_blocks());
    }
}

} // verus!
