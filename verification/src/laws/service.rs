//! What a caller of the engine can rely on, from submission to completion.
use vstd::prelude::*;

use super::{accounts, capacity, plans, roster};
use crate::block::PoolView;
use crate::counting;
use crate::engine::model::{self, EngineState, EngineView, TraceView, Turn};
use crate::engine::{turns, upkeep, EngineConfig, EngineError};
use crate::ids::SeqId;
use crate::runtime::ModelRuntime;
use crate::scheduler::rank::{self, Ranking};
use crate::scheduler::{Fcfs, PlanView, Priority, Queues, SchedulerPolicy};
use crate::sequence::SeqView;

verus! {

/// The engine is well formed, its books balance, every running sequence has an
/// output, and no two live sequences have the same id.
pub open spec fn sound(engine: EngineView) -> bool {
    engine.wf() && engine.started() && accounts::accounted(engine) && roster::distinct(engine)
}

/// The policy never plans allocations that exceed the pool, as long as ids are
/// distinct.
pub open spec fn prudent<P: SchedulerPolicy>() -> bool {
    forall|engine: EngineView, pre: P, plan: PlanView, post: P|
        roster::distinct(engine) && #[trigger] P::plans(
            pre,
            engine.waiting,
            engine.running,
            engine.pool,
            plan,
            post,
        ) ==> capacity::correct(engine, plan)
}

/// The policy plans by the ranking `K`.
pub open spec fn ranks_by<P: SchedulerPolicy, K: Ranking>() -> bool {
    forall|
        pre: P,
        waiting: Seq<SeqView>,
        running: Seq<SeqView>,
        pool: PoolView,
        plan: PlanView,
        post: P,
    | #[trigger]
        P::plans(pre, waiting, running, pool, plan, post) ==> plan == rank::ranked_plan::<K>(
            (Queues { running, waiting }),
            pool.total(),
        )
}

/// **FCFS and the priority policy rank.** Each plans by its own ranking.
pub proof fn law_policies_rank()
    ensures
        ranks_by::<Fcfs, Fcfs>(),
        ranks_by::<Priority, Priority>(),
{
}

/// **A policy that ranks is prudent.** It never plans allocations that exceed
/// the pool.
pub proof fn law_ranking_is_prudent<P: SchedulerPolicy, K: Ranking>()
    requires
        ranks_by::<P, K>(),
    ensures
        prudent::<P>(),
{
    assert forall|engine: EngineView, pre: P, plan: PlanView, post: P|
        roster::distinct(engine) && #[trigger] P::plans(
            pre,
            engine.waiting,
            engine.running,
            engine.pool,
            plan,
            post,
        ) implies capacity::correct(engine, plan) by {
        plans::law_ranked_plan_is_correct::<K>(engine);
    }
}

/// **FCFS and the priority policy are prudent.**
pub proof fn law_policies_are_prudent()
    ensures
        prudent::<Fcfs>(),
        prudent::<Priority>(),
{
    law_ranking_is_prudent::<Fcfs, Fcfs>();
    law_ranking_is_prudent::<Priority, Priority>();
}

/// **A new engine is sound.** Over a pool whose blocks are all free, it is.
pub proof fn law_new_engine_is_sound(pool: PoolView, config: EngineConfig)
    requires
        pool.wf(),
        forall|i: int| 0 <= i < pool.refs.len() ==> #[trigger] pool.refs[i] == 0,
    ensures
        sound(EngineView::fresh(pool, config)),
{
    let engine = EngineView::fresh(pool, config);
    assert forall|id: SeqId| #[trigger]
        roster::live_weight(engine, roster::has_id(id)) <= 1 by {}
}

/// **Submitting keeps the engine sound**, if the sequence holds no blocks and no
/// live one has its id.
pub proof fn law_submitting_keeps_sound(engine: EngineView, seq: SeqView)
    requires
        sound(engine),
        seq.table.len() == 0,
        roster::live_weight(engine, roster::has_id(seq.id)) == 0,
    ensures
        sound(engine.submitted(seq)),
{
    let after = engine.submitted(seq);
    assert forall|id: SeqId| #[trigger]
        roster::live_weight(after, roster::has_id(id)) <= 1 by {
        counting::lemma_sum_push(engine.waiting, seq, roster::has_id(id));
        assert(roster::live_weight(engine, roster::has_id(id)) <= 1);
    }
    assert forall|i: int| 0 <= i < after.waiting.len() implies model::table_in(
        #[trigger] after.waiting[i],
        after.pool,
    ) && after.waiting[i].table.len() == 0 by {
        if i < engine.waiting.len() {
            assert(after.waiting[i] == engine.waiting[i]);
            assert(model::table_in(engine.waiting[i], engine.pool));
        }
    }
}

/// **The pool is never exhausted by a prudent policy.** A step of a sound engine
/// does not fail for want of blocks; whatever comes of it, the books balance and
/// the ids are distinct afterwards, and unless the runtime failed the engine is
/// sound again.
pub proof fn law_step_keeps_sound<R: ModelRuntime, P: SchedulerPolicy>(
    start: EngineState<R, P>,
    result: Result<TraceView, EngineError>,
    post: EngineState<R, P>,
)
    requires
        prudent::<P>(),
        sound(start.core),
        start.steppable(),
        start.steps(result, post),
    ensures
        !(result matches Err(EngineError::Alloc(_))),
        accounts::accounted(post.core),
        roster::distinct(post.core),
        post.core.pool.total() == start.core.pool.total(),
        !(result matches Err(EngineError::Runtime(_))) ==> sound(post.core),
{
    let (plan, turns, states) = choose|plan: PlanView, turns: Seq<Turn>, states: Seq<R>| #[trigger]
        start.steps_by(plan, turns, states, result, post);
    assert(capacity::correct(start.core, plan));
    assert(start.core.executable(plan));
    capacity::law_correct_plan_never_exhausts(start.core, plan, turns);
    roster::law_ids_stay_distinct(start.core, plan, turns);
    upkeep::lemma_stepped_wf(start.core, plan, turns);
    let arranged = start.core.arranged(plan);
    turns::lemma_executed_frame(arranged, plan, turns, arranged.running.len());
    if arranged.stalled() || result is Ok {
        upkeep::lemma_stepped_started(start.core, plan, turns);
    }
}

/// **The running set never exceeds the pool.** After a successful step of a
/// sound engine under a prudent policy there are no more running sequences than
/// the pool has blocks, and no more free blocks either.
pub proof fn law_running_set_fits<R: ModelRuntime, P: SchedulerPolicy>(
    start: EngineState<R, P>,
    trace: TraceView,
    post: EngineState<R, P>,
)
    requires
        prudent::<P>(),
        sound(start.core),
        start.steppable(),
        start.steps(Ok(trace), post),
    ensures
        trace.running_after <= start.core.pool.total(),
        trace.free_blocks_after <= start.core.pool.total(),
{
    let (plan, turns, states) = choose|plan: PlanView, turns: Seq<Turn>, states: Seq<R>| #[trigger]
        start.steps_by(plan, turns, states, Ok(trace), post);
    let arranged = start.core.arranged(plan);
    let n = arranged.running.len();
    assert(capacity::correct(start.core, plan));
    capacity::lemma_footprints_count(arranged.running);
    turns::lemma_executed_frame(arranged, plan, turns, n);
    let executed = arranged.executed(plan, turns, n);
    executed.engine.running.lemma_filter_len(model::is_not_done());
    assert(start.core.executable(plan));
    upkeep::lemma_stepped_wf(start.core, plan, turns);
    crate::block::law_conservation(post.core.pool);
}

/// **Unschedulable requests are reported as such.** A step under a policy that
/// ranks fails as unschedulable only if it leaves a request waiting that needs
/// more blocks than the whole pool has; the error, which names the need and the
/// pool size that the step ensures, names the smallest such need.
pub proof fn law_unschedulable_is_reported<R: ModelRuntime, P: SchedulerPolicy, K: Ranking>(
    start: EngineState<R, P>,
    needed: usize,
    capacity: usize,
    post: EngineState<R, P>,
)
    requires
        ranks_by::<P, K>(),
        start.core.wf(),
        roster::distinct(start.core),
        start.steps(Err(EngineError::Unschedulable { needed, capacity }), post),
        needed == model::unschedulable_need(post.core.waiting, post.core.pool.total()),
        capacity == post.core.pool.total(),
    ensures
        capacity == start.core.pool.total(),
        needed > capacity,
        exists|i: int|
            0 <= i < post.core.waiting.len() && (#[trigger] post.core.waiting[i]).footprint()
                == needed,
        forall|i: int|
            0 <= i < post.core.waiting.len() && (#[trigger] post.core.waiting[i]).footprint()
                > capacity ==> post.core.waiting[i].footprint() >= needed,
{
    let error = EngineError::Unschedulable { needed, capacity };
    let (plan, turns, states) = choose|plan: PlanView, turns: Seq<Turn>, states: Seq<R>| #[trigger]
        start.steps_by(plan, turns, states, Err(error), post);
    let arranged = start.core.arranged(plan);
    turns::lemma_executed_frame(arranged, plan, turns, arranged.running.len());
    assert(arranged.stalled());
    upkeep::lemma_arranged_wf(start.core, plan);
    assert(plans::queues_of(start.core) == (Queues {
        running: start.core.running,
        waiting: start.core.waiting,
    }));
    plans::law_unschedulable_means_too_large::<K>(start.core);
}

/// **What fits is never unschedulable.** If every live request fits into the
/// pool on its own, no step under a policy that ranks fails as unschedulable.
pub proof fn law_fitting_step_is_scheduled<R: ModelRuntime, P: SchedulerPolicy, K: Ranking>(
    start: EngineState<R, P>,
    result: Result<TraceView, EngineError>,
    post: EngineState<R, P>,
)
    requires
        ranks_by::<P, K>(),
        roster::distinct(start.core),
        !start.core.idle(),
        forall|i: int|
            0 <= i < start.core.waiting.len() ==> (
            #[trigger] start.core.waiting[i]).footprint() <= start.core.pool.total(),
        forall|i: int|
            0 <= i < start.core.running.len() ==> (
            #[trigger] start.core.running[i]).footprint() <= start.core.pool.total(),
        start.steps(result, post),
    ensures
        !(result matches Err(EngineError::Unschedulable { .. })),
{
    let (plan, turns, states) = choose|plan: PlanView, turns: Seq<Turn>, states: Seq<R>| #[trigger]
        start.steps_by(plan, turns, states, result, post);
    let arranged = start.core.arranged(plan);
    turns::lemma_executed_frame(arranged, plan, turns, arranged.running.len());
    plans::law_fitting_requests_are_scheduled::<K>(start.core);
    assert(plans::queues_of(start.core) == (Queues {
        running: start.core.running,
        waiting: start.core.waiting,
    }));
}

/// A run of `n` steps keeps a sound engine sound.
pub proof fn lemma_trail_sound<R: ModelRuntime, P: SchedulerPolicy>(
    trail: Seq<EngineState<R, P>>,
    traces: Seq<TraceView>,
    n: int,
)
    requires
        prudent::<P>(),
        model::runs(trail, traces),
        model::sustainable(trail[0]),
        sound(trail[0].core),
        0 <= n <= traces.len(),
    ensures
        sound(trail[n].core),
        trail[n].core.pool.total() == trail[0].core.pool.total(),
    decreases n,
{
    if n > 0 {
        lemma_trail_sound(trail, traces, n - 1);
        assert(model::runs_at(trail, traces, n - 1));
        turns::lemma_trail_steppable(trail, traces, n - 1);
        law_step_keeps_sound(trail[n - 1], Ok(traces[n - 1]), trail[n]);
    }
}

/// **Runs keep the engine sound**, under a prudent policy.
pub proof fn law_run_keeps_sound<R: ModelRuntime, P: SchedulerPolicy>(
    start: EngineState<R, P>,
    traces: Seq<TraceView>,
    post: EngineState<R, P>,
)
    requires
        prudent::<P>(),
        sound(start.core),
        model::sustainable(start),
        model::runs_to(start, traces, post),
    ensures
        sound(post.core),
        post.core.pool.total() == start.core.pool.total(),
{
    let trail = choose|trail: Seq<EngineState<R, P>>| #[trigger]
        model::runs(trail, traces) && trail[0] == start && trail.last() == post;
    lemma_trail_sound(trail, traces, traces.len() as int);
}

/// **A run never ends for want of blocks**, under a prudent policy: if it ends
/// with an error, the runtime failed or a request was unschedulable.
pub proof fn law_run_never_exhausts<R: ModelRuntime, P: SchedulerPolicy>(
    start: EngineState<R, P>,
    error: EngineError,
    post: EngineState<R, P>,
)
    requires
        prudent::<P>(),
        sound(start.core),
        model::sustainable(start),
        model::runs_into(start, error, post),
    ensures
        !(error is Alloc),
        accounts::accounted(post.core),
{
    let (traces, last) = choose|traces: Seq<TraceView>, last: EngineState<R, P>| #[trigger]
        model::runs_to(start, traces, last) && !last.core.idle() && last.steps(Err(error), post);
    law_run_keeps_sound(start, traces, last);
    law_step_keeps_sound(last, Err(error), post);
}

/// A run of `n` steps keeps every request.
proof fn lemma_trail_keeps<R: ModelRuntime, P: SchedulerPolicy>(
    trail: Seq<EngineState<R, P>>,
    traces: Seq<TraceView>,
    wanted: SeqView,
    n: int,
)
    requires
        model::runs(trail, traces),
        0 <= n <= traces.len(),
    ensures
        roster::servers(trail[n].core, wanted) == roster::servers(trail[0].core, wanted),
    decreases n,
{
    if n > 0 {
        lemma_trail_keeps(trail, traces, wanted, n - 1);
        assert(model::runs_at(trail, traces, n - 1));
        let (plan, turns, states) =
            choose|plan: PlanView, turns: Seq<Turn>, states: Seq<R>| #[trigger]
            trail[n - 1].steps_by(plan, turns, states, Ok(traces[n - 1]), trail[n]);
        roster::law_requests_are_kept(trail[n - 1].core, plan, turns, wanted);
    }
}

/// **An idle engine has served every request.** When a run has come to an idle
/// engine, each request that it was given is served by as many finished
/// sequences as the engine held for it at the start.
pub proof fn law_idle_engine_has_served_everyone<R: ModelRuntime, P: SchedulerPolicy>(
    start: EngineState<R, P>,
    traces: Seq<TraceView>,
    post: EngineState<R, P>,
    wanted: SeqView,
)
    requires
        model::runs_to(start, traces, post),
        post.core.idle(),
    ensures
        counting::sum(post.core.finished, roster::serves(wanted)) == roster::servers(
            start.core,
            wanted,
        ),
{
    let trail = choose|trail: Seq<EngineState<R, P>>| #[trigger]
        model::runs(trail, traces) && trail[0] == start && trail.last() == post;
    lemma_trail_keeps(trail, traces, wanted, traces.len() as int);
}

/// **The pool is whole again.** When a run of a sound engine under a prudent
/// policy has come to an idle engine, every block is free.
pub proof fn law_pool_is_whole_again<R: ModelRuntime, P: SchedulerPolicy>(
    start: EngineState<R, P>,
    traces: Seq<TraceView>,
    post: EngineState<R, P>,
)
    requires
        prudent::<P>(),
        sound(start.core),
        model::sustainable(start),
        model::runs_to(start, traces, post),
        post.core.idle(),
    ensures
        post.core.pool.free.len() == start.core.pool.total(),
{
    law_run_keeps_sound(start, traces, post);
    capacity::law_idle_pool_is_whole(post.core);
}

} // verus!
