//! How the turns of a step follow one another.
use vstd::prelude::*;

use super::model::{self, EngineState, EngineView, TraceView, Turn};
use super::EngineError;
use crate::metrics::EngineMetrics;
use crate::runtime::ModelRuntime;
use crate::scheduler::{PlanView, SchedulerPolicy};

verus! {

/// Turns leave alone the sequences that have not taken theirs, and everything
/// but the running set, the pool and the counters.
pub proof fn lemma_executed_frame(engine: EngineView, plan: PlanView, turns: Seq<Turn>, n: nat)
    requires
        n <= engine.running.len(),
    ensures
        ({
            let after = engine.executed(plan, turns, n).engine;
            &&& after.running.len() == engine.running.len()
            &&& forall|i: int|
                n <= i < engine.running.len() ==> #[trigger] after.running[i] == engine.running[i]
            &&& forall|i: int|
                0 <= i < engine.running.len() ==> (#[trigger] after.running[i]).id
                    == engine.running[i].id
            &&& after.waiting == engine.waiting
            &&& after.finished == engine.finished
            &&& after.config == engine.config
            &&& after.step_count == engine.step_count
            &&& after.metrics == (EngineMetrics {
                tokens_generated: after.metrics.tokens_generated,
                blocks_shared: after.metrics.blocks_shared,
                ..engine.metrics
            })
        }),
        engine.executed(plan, turns, n).error is Some ==> !(engine.executed(
            plan,
            turns,
            n,
        ).error->Some_0 is Unschedulable),
    decreases n,
{
    if n > 0 {
        lemma_executed_frame(engine, plan, turns, (n - 1) as nat);
    }
}

/// What the first turns do depends on their own answers only.
pub proof fn lemma_executed_agree(
    engine: EngineView,
    plan: PlanView,
    turns: Seq<Turn>,
    other: Seq<Turn>,
    n: nat,
)
    requires
        forall|i: int| 0 <= i < n ==> #[trigger] turns[i] == other[i],
    ensures
        engine.executed(plan, turns, n) == engine.executed(plan, other, n),
    decreases n,
{
    if n > 0 {
        lemma_executed_agree(engine, plan, turns, other, (n - 1) as nat);
        assert(turns[n - 1] == other[n - 1]);
    }
}

/// One more turn takes the runtime one state further.
pub proof fn lemma_served_push<R: ModelRuntime>(
    engine: EngineView,
    plan: PlanView,
    turns: Seq<Turn>,
    states: Seq<R>,
    turn: Turn,
    state: R,
)
    requires
        engine.served(plan, turns, turns.len(), states),
        ({
            let before = engine.executed(plan, turns, turns.len());
            let idx = turns.len() as int;
            &&& before.error is None
            &&& before.engine.consults(
                before.engine.ask(plan, idx),
                idx,
                turn,
                states.last(),
                state,
            )
        }),
    ensures
        engine.served(plan, turns.push(turn), turns.len() + 1, states.push(state)),
        engine.executed(plan, turns.push(turn), turns.len()) == engine.executed(
            plan,
            turns,
            turns.len(),
        ),
{
    let n = turns.len();
    assert forall|i: int| 0 <= i < n + 1 implies #[trigger] engine.consulted(
        plan,
        turns.push(turn),
        i,
        states.push(state),
    ) by {
        lemma_executed_agree(engine, plan, turns, turns.push(turn), i as nat);
        if i < n {
            assert(engine.consulted(plan, turns, i, states));
        }
    }
    lemma_executed_agree(engine, plan, turns, turns.push(turn), n);
}

/// An error ends the turns: the others leave engine and runtime alone.
pub proof fn lemma_executed_stuck<R: ModelRuntime>(
    engine: EngineView,
    plan: PlanView,
    turns: Seq<Turn>,
    n: nat,
    m: nat,
    states: Seq<R>,
) -> (all: Seq<R>)
    requires
        n <= m,
        engine.executed(plan, turns, n).error is Some,
        engine.served(plan, turns, n, states),
    ensures
        engine.executed(plan, turns, m) == engine.executed(plan, turns, n),
        engine.served(plan, turns, m, all),
        all[0] == states[0],
        all.last() == states.last(),
    decreases m,
{
    if n == m {
        states
    } else {
        let k = (m - 1) as nat;
        let before = lemma_executed_stuck(engine, plan, turns, n, k, states);
        let all = before.push(before.last());
        assert forall|i: int| 0 <= i < m implies #[trigger] engine.consulted(
            plan,
            turns,
            i,
            all,
        ) by {
            if i < k {
                assert(engine.consulted(plan, turns, i, before));
            }
        }
        all
    }
}

/// A step that finds nothing it can run.
pub proof fn lemma_step_stalled<R: ModelRuntime, P: SchedulerPolicy>(
    start: EngineState<R, P>,
    plan: PlanView,
    error: EngineError,
    post: EngineState<R, P>,
)
    requires
        P::plans(
            start.policy,
            start.core.waiting,
            start.core.running,
            start.core.pool,
            plan,
            post.policy,
        ),
        post.core == start.core.arranged(plan),
        post.runtime == start.runtime,
        post.core.stalled(),
        error == (EngineError::Unschedulable {
            needed: model::unschedulable_need(post.core.waiting, post.core.pool.total()) as usize,
            capacity: post.core.pool.total() as usize,
        }),
    ensures
        start.steps(Err(error), post),
{
    assert(start.steps_by(plan, Seq::empty(), seq![post.runtime], Err(error), post));
}

/// A step that ends with an error in the middle.
pub proof fn lemma_step_failed<R: ModelRuntime, P: SchedulerPolicy>(
    start: EngineState<R, P>,
    plan: PlanView,
    arranged: EngineState<R, P>,
    turns: Seq<Turn>,
    states: Seq<R>,
    error: EngineError,
    post: EngineState<R, P>,
)
    requires
        P::plans(
            start.policy,
            start.core.waiting,
            start.core.running,
            start.core.pool,
            plan,
            post.policy,
        ),
        arranged.core == start.core.arranged(plan),
        arranged.runtime == start.runtime,
        !arranged.core.stalled(),
        arranged.executes(plan, turns, states, Some(error), post),
    ensures
        start.steps(Err(error), post),
{
    assert(start.steps_by(plan, turns, states, Err(error), post));
}

/// A step that comes to its end.
pub proof fn lemma_step_done<R: ModelRuntime, P: SchedulerPolicy>(
    start: EngineState<R, P>,
    plan: PlanView,
    arranged: EngineState<R, P>,
    turns: Seq<Turn>,
    states: Seq<R>,
    executed: EngineState<R, P>,
    trace: TraceView,
    post: EngineState<R, P>,
)
    requires
        P::plans(
            start.policy,
            start.core.waiting,
            start.core.running,
            start.core.pool,
            plan,
            post.policy,
        ),
        arranged.core == start.core.arranged(plan),
        arranged.runtime == start.runtime,
        !arranged.core.stalled(),
        arranged.executes(plan, turns, states, None, executed),
        post.runtime == executed.runtime,
        post.core == executed.core.concluded(),
        trace == (TraceView {
            step: start.core.step_count,
            admitted: model::ids_of(
                start.core.after_preempt(plan.preempt).admissible(plan.prefill),
            ),
            decoded: arranged.core.decoded(plan),
            preempted: model::ids_of(start.core.evicted(plan.preempt)),
            finished: model::ids_of(executed.core.running.filter(model::is_done())),
            running_after: post.core.running.len(),
            free_blocks_after: post.core.pool.free.len(),
        }),
    ensures
        start.steps(Ok(trace), post),
{
    assert(start.steps_by(plan, turns, states, Ok(trace), post));
}

/// A run goes on with one step more.
pub proof fn lemma_runs_on<R: ModelRuntime, P: SchedulerPolicy>(
    start: EngineState<R, P>,
    traces: Seq<TraceView>,
    last: EngineState<R, P>,
    trace: TraceView,
    post: EngineState<R, P>,
)
    requires
        model::runs_to(start, traces, last),
        !last.core.idle(),
        last.steps(Ok(trace), post),
    ensures
        model::runs_to(start, traces.push(trace), post),
{
    let trail = choose|trail: Seq<EngineState<R, P>>| #[trigger]
        model::runs(trail, traces) && trail[0] == start && trail.last() == last;
    let longer = trail.push(post);
    assert forall|i: int| 0 <= i < traces.len() + 1 implies #[trigger] model::runs_at(
        longer,
        traces.push(trace),
        i,
    ) by {
        if i < traces.len() {
            assert(model::runs_at(trail, traces, i));
        }
    }
    assert(model::runs(longer, traces.push(trace)));
}

/// The beginning of a run is a run.
pub proof fn lemma_trail_prefix<R: ModelRuntime, P: SchedulerPolicy>(
    trail: Seq<EngineState<R, P>>,
    traces: Seq<TraceView>,
    n: int,
)
    requires
        model::runs(trail, traces),
        0 <= n <= traces.len(),
    ensures
        model::runs_to(trail[0], traces.take(n), trail[n]),
{
    let part = trail.take(n + 1);
    assert forall|i: int| 0 <= i < n implies #[trigger] model::runs_at(
        part,
        traces.take(n),
        i,
    ) by {
        assert(model::runs_at(trail, traces, i));
    }
    assert(model::runs(part, traces.take(n)));
}

/// On the way of a sustainable run, every step can be taken.
pub proof fn lemma_trail_steppable<R: ModelRuntime, P: SchedulerPolicy>(
    trail: Seq<EngineState<R, P>>,
    traces: Seq<TraceView>,
    n: int,
)
    requires
        model::runs(trail, traces),
        model::sustainable(trail[0]),
        0 <= n < traces.len(),
    ensures
        trail[n].steppable(),
{
    lemma_trail_prefix(trail, traces, n);
    assert(model::runs_at(trail, traces, n));
}

} // verus!
