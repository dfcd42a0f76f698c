//! New engines, new requests, and runs as a whole.
use vstd::prelude::*;

use super::{roster, service};
use crate::block::PoolView;
use crate::counting;
use crate::engine::model::{self, EngineState, EngineView, TraceView};
use crate::engine::{EngineConfig, EngineError, StepTrace};
use crate::ids::SeqId;
use crate::runtime::ModelRuntime;
use crate::scheduler::{self, SchedulerPolicy, StepPlan};
use crate::sequence::{self, SeqView, Sequence};

verus! {

/// **A new engine holds its pool and nothing else.**
pub proof fn law_new_engine_is_empty(pool: PoolView, config: EngineConfig)
    ensures
        ({
            let engine = EngineView::fresh(pool, config);
            &&& engine.waiting.len() == 0
            &&& engine.running.len() == 0
            &&& engine.finished.len() == 0
            &&& engine.pool == pool
            &&& engine.config == config
            &&& engine.step_count == 0
            &&& engine.metrics.steps == 0
            &&& engine.metrics.sequences_admitted == 0
            &&& engine.metrics.sequences_finished == 0
            &&& engine.metrics.tokens_generated == 0
            &&& engine.metrics.preemptions == 0
            &&& engine.metrics.preemptions_recompute == 0
            &&& engine.metrics.preemptions_swap == 0
            &&& engine.metrics.blocks_shared == 0
        }),
{
}

/// **Submitting queues.** Whatever runs, and whatever the request, the waiting
/// queue is longer by one, with the request at its end and those before it
/// unchanged; nothing else changes. One live sequence more has the request's id.
pub proof fn law_submitting_queues_at_the_end(engine: EngineView, seq: SeqView)
    ensures
        ({
            let after = engine.submitted(seq);
            let n = engine.waiting.len() as int;
            &&& after.waiting.len() == n + 1
            &&& after.waiting[n] == seq
            &&& after.waiting.take(n) == engine.waiting
            &&& after.running == engine.running
            &&& after.finished == engine.finished
            &&& after.pool == engine.pool
            &&& after.config == engine.config
            &&& after.metrics == engine.metrics
            &&& after.step_count == engine.step_count
        }),
        forall|id: SeqId| #[trigger]
            roster::live_weight(engine.submitted(seq), roster::has_id(id)) == roster::live_weight(
                engine,
                roster::has_id(id),
            ) + if seq.id == id {
                1nat
            } else {
                0nat
            },
{
    let after = engine.submitted(seq);
    assert(after.waiting.take(engine.waiting.len() as int) =~= engine.waiting);
    assert forall|id: SeqId| #[trigger]
        roster::live_weight(after, roster::has_id(id)) == roster::live_weight(
            engine,
            roster::has_id(id),
        ) + if seq.id == id {
            1nat
        } else {
            0nat
        } by {
        counting::lemma_sum_push(engine.waiting, seq, roster::has_id(id));
    }
}

/// Two sequences serve the same request: they have the same id, prompt, priority,
/// sampling configuration and arrival.
pub open spec fn same_request(a: SeqView, b: SeqView) -> bool {
    &&& a.id == b.id
    &&& a.prompt == b.prompt
    &&& a.priority == b.priority
    &&& a.sampling == b.sampling
    &&& a.arrival == b.arrival
}

/// A positive sum has a positive part.
proof fn lemma_some_part(seqs: Seq<SeqView>, weight: spec_fn(SeqView) -> nat) -> (i: int)
    requires
        counting::sum(seqs, weight) > 0,
    ensures
        0 <= i < seqs.len(),
        weight(seqs[i]) > 0,
    decreases seqs.len(),
{
    if weight(seqs.last()) > 0 {
        seqs.len() - 1
    } else {
        lemma_some_part(seqs.drop_last(), weight)
    }
}

/// **A submitted request is served.** When the engine to which it was submitted,
/// in whatever state, has run until it is idle, a finished sequence serves it.
pub proof fn law_submitted_request_is_finished<R: ModelRuntime, P: SchedulerPolicy>(
    engine: EngineView,
    seq: SeqView,
    start: EngineState<R, P>,
    traces: Seq<TraceView>,
    post: EngineState<R, P>,
) -> (i: int)
    requires
        start.core == engine.submitted(seq),
        model::runs_to(start, traces, post),
        post.core.waiting.len() == 0,
        post.core.running.len() == 0,
    ensures
        0 <= i < post.core.finished.len(),
        same_request(post.core.finished[i], seq),
{
    let wanted = roster::request(seq);
    let weight = roster::serves(wanted);
    service::law_idle_engine_has_served_everyone(start, traces, post, wanted);
    law_submitting_queues_at_the_end(engine, seq);
    counting::lemma_sum_one(start.core.waiting, engine.waiting.len() as int, weight);
    let i = lemma_some_part(post.core.finished, weight);
    assert(roster::request(post.core.finished[i]) == wanted);
    let (a, b) = (roster::request(post.core.finished[i]), wanted);
    assert(a.id == b.id && a.prompt == b.prompt && a.priority == b.priority);
    assert(a.sampling == b.sampling && a.arrival == b.arrival);
    i
}

/// **Idle means that nothing waits and nothing runs.**
pub proof fn law_idle_means_no_work(engine: EngineView)
    ensures
        engine.idle() <==> engine.waiting.len() == 0 && engine.running.len() == 0,
{
}

/// **A run is one step after the other, while there is work.** A run without steps
/// leaves everything as it is; any other begins with a successful step, taken
/// while something waits or runs, that gives the first trace.
pub proof fn law_runs_go_step_by_step<R: ModelRuntime, P: SchedulerPolicy>(
    start: EngineState<R, P>,
    traces: Seq<TraceView>,
    post: EngineState<R, P>,
) -> (next: EngineState<R, P>)
    requires
        model::runs_to(start, traces, post),
    ensures
        traces.len() == 0 ==> post == start,
        traces.len() > 0 ==> {
            &&& start.core.waiting.len() + start.core.running.len() > 0
            &&& start.steps(Ok(traces[0]), next)
            &&& model::runs_to(next, traces.skip(1), post)
        },
{
    let trail = choose|trail: Seq<EngineState<R, P>>| #[trigger]
        model::runs(trail, traces) && trail[0] == start && trail.last() == post;
    if traces.len() == 0 {
        start
    } else {
        let rest = trail.skip(1);
        assert(model::runs_at(trail, traces, 0));
        assert forall|i: int| 0 <= i < traces.len() - 1 implies #[trigger] model::runs_at(
            rest,
            traces.skip(1),
            i,
        ) by {
            assert(model::runs_at(trail, traces, i + 1));
        }
        assert(model::runs(rest, traces.skip(1)));
        assert(rest.last() == post);
        trail[1]
    }
}

/// **A run that fails does so in a step.** It goes through successful steps to a
/// state in which there is work, and the step from there fails with the error.
pub proof fn law_failing_runs_fail_in_a_step<R: ModelRuntime, P: SchedulerPolicy>(
    start: EngineState<R, P>,
    error: EngineError,
    post: EngineState<R, P>,
) -> (way: (Seq<TraceView>, EngineState<R, P>))
    requires
        model::runs_into(start, error, post),
    ensures
        model::runs_to(start, way.0, way.1),
        way.1.core.waiting.len() + way.1.core.running.len() > 0,
        way.1.steps(Err(error), post),
{
    let (traces, last) = choose|traces: Seq<TraceView>, last: EngineState<R, P>| #[trigger]
        model::runs_to(start, traces, last) && !last.core.idle() && last.steps(Err(error), post);
    (traces, last)
}

/// **The views of sequences are those of each.**
pub proof fn law_views_are_one_for_one(seqs: Seq<Sequence>)
    ensures
        sequence::seq_views(seqs).len() == seqs.len(),
        forall|i: int|
            0 <= i < seqs.len() ==> #[trigger] sequence::seq_views(seqs)[i] == seqs[i]@,
{
}

/// **What a step returns is what its trace holds**, or the error.
pub proof fn law_outcomes_are_what_was_returned(trace: StepTrace, error: EngineError)
    ensures
        model::outcome(Ok(trace)) == Ok::<TraceView, EngineError>(trace@),
        model::outcome(Err(error)) == Err::<TraceView, EngineError>(error),
        trace@.step == trace.step,
        trace@.admitted == trace.admitted@,
        trace@.decoded == trace.decoded@,
        trace@.preempted == trace.preempted@,
        trace@.finished == trace.finished@,
        trace@.running_after == trace.running_after,
        trace@.free_blocks_after == trace.free_blocks_after,
{
}

/// **The traces of a run are those of its steps**, one for one.
pub proof fn law_traces_are_one_for_one(traces: Seq<StepTrace>)
    ensures
        model::trace_views(traces).len() == traces.len(),
        forall|i: int|
            0 <= i < traces.len() ==> #[trigger] model::trace_views(traces)[i] == traces[i]@,
{
}

/// **What a policy returns is what its plan holds**, and what it is shown are the
/// queues.
pub proof fn law_plans_are_what_was_returned(
    plan: StepPlan,
    running: Seq<Sequence>,
    waiting: Seq<Sequence>,
)
    ensures
        plan@.prefill == plan.prefill@,
        plan@.decode == plan.decode@,
        plan@.preempt == plan.preempt@,
        scheduler::queues(running, waiting).running == sequence::seq_views(running),
        scheduler::queues(running, waiting).waiting == sequence::seq_views(waiting),
{
}

} // verus!
