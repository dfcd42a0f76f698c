//! The engine gets on with its work.
use vstd::prelude::*;

use super::service;
use super::{plans, replay, roster};
use crate::counting;
use crate::engine::model::{self, EngineState, EngineView, TraceView, Turn};
use crate::engine::{turns, upkeep};
use crate::mock::{MockRuntime, ScriptView};
use crate::scheduler::rank::{self, Ranking};
use crate::scheduler::{PlanView, SchedulerPolicy, Slot};
use crate::sequence::{SeqState, SeqView};

verus! {

/// **Nobody idles.** When ids are distinct, every sequence that runs once a plan
/// for the chosen places is applied takes part in the step.
pub proof fn law_nobody_idles(engine: EngineView, chosen: spec_fn(Slot) -> bool, i: int)
    requires
        roster::distinct(engine),
        0 <= i < engine.arranged(plans::queues_of(engine).plan_for(chosen)).running.len(),
    ensures
        ({
            let plan = plans::queues_of(engine).plan_for(chosen);
            !(engine.arranged(plan).ask(plan, i) is Idle)
        }),
{
    let plan = plans::queues_of(engine).plan_for(chosen);
    let mid = engine.after_preempt(plan.preempt);
    let arranged = engine.arranged(plan);
    plans::law_plan_partitions(engine, chosen);
    if i < mid.running.len() {
        let j = upkeep::lemma_filter_source(engine.running, model::not_named_in(plan.preempt), i);
        assert(arranged.running[i] == engine.running[j]);
    } else {
        let k = i - mid.running.len();
        let j = upkeep::lemma_filter_source(mid.waiting, model::named_in(plan.prefill), k);
        assert(arranged.running[i].id == mid.waiting[j].id);
    }
}

/// What is left of a sequence's script.
pub open spec fn left_of(scripts: Map<u64, ScriptView>) -> spec_fn(SeqView) -> nat {
    |seq: SeqView|
        if scripts.contains_key(seq.id.0) && seq.output.len() <= scripts[seq.id.0].tokens.len() {
            (scripts[seq.id.0].tokens.len() - seq.output.len()) as nat
        } else {
            0
        }
}

/// What is left of the scripts of all live sequences.
pub open spec fn left(engine: EngineView, scripts: Map<u64, ScriptView>) -> nat {
    roster::live_weight(engine, left_of(scripts))
}

/// What is left of a script if its sequence has not finished.
pub open spec fn left_if_live(scripts: Map<u64, ScriptView>) -> spec_fn(SeqView) -> nat {
    counting::kept_weight(model::is_not_done(), left_of(scripts))
}

/// Each turn of a sequence that takes part uses up a token of its script.
proof fn lemma_executed_uses_tokens(
    engine: EngineView,
    plan: PlanView,
    turns: Seq<Turn>,
    states: Seq<MockRuntime>,
    n: nat,
)
    requires
        roster::distinct(engine),
        ({
            let arranged = engine.arranged(plan);
            let len = arranged.running.len();
            &&& arranged.mid_step(plan, 0)
            &&& replay::follows_until(arranged, states[0]@, 0)
            &&& arranged.served(plan, turns, len, states)
            &&& arranged.executed(plan, turns, len).error is None
            &&& n <= len
            &&& forall|i: int| 0 <= i < len ==> !(#[trigger] arranged.ask(plan, i) is Idle)
        }),
    ensures
        ({
            let arranged = engine.arranged(plan);
            let weight = left_if_live(states[0]@);
            counting::sum(arranged.executed(plan, turns, n).engine.running, weight) + n
                <= counting::sum(arranged.running, weight)
        }),
    decreases n,
{
    if n > 0 {
        let arranged = engine.arranged(plan);
        let len = arranged.running.len();
        let k = (n - 1) as nat;
        let idx = n - 1;
        let scripts = states[0]@;
        let weight = left_if_live(scripts);
        lemma_executed_uses_tokens(engine, plan, turns, states, k);
        replay::lemma_no_error_before(arranged, plan, turns, k, len);
        replay::lemma_no_error_before(arranged, plan, turns, n, len);
        replay::lemma_executed_follows(engine, plan, turns, states, k);
        turns::lemma_executed_frame(arranged, plan, turns, k);
        upkeep::lemma_executed_mid_step(arranged, plan, turns, k);
        let before = arranged.executed(plan, turns, k).engine;
        let after = arranged.executed(plan, turns, n).engine;
        let seq = before.running[idx];
        assert(seq == arranged.running[idx]);
        assert(before.ask(plan, idx) == arranged.ask(plan, idx));
        assert(!(arranged.ask(plan, idx) is Idle));
        assert(arranged.consulted(plan, turns, idx, states));
        assert(seq.state != SeqState::Finished);
        assert(replay::tracks(states[idx]@, before.config.eos_token, seq));
        assert(scripts.contains_key(seq.id.0) <==> states[idx]@.contains_key(seq.id.0)) by {
            assert(scripts.dom().contains(seq.id.0) == states[idx]@.dom().contains(seq.id.0));
        }
        assert(after.running =~= before.running.update(idx, after.running[idx]));
        counting::lemma_sum_update(before.running, idx, after.running[idx], weight);
        assert(weight(after.running[idx]) + 1 <= weight(seq));
    }
}

/// Scripts that are the same have as much left.
proof fn lemma_left_same(engine: EngineView, a: Map<u64, ScriptView>, b: Map<u64, ScriptView>)
    requires
        replay::same_scripts(a, b),
    ensures
        left(engine, a) == left(engine, b),
{
    assert forall|seq: SeqView| #[trigger] left_of(a)(seq) == left_of(b)(seq) by {
        assert(a.contains_key(seq.id.0) <==> b.contains_key(seq.id.0)) by {
            assert(a.dom().contains(seq.id.0) == b.dom().contains(seq.id.0));
        }
    }
    counting::lemma_sum_same(engine.waiting, left_of(a), left_of(b));
    counting::lemma_sum_same(engine.running, left_of(a), left_of(b));
}

/// **Every step makes progress.** A successful step under a policy that ranks,
/// taken while work remains, uses up at least one token of the scripts.
pub proof fn law_step_makes_progress<P: SchedulerPolicy, K: Ranking>(
    start: EngineState<MockRuntime, P>,
    trace: TraceView,
    post: EngineState<MockRuntime, P>,
)
    requires
        service::ranks_by::<P, K>(),
        start.core.wf(),
        start.steppable(),
        roster::distinct(start.core),
        replay::follows(start.core, start.runtime@),
        !start.core.idle(),
        start.steps(Ok(trace), post),
    ensures
        left(post.core, start.runtime@) < left(start.core, start.runtime@),
{
    let (plan, turns, states) =
        choose|plan: PlanView, turns: Seq<Turn>, states: Seq<MockRuntime>| #[trigger]
        start.steps_by(plan, turns, states, Ok(trace), post);
    let engine = start.core;
    let queues = plans::queues_of(engine);
    let chosen = rank::affordable::<K>(queues, engine.pool.total());
    assert(plan == queues.plan_for(chosen));
    let arranged = engine.arranged(plan);
    let n = arranged.running.len();
    let scripts = start.runtime@;
    let weight = left_of(scripts);
    assert(engine.executable(plan));
    upkeep::lemma_stepped_wf(engine, plan, turns);
    replay::lemma_arranged_follows(engine, plan, scripts);
    assert forall|i: int| 0 <= i < n implies !(#[trigger] arranged.ask(plan, i) is Idle) by {
        law_nobody_idles(engine, chosen, i);
    }
    lemma_executed_uses_tokens(engine, plan, turns, states, n);
    turns::lemma_executed_frame(arranged, plan, turns, n);
    roster::lemma_arranged_weight(engine, plan, weight);
    let executed = arranged.executed(plan, turns, n).engine;
    assert forall|i: int| 0 <= i < n implies left_if_live(scripts)(
        #[trigger] arranged.running[i],
    ) == weight(arranged.running[i]) by {}
    counting::lemma_sum_same(arranged.running, left_if_live(scripts), weight);
    counting::lemma_sum_filter(executed.running, model::is_not_done(), weight);
    if n == 0 {
        // Then nothing waits either, and there was no live sequence to begin with.
        let seq = if engine.waiting.len() > 0 {
            engine.waiting[0]
        } else {
            engine.running[0]
        };
        let same = roster::has_id(seq.id);
        roster::lemma_arranged_weight(engine, plan, same);
        if engine.waiting.len() > 0 {
            counting::lemma_sum_one(engine.waiting, 0, same);
        } else {
            counting::lemma_sum_one(engine.running, 0, same);
        }
    }
}

/// A run of `n` steps uses up `n` tokens of the scripts.
proof fn lemma_trail_bounded<P: SchedulerPolicy, K: Ranking>(
    trail: Seq<EngineState<MockRuntime, P>>,
    traces: Seq<TraceView>,
    n: int,
)
    requires
        service::ranks_by::<P, K>(),
        model::runs(trail, traces),
        model::sustainable(trail[0]),
        trail[0].core.wf(),
        roster::distinct(trail[0].core),
        replay::follows(trail[0].core, trail[0].runtime@),
        0 <= n <= traces.len(),
    ensures
        n + left(trail[n].core, trail[0].runtime@) <= left(trail[0].core, trail[0].runtime@),
    decreases n,
{
    if n > 0 {
        lemma_trail_bounded::<P, K>(trail, traces, n - 1);
        replay::lemma_trail_follows(trail, traces, n - 1);
        assert(model::runs_at(trail, traces, n - 1));
        turns::lemma_trail_steppable(trail, traces, n - 1);
        law_step_makes_progress::<P, K>(trail[n - 1], traces[n - 1], trail[n]);
        lemma_left_same(trail[n - 1].core, trail[0].runtime@, trail[n - 1].runtime@);
        lemma_left_same(trail[n].core, trail[0].runtime@, trail[n - 1].runtime@);
    }
}

/// **Runs come to an end.** A run under a policy that ranks takes at most as
/// many steps as there are tokens left in the scripts of its live sequences, so
/// it either reaches an idle engine or stops with an error.
pub proof fn law_runs_are_bounded<P: SchedulerPolicy, K: Ranking>(
    start: EngineState<MockRuntime, P>,
    traces: Seq<TraceView>,
    post: EngineState<MockRuntime, P>,
)
    requires
        service::ranks_by::<P, K>(),
        start.core.wf(),
        model::sustainable(start),
        roster::distinct(start.core),
        replay::follows(start.core, start.runtime@),
        model::runs_to(start, traces, post),
    ensures
        traces.len() + left(post.core, start.runtime@) <= left(start.core, start.runtime@),
{
    let trail = choose|trail: Seq<EngineState<MockRuntime, P>>| #[trigger]
        model::runs(trail, traces) && trail[0] == start && trail.last() == post;
    lemma_trail_bounded::<P, K>(trail, traces, traces.len() as int);
}

} // verus!
