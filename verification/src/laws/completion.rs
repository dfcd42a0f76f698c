//! Cooperative input is served: requests that the scripts let finish within the
//! pool all do.
use vstd::prelude::*;

use super::{capacity, plans, replay, roster, service};
use crate::{block, counting};
use crate::engine::model::{self, EngineState, EngineView, TraceView, Turn};
use crate::engine::{turns, upkeep, EngineError};
use crate::ids::TokenId;
use crate::mock::{self, MockRuntime, ScriptView};
use crate::scheduler::rank::{self, Ranking};
use crate::scheduler::{PlanView, SchedulerPolicy};
use crate::sequence::{SeqState, SeqView};

verus! {

/// The most tokens for which a sequence that generates `output` needs room. It
/// needs room for one token more than it has as long as it runs: a sequence that
/// stops at its limit does so with its last token, one that stops at the
/// end-of-sequence token asks for room for that one too.
pub open spec fn peak_len(seq: SeqView, output: Seq<TokenId>) -> nat {
    if seq.sampling.max_tokens > 0 && output.len() == seq.sampling.max_tokens {
        seq.prompt.len() + output.len()
    } else {
        seq.prompt.len() + output.len() + 1
    }
}

/// The request of `seq` is scripted, its script lets it finish, and it fits into
/// `total` blocks until it does.
pub open spec fn can_complete(
    scripts: Map<u64, ScriptView>,
    eos: Option<TokenId>,
    total: nat,
    seq: SeqView,
) -> bool {
    &&& scripts.contains_key(seq.id.0)
    &&& exists|output: Seq<TokenId>|
        {
            &&& #[trigger] replay::is_complete(
                scripts[seq.id.0].tokens,
                eos,
                seq.sampling.max_tokens,
                output,
            )
            &&& block::blocks_covering(peak_len(seq, output)) <= total
        }
}

/// One if the request cannot complete.
pub open spec fn hopeless(
    scripts: Map<u64, ScriptView>,
    eos: Option<TokenId>,
    total: nat,
) -> spec_fn(SeqView) -> nat {
    |seq: SeqView|
        if can_complete(scripts, eos, total, seq) {
            0
        } else {
            1
        }
}

/// Every waiting and every running sequence can complete.
pub open spec fn cooperative(engine: EngineView, scripts: Map<u64, ScriptView>) -> bool {
    let eos = engine.config.eos_token;
    let total = engine.pool.total();
    &&& forall|i: int|
        0 <= i < engine.waiting.len() ==> can_complete(
            scripts,
            eos,
            total,
            #[trigger] engine.waiting[i],
        )
    &&& forall|i: int|
        0 <= i < engine.running.len() ==> can_complete(
            scripts,
            eos,
            total,
            #[trigger] engine.running[i],
        )
}

/// Being able to complete is a matter of the request.
proof fn lemma_hopeless_is_steady(
    scripts: Map<u64, ScriptView>,
    eos: Option<TokenId>,
    total: nat,
)
    ensures
        roster::steady(hopeless(scripts, eos, total)),
{
    assert forall|seq: SeqView, other: SeqView|
        roster::request(seq) == roster::request(other) implies #[trigger] hopeless(
        scripts,
        eos,
        total,
    )(seq) == #[trigger] hopeless(scripts, eos, total)(other) by {
        let (a, b) = (roster::request(seq), roster::request(other));
        assert(a.id == seq.id && b.id == other.id);
        assert(a.prompt == seq.prompt && b.prompt == other.prompt);
        assert(a.sampling == seq.sampling && b.sampling == other.sampling);
        assert forall|output: Seq<TokenId>| peak_len(seq, output) == #[trigger] peak_len(
            other,
            output,
        ) by {}
    }
}

/// Every live sequence can complete iff there is no hopeless one.
proof fn lemma_cooperative_weight(engine: EngineView, scripts: Map<u64, ScriptView>)
    ensures
        cooperative(engine, scripts) <==> roster::live_weight(
            engine,
            hopeless(scripts, engine.config.eos_token, engine.pool.total()),
        ) == 0,
{
    let weight = hopeless(scripts, engine.config.eos_token, engine.pool.total());
    if cooperative(engine, scripts) {
        counting::lemma_sum_nothing(engine.waiting, weight);
        counting::lemma_sum_nothing(engine.running, weight);
    }
    if roster::live_weight(engine, weight) == 0 {
        assert forall|i: int| 0 <= i < engine.waiting.len() implies can_complete(
            scripts,
            engine.config.eos_token,
            engine.pool.total(),
            #[trigger] engine.waiting[i],
        ) by {
            counting::lemma_sum_one(engine.waiting, i, weight);
        }
        assert forall|i: int| 0 <= i < engine.running.len() implies can_complete(
            scripts,
            engine.config.eos_token,
            engine.pool.total(),
            #[trigger] engine.running[i],
        ) by {
            counting::lemma_sum_one(engine.running, i, weight);
        }
    }
}

/// Scripts that are the same let the same requests complete.
proof fn lemma_same_scripts_cooperate(
    engine: EngineView,
    a: Map<u64, ScriptView>,
    b: Map<u64, ScriptView>,
)
    requires
        replay::same_scripts(a, b),
        cooperative(engine, a),
    ensures
        cooperative(engine, b),
{
    let eos = engine.config.eos_token;
    let total = engine.pool.total();
    assert forall|seq: SeqView| #[trigger] can_complete(a, eos, total, seq) implies can_complete(
        b,
        eos,
        total,
        seq,
    ) by {
        assert(a.dom().contains(seq.id.0) == b.dom().contains(seq.id.0));
    }
    assert forall|i: int| 0 <= i < engine.waiting.len() implies can_complete(
        b,
        eos,
        total,
        #[trigger] engine.waiting[i],
    ) by {
        assert(can_complete(a, eos, total, engine.waiting[i]));
    }
    assert forall|i: int| 0 <= i < engine.running.len() implies can_complete(
        b,
        eos,
        total,
        #[trigger] engine.running[i],
    ) by {
        assert(can_complete(a, eos, total, engine.running[i]));
    }
}

/// A live sequence that can complete fits into the pool with one token more, and
/// has a token left.
proof fn lemma_has_a_token_left(
    scripts: Map<u64, ScriptView>,
    eos: Option<TokenId>,
    total: nat,
    seq: SeqView,
)
    requires
        replay::tracks(scripts, eos, seq),
        can_complete(scripts, eos, total, seq),
    ensures
        seq.footprint() <= total,
        mock::next_reply(scripts, seq.id) is Ok,
{
    let tokens = scripts[seq.id.0].tokens;
    let output = choose|output: Seq<TokenId>|
        {
            &&& #[trigger] replay::is_complete(tokens, eos, seq.sampling.max_tokens, output)
            &&& block::blocks_covering(peak_len(seq, output)) <= total
        };
    if seq.output.len() > output.len() {
        assert(seq.output[output.len() as int] == tokens[output.len() as int]);
    }
    assert(seq.len() + 1 <= peak_len(seq, output));
}

/// No turn of a cooperative engine fails.
proof fn lemma_executed_cooperates(
    engine: EngineView,
    plan: PlanView,
    turns: Seq<Turn>,
    states: Seq<MockRuntime>,
    n: nat,
)
    requires
        service::sound(engine),
        engine.executable(plan),
        capacity::correct(engine, plan),
        replay::follows(engine, states[0]@),
        cooperative(engine, states[0]@),
        engine.arranged(plan).served(plan, turns, engine.arranged(plan).running.len(), states),
        n <= engine.arranged(plan).running.len(),
    ensures
        engine.arranged(plan).executed(plan, turns, n).error is None,
    decreases n,
{
    if n > 0 {
        let arranged = engine.arranged(plan);
        let k = (n - 1) as nat;
        let idx = n - 1;
        let eos = engine.config.eos_token;
        let total = engine.pool.total();
        lemma_executed_cooperates(engine, plan, turns, states, k);
        upkeep::lemma_stepped_wf(engine, plan, turns);
        upkeep::lemma_arranged_wf(engine, plan);
        replay::lemma_arranged_follows(engine, plan, states[0]@);
        replay::lemma_executed_follows(engine, plan, turns, states, k);
        upkeep::lemma_executed_mid_step(arranged, plan, turns, k);
        turns::lemma_executed_frame(arranged, plan, turns, k);
        capacity::lemma_turns_never_exhaust(engine, plan, turns, n);
        lemma_arranged_cooperates(engine, plan, states[0]@);
        let before = arranged.executed(plan, turns, k).engine;
        let seq = before.running[idx];
        assert(seq == arranged.running[idx]);
        assert(seq.state != SeqState::Finished);
        assert(replay::tracks(states[idx]@, eos, seq));
        lemma_same_scripts_cooperate(arranged, states[0]@, states[idx]@);
        assert(can_complete(states[idx]@, eos, total, arranged.running[idx]));
        lemma_has_a_token_left(states[idx]@, eos, total, seq);
        assert(arranged.consulted(plan, turns, idx, states));
    }
}

/// Applying a plan to the queues leaves an engine cooperative.
proof fn lemma_arranged_cooperates(
    engine: EngineView,
    plan: PlanView,
    scripts: Map<u64, ScriptView>,
)
    requires
        engine.wf(),
        cooperative(engine, scripts),
    ensures
        cooperative(engine.arranged(plan), scripts),
{
    let weight = hopeless(scripts, engine.config.eos_token, engine.pool.total());
    upkeep::lemma_arranged_wf(engine, plan);
    lemma_hopeless_is_steady(scripts, engine.config.eos_token, engine.pool.total());
    lemma_cooperative_weight(engine, scripts);
    roster::lemma_moves_keep(weight);
    roster::lemma_arranged_weight(engine, plan, weight);
    lemma_cooperative_weight(engine.arranged(plan), scripts);
}

/// **A cooperative step succeeds.** With the scripted runtime and a policy that
/// ranks, if every live request can complete within the pool then a step does
/// not fail, and every live request can still complete.
pub proof fn law_cooperative_step_succeeds<P: SchedulerPolicy, K: Ranking>(
    start: EngineState<MockRuntime, P>,
    result: Result<TraceView, EngineError>,
    post: EngineState<MockRuntime, P>,
)
    requires
        service::ranks_by::<P, K>(),
        service::sound(start.core),
        start.steppable(),
        replay::follows(start.core, start.runtime@),
        cooperative(start.core, start.runtime@),
        start.steps(result, post),
    ensures
        result is Ok,
        cooperative(post.core, post.runtime@),
{
    let (plan, turns, states) =
        choose|plan: PlanView, turns: Seq<Turn>, states: Seq<MockRuntime>| #[trigger]
        start.steps_by(plan, turns, states, result, post);
    let engine = start.core;
    let scripts = start.runtime@;
    let eos = engine.config.eos_token;
    let total = engine.pool.total();
    let arranged = engine.arranged(plan);
    assert(engine.executable(plan));
    service::law_ranking_is_prudent::<P, K>();
    assert(capacity::correct(engine, plan));
    upkeep::lemma_arranged_wf(engine, plan);
    replay::lemma_arranged_follows(engine, plan, scripts);
    lemma_arranged_cooperates(engine, plan, scripts);
    if arranged.stalled() {
        assert(plan == rank::ranked_plan::<K>(plans::queues_of(engine), total));
        plans::law_unschedulable_means_too_large::<K>(engine);
        let needed = model::unschedulable_need(arranged.waiting, total);
        let i = choose|i: int|
            0 <= i < arranged.waiting.len() && (#[trigger] arranged.waiting[i]).footprint()
                == needed;
        lemma_has_a_token_left(scripts, eos, total, arranged.waiting[i]);
    } else {
        lemma_executed_cooperates(engine, plan, turns, states, arranged.running.len());
    }
    let trace = result->Ok_0;
    replay::law_step_follows_the_scripts(start, trace, post);
    upkeep::lemma_stepped_wf(engine, plan, turns);
    lemma_hopeless_is_steady(scripts, eos, total);
    lemma_cooperative_weight(engine, scripts);
    roster::lemma_stepped_weight(engine, plan, turns, hopeless(scripts, eos, total));
    lemma_cooperative_weight(post.core, scripts);
    lemma_same_scripts_cooperate(post.core, scripts, post.runtime@);
}

/// Along a run, a cooperative engine stays one.
proof fn lemma_trail_cooperates<P: SchedulerPolicy, K: Ranking>(
    trail: Seq<EngineState<MockRuntime, P>>,
    traces: Seq<TraceView>,
    n: int,
)
    requires
        service::ranks_by::<P, K>(),
        model::runs(trail, traces),
        model::sustainable(trail[0]),
        service::sound(trail[0].core),
        replay::follows(trail[0].core, trail[0].runtime@),
        cooperative(trail[0].core, trail[0].runtime@),
        0 <= n <= traces.len(),
    ensures
        service::sound(trail[n].core),
        replay::follows(trail[n].core, trail[n].runtime@),
        cooperative(trail[n].core, trail[n].runtime@),
    decreases n,
{
    if n > 0 {
        lemma_trail_cooperates::<P, K>(trail, traces, n - 1);
        assert(model::runs_at(trail, traces, n - 1));
        turns::lemma_trail_steppable(trail, traces, n - 1);
        service::law_ranking_is_prudent::<P, K>();
        service::law_step_keeps_sound(trail[n - 1], Ok(traces[n - 1]), trail[n]);
        replay::law_step_follows_the_scripts(trail[n - 1], traces[n - 1], trail[n]);
        law_cooperative_step_succeeds::<P, K>(trail[n - 1], Ok(traces[n - 1]), trail[n]);
    }
}

/// **Cooperative input is served.** With the scripted runtime and a policy that
/// ranks, if every live request can complete within the pool then no run fails:
/// however tight the pool, the engine goes on until it is idle.
pub proof fn law_cooperative_input_is_served<P: SchedulerPolicy, K: Ranking>(
    start: EngineState<MockRuntime, P>,
    error: EngineError,
    post: EngineState<MockRuntime, P>,
)
    requires
        service::ranks_by::<P, K>(),
        service::sound(start.core),
        model::sustainable(start),
        replay::follows(start.core, start.runtime@),
        cooperative(start.core, start.runtime@),
    ensures
        !model::runs_into(start, error, post),
{
    if model::runs_into(start, error, post) {
        let (traces, last) =
            choose|traces: Seq<TraceView>, last: EngineState<MockRuntime, P>| #[trigger]
            model::runs_to(start, traces, last) && !last.core.idle() && last.steps(
                Err(error),
                post,
            );
        let trail = choose|trail: Seq<EngineState<MockRuntime, P>>| #[trigger]
            model::runs(trail, traces) && trail[0] == start && trail.last() == last;
        lemma_trail_cooperates::<P, K>(trail, traces, traces.len() as int);
        law_cooperative_step_succeeds::<P, K>(last, Err(error), post);
    }
}

} // verus!
