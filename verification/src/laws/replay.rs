//! Scripted generation: whatever the schedule, the output is the script's.
use vstd::prelude::*;

use super::{plans, roster};
use crate::engine::model::{self, Ask, EngineState, EngineView, TraceView, Turn};
use crate::engine::{turns, upkeep};
use crate::ids::TokenId;
use crate::mock::{self, MockRuntime, ScriptView};
use crate::scheduler::{PlanView, SchedulerPolicy};
use crate::sequence::{SeqState, SeqView};

verus! {

/// `output` is the beginning of `tokens`, and none of it ends generation.
pub open spec fn on_script(
    tokens: Seq<TokenId>,
    eos: Option<TokenId>,
    output: Seq<TokenId>,
) -> bool {
    &&& output.len() <= tokens.len()
    &&& output == tokens.take(output.len() as int)
    &&& forall|j: int| 0 <= j < output.len() ==> eos != Some(#[trigger] output[j])
}

/// `output` is what a sequence that may generate `limit` tokens (any number if
/// zero) has generated when it finishes: the tokens up to its limit or up to the
/// end-of-sequence token, whichever comes first.
pub open spec fn is_complete(
    tokens: Seq<TokenId>,
    eos: Option<TokenId>,
    limit: usize,
    output: Seq<TokenId>,
) -> bool {
    &&& on_script(tokens, eos, output)
    &&& limit > 0 ==> output.len() <= limit
    &&& (limit > 0 && output.len() == limit) || (output.len() < tokens.len() && eos == Some(
        tokens[output.len() as int],
    ))
}

/// A live sequence, if it is scripted, has emitted the beginning of its script,
/// and the runtime stands where the sequence does.
pub open spec fn tracks(
    scripts: Map<u64, ScriptView>,
    eos: Option<TokenId>,
    seq: SeqView,
) -> bool {
    scripts.contains_key(seq.id.0) ==> {
        let script = scripts[seq.id.0];
        &&& on_script(script.tokens, eos, seq.output)
        &&& script.cursor == seq.output.len()
        &&& script.prefilled == (seq.output.len() > 0)
        &&& seq.sampling.max_tokens > 0 ==> seq.output.len() < seq.sampling.max_tokens
    }
}

/// A finished sequence has emitted its script up to where it ends.
pub open spec fn is_fulfilled(
    scripts: Map<u64, ScriptView>,
    eos: Option<TokenId>,
    seq: SeqView,
) -> bool {
    &&& scripts.contains_key(seq.id.0)
    &&& is_complete(scripts[seq.id.0].tokens, eos, seq.sampling.max_tokens, seq.output)
}

/// The scripts are the same ones, perhaps further on.
pub open spec fn same_scripts(a: Map<u64, ScriptView>, b: Map<u64, ScriptView>) -> bool {
    &&& a.dom() == b.dom()
    &&& forall|id: u64| #[trigger] a.contains_key(id) ==> a[id].tokens == b[id].tokens
}

/// The engine follows the scripts.
pub open spec fn follows(engine: EngineView, scripts: Map<u64, ScriptView>) -> bool {
    let eos = engine.config.eos_token;
    &&& forall|i: int|
        0 <= i < engine.waiting.len() ==> tracks(scripts, eos, #[trigger] engine.waiting[i])
    &&& forall|i: int|
        0 <= i < engine.running.len() ==> tracks(scripts, eos, #[trigger] engine.running[i])
            && engine.running[i].state != SeqState::Finished
    &&& forall|i: int|
        0 <= i < engine.finished.len() ==> is_fulfilled(
            scripts,
            eos,
            #[trigger] engine.finished[i],
        )
}

/// **Submitting follows the scripts.** An engine that holds nothing follows any
/// scripts, and goes on following them when a sequence without output is
/// submitted whose script, if it has one, has not been started.
pub proof fn law_submitting_follows_the_scripts(
    engine: EngineView,
    scripts: Map<u64, ScriptView>,
    seq: SeqView,
)
    requires
        seq.output.len() == 0,
        scripts.contains_key(seq.id.0) ==> scripts[seq.id.0].cursor == 0
            && !scripts[seq.id.0].prefilled,
    ensures
        engine.idle() && engine.finished.len() == 0 ==> follows(engine, scripts),
        follows(engine, scripts) ==> follows(engine.submitted(seq), scripts),
{
    let after = engine.submitted(seq);
    assert(seq.output =~= scripts[seq.id.0].tokens.take(0));
    if follows(engine, scripts) {
        assert forall|i: int| 0 <= i < after.waiting.len() implies tracks(
            scripts,
            engine.config.eos_token,
            #[trigger] after.waiting[i],
        ) by {
            if i < engine.waiting.len() {
                assert(after.waiting[i] == engine.waiting[i]);
            }
        }
    }
}

/// The engine follows the scripts in the middle of a step, when the sequences
/// before place `n` have taken their turns.
pub open spec fn follows_until(
    engine: EngineView,
    scripts: Map<u64, ScriptView>,
    n: int,
) -> bool {
    let eos = engine.config.eos_token;
    &&& forall|i: int|
        0 <= i < engine.waiting.len() ==> tracks(scripts, eos, #[trigger] engine.waiting[i])
    &&& forall|i: int|
        0 <= i < engine.running.len() ==> if (#[trigger] engine.running[i]).state
            == SeqState::Finished {
            i < n && is_fulfilled(scripts, eos, engine.running[i])
        } else {
            tracks(scripts, eos, engine.running[i])
        }
    &&& forall|i: int|
        0 <= i < engine.finished.len() ==> is_fulfilled(
            scripts,
            eos,
            #[trigger] engine.finished[i],
        )
}

/// Applying a plan to the queues leaves the engine on the scripts.
pub proof fn lemma_arranged_follows(
    engine: EngineView,
    plan: PlanView,
    scripts: Map<u64, ScriptView>,
)
    requires
        follows(engine, scripts),
    ensures
        follows_until(engine.arranged(plan), scripts, 0),
{
    let eos = engine.config.eos_token;
    let mid = engine.after_preempt(plan.preempt);
    let evicted = engine.evicted(plan.preempt);
    let after = engine.arranged(plan);
    let admitted = mid.admissible(plan.prefill);
    assert forall|i: int| 0 <= i < mid.waiting.len() implies tracks(
        scripts,
        eos,
        #[trigger] mid.waiting[i],
    ) by {
        if i < evicted.len() {
            let j = upkeep::lemma_filter_source(
                engine.running,
                model::named_in(plan.preempt),
                evicted.len() - 1 - i,
            );
            assert(tracks(scripts, eos, engine.running[j]));
        } else {
            assert(tracks(scripts, eos, engine.waiting[i - evicted.len()]));
        }
    }
    assert forall|i: int| 0 <= i < after.waiting.len() implies tracks(
        scripts,
        eos,
        #[trigger] after.waiting[i],
    ) by {
        let j = upkeep::lemma_filter_source(mid.waiting, model::not_named_in(plan.prefill), i);
        assert(tracks(scripts, eos, mid.waiting[j]));
    }
    assert forall|i: int| 0 <= i < after.running.len() implies (
    #[trigger] after.running[i]).state != SeqState::Finished && tracks(
        scripts,
        eos,
        after.running[i],
    ) by {
        if i < mid.running.len() {
            let j = upkeep::lemma_filter_source(
                engine.running,
                model::not_named_in(plan.preempt),
                i,
            );
            assert(after.running[i] == engine.running[j]);
            assert(tracks(scripts, eos, engine.running[j]));
        } else {
            let k = i - mid.running.len();
            let j = upkeep::lemma_filter_source(mid.waiting, model::named_in(plan.prefill), k);
            assert(after.running[i] == model::to_running()(admitted[k]));
            assert(tracks(scripts, eos, mid.waiting[j]));
        }
    }
}

/// The next token of a script that its sequence tracks.
proof fn lemma_next_token(
    scripts: Map<u64, ScriptView>,
    eos: Option<TokenId>,
    seq: SeqView,
    token: TokenId,
)
    requires
        tracks(scripts, eos, seq),
        mock::next_reply(scripts, seq.id) == Ok::<TokenId, crate::runtime::RuntimeError>(token),
        eos != Some(token),
    ensures
        on_script(scripts[seq.id.0].tokens, eos, seq.output.push(token)),
{
    let tokens = scripts[seq.id.0].tokens;
    let output = seq.output.push(token);
    assert(output =~= tokens.take(output.len() as int));
    assert forall|j: int| 0 <= j < output.len() implies eos != Some(#[trigger] output[j]) by {
        if j < seq.output.len() {
            assert(output[j] == seq.output[j]);
        }
    }
}

/// A turn leaves the engine on the scripts.
proof fn lemma_turn_follows(
    engine: EngineView,
    ask: Ask,
    idx: int,
    turn: Turn,
    pre: MockRuntime,
    post: MockRuntime,
)
    requires
        roster::distinct(engine),
        0 <= idx < engine.running.len(),
        follows_until(engine, pre@, idx),
        ask is Prefill ==> engine.running[idx].output.len() == 0,
        ask is Resume || ask is Decode ==> engine.running[idx].output.len() > 0,
        engine.turn_taken(ask, idx, turn).error is None,
        engine.consults(ask, idx, turn, pre, post),
    ensures
        same_scripts(pre@, post@),
        follows_until(engine.turn_taken(ask, idx, turn).engine, post@, idx + 1),
{
    plans::lemma_distinct_ids(engine);
    let eos = engine.config.eos_token;
    let after = engine.turn_taken(ask, idx, turn).engine;
    let seq = engine.running[idx];
    let id = seq.id;
    assert(tracks(pre@, eos, seq) && seq.state != SeqState::Finished);
    assert(same_scripts(pre@, post@)) by {
        assert(pre@.dom() =~= post@.dom());
    }
    assert forall|other: SeqView| other.id != id && #[trigger] tracks(
        pre@,
        eos,
        other,
    ) implies tracks(post@, eos, other) by {}
    assert forall|other: SeqView| #[trigger] is_fulfilled(pre@, eos, other) implies is_fulfilled(
        post@,
        eos,
        other,
    ) by {}
    if !(ask is Idle) {
        let token = turn.reply->Ok_0;
        assert(turn.reply is Ok);
        assert(mock::next_reply(pre@, id) == turn.reply);
        if eos != Some(token) {
            lemma_next_token(pre@, eos, seq, token);
        }
    }
    assert forall|i: int| 0 <= i < after.waiting.len() implies tracks(
        post@,
        eos,
        #[trigger] after.waiting[i],
    ) by {
        assert(after.waiting[i] == engine.waiting[i]);
        assert(engine.running[idx].id != engine.waiting[i].id);
        assert(tracks(pre@, eos, engine.waiting[i]));
    }
    assert forall|i: int| 0 <= i < after.running.len() implies if (
    #[trigger] after.running[i]).state == SeqState::Finished {
        i < idx + 1 && is_fulfilled(post@, eos, after.running[i])
    } else {
        tracks(post@, eos, after.running[i])
    } by {
        if i != idx {
            assert(after.running[i] == engine.running[i]);
            assert(engine.running[i].id != engine.running[idx].id);
        }
    }
    assert forall|i: int| 0 <= i < after.finished.len() implies is_fulfilled(
        post@,
        eos,
        #[trigger] after.finished[i],
    ) by {
        assert(is_fulfilled(pre@, eos, engine.finished[i]));
    }
}

/// If no turn failed, none of the first ones did.
pub proof fn lemma_no_error_before(
    engine: EngineView,
    plan: PlanView,
    turns: Seq<Turn>,
    k: nat,
    n: nat,
)
    requires
        k <= n,
        engine.executed(plan, turns, n).error is None,
    ensures
        engine.executed(plan, turns, k).error is None,
    decreases n,
{
    if k < n {
        lemma_no_error_before(engine, plan, turns, k, (n - 1) as nat);
    }
}

/// Turns that do not fail leave the engine on the scripts.
pub proof fn lemma_executed_follows(
    engine: EngineView,
    plan: PlanView,
    turns: Seq<Turn>,
    states: Seq<MockRuntime>,
    n: nat,
)
    requires
        roster::distinct(engine),
        ({
            let arranged = engine.arranged(plan);
            let len = arranged.running.len();
            &&& arranged.mid_step(plan, 0)
            &&& follows_until(arranged, states[0]@, 0)
            &&& arranged.served(plan, turns, len, states)
            &&& n <= len
            &&& arranged.executed(plan, turns, n).error is None
        }),
    ensures
        same_scripts(states[0]@, states[n as int]@),
        follows_until(
            engine.arranged(plan).executed(plan, turns, n).engine,
            states[n as int]@,
            n as int,
        ),
    decreases n,
{
    if n > 0 {
        let arranged = engine.arranged(plan);
        let k = (n - 1) as nat;
        lemma_no_error_before(arranged, plan, turns, k, n);
        lemma_executed_follows(engine, plan, turns, states, k);
        roster::lemma_executed_distinct(engine, plan, turns, k);
        upkeep::lemma_executed_mid_step(arranged, plan, turns, k);
        let before = arranged.executed(plan, turns, k).engine;
        assert(arranged.consulted(plan, turns, n - 1, states));
        let ask = before.ask(plan, n - 1);
        lemma_turn_follows(
            before,
            ask,
            n - 1,
            turns[n - 1],
            states[n - 1],
            states[n as int],
        );
    }
}

/// **A step follows the scripts.** Whatever the policy, a successful step of an
/// engine with distinct ids that follows the scripts of its runtime leaves it
/// following them: no preemption or resumption disturbs an output.
pub proof fn law_step_follows_the_scripts<P: SchedulerPolicy>(
    start: EngineState<MockRuntime, P>,
    trace: TraceView,
    post: EngineState<MockRuntime, P>,
)
    requires
        start.core.wf(),
        start.steppable(),
        roster::distinct(start.core),
        follows(start.core, start.runtime@),
        start.steps(Ok(trace), post),
    ensures
        follows(post.core, post.runtime@),
        same_scripts(start.runtime@, post.runtime@),
        post.core.config == start.core.config,
{
    let (plan, turns, states) =
        choose|plan: PlanView, turns: Seq<Turn>, states: Seq<MockRuntime>| #[trigger]
        start.steps_by(plan, turns, states, Ok(trace), post);
    let engine = start.core;
    let arranged = engine.arranged(plan);
    let n = arranged.running.len();
    assert(engine.executable(plan));
    upkeep::lemma_stepped_wf(engine, plan, turns);
    lemma_arranged_follows(engine, plan, start.runtime@);
    lemma_executed_follows(engine, plan, turns, states, n);
    turns::lemma_executed_frame(arranged, plan, turns, n);
    let executed = arranged.executed(plan, turns, n).engine;
    let scripts = post.runtime@;
    let eos = engine.config.eos_token;
    let done = executed.running.filter(model::is_done());
    assert(post.core.waiting == executed.waiting);
    assert forall|i: int| 0 <= i < post.core.running.len() implies tracks(
        scripts,
        eos,
        #[trigger] post.core.running[i],
    ) && post.core.running[i].state != SeqState::Finished by {
        let j = upkeep::lemma_filter_source(executed.running, model::is_not_done(), i);
    }
    assert forall|i: int| 0 <= i < post.core.finished.len() implies is_fulfilled(
        scripts,
        eos,
        #[trigger] post.core.finished[i],
    ) by {
        if i < executed.finished.len() {
            assert(post.core.finished[i] == executed.finished[i]);
            assert(is_fulfilled(scripts, eos, executed.finished[i]));
        } else {
            let k = i - executed.finished.len();
            let j = upkeep::lemma_filter_source(executed.running, model::is_done(), k);
            assert(post.core.finished[i] == model::to_unmapped()(done[k]));
            assert(is_fulfilled(scripts, eos, executed.running[j]));
        }
    }
}

/// A run of `n` steps follows the scripts.
pub proof fn lemma_trail_follows<P: SchedulerPolicy>(
    trail: Seq<EngineState<MockRuntime, P>>,
    traces: Seq<TraceView>,
    n: int,
)
    requires
        model::runs(trail, traces),
        model::sustainable(trail[0]),
        trail[0].core.wf(),
        roster::distinct(trail[0].core),
        follows(trail[0].core, trail[0].runtime@),
        0 <= n <= traces.len(),
    ensures
        trail[n].core.wf(),
        roster::distinct(trail[n].core),
        follows(trail[n].core, trail[n].runtime@),
        same_scripts(trail[0].runtime@, trail[n].runtime@),
        trail[n].core.config == trail[0].core.config,
    decreases n,
{
    if n > 0 {
        lemma_trail_follows(trail, traces, n - 1);
        assert(model::runs_at(trail, traces, n - 1));
        turns::lemma_trail_steppable(trail, traces, n - 1);
        law_step_follows_the_scripts(trail[n - 1], traces[n - 1], trail[n]);
        let (plan, turns, states) =
            choose|plan: PlanView, turns: Seq<Turn>, states: Seq<MockRuntime>| #[trigger]
            trail[n - 1].steps_by(plan, turns, states, Ok(traces[n - 1]), trail[n]);
        assert(trail[n - 1].core.executable(plan));
        upkeep::lemma_stepped_wf(trail[n - 1].core, plan, turns);
        roster::law_ids_stay_distinct(trail[n - 1].core, plan, turns);
        let (a, b, c) = (trail[0].runtime@, trail[n - 1].runtime@, trail[n].runtime@);
        assert forall|id: u64| #[trigger] a.contains_key(id) implies a[id].tokens
            == c[id].tokens by {
            assert(b.contains_key(id));
        }
    }
}

/// **A run follows the scripts.** Every sequence that finished has emitted
/// exactly its script, up to its end-of-sequence token or its token limit.
pub proof fn law_run_follows_the_scripts<P: SchedulerPolicy>(
    start: EngineState<MockRuntime, P>,
    traces: Seq<TraceView>,
    post: EngineState<MockRuntime, P>,
)
    requires
        start.core.wf(),
        model::sustainable(start),
        roster::distinct(start.core),
        follows(start.core, start.runtime@),
        model::runs_to(start, traces, post),
    ensures
        follows(post.core, post.runtime@),
        forall|i: int|
            0 <= i < post.core.finished.len() ==> is_fulfilled(
                start.runtime@,
                start.core.config.eos_token,
                #[trigger] post.core.finished[i],
            ),
{
    let trail = choose|trail: Seq<EngineState<MockRuntime, P>>| #[trigger]
        model::runs(trail, traces) && trail[0] == start && trail.last() == post;
    lemma_trail_follows(trail, traces, traces.len() as int);
    assert forall|i: int| 0 <= i < post.core.finished.len() implies is_fulfilled(
        start.runtime@,
        start.core.config.eos_token,
        #[trigger] post.core.finished[i],
    ) by {
        assert(is_fulfilled(
            post.runtime@,
            start.core.config.eos_token,
            post.core.finished[i],
        ));
        assert(start.runtime@.contains_key(post.core.finished[i].id.0));
    }
}

/// A script has one completion only.
pub proof fn lemma_completion_is_unique(
    tokens: Seq<TokenId>,
    eos: Option<TokenId>,
    limit: usize,
    a: Seq<TokenId>,
    b: Seq<TokenId>,
)
    requires
        is_complete(tokens, eos, limit, a),
        is_complete(tokens, eos, limit, b),
    ensures
        a == b,
{
    if a.len() < b.len() {
        assert(b[a.len() as int] == tokens[a.len() as int]);
    } else if b.len() < a.len() {
        assert(a[b.len() as int] == tokens[b.len() as int]);
    }
    assert(a =~= b);
}

/// **Output does not depend on the schedule.** Two runs from the same scripts,
/// under any policies, pools and recovery thresholds but with the same
/// end-of-sequence token, give a request with the same id and token limit the
/// same output, however often it was preempted in either.
pub proof fn law_output_is_independent_of_the_schedule<P: SchedulerPolicy, Q: SchedulerPolicy>(
    start_a: EngineState<MockRuntime, P>,
    traces_a: Seq<TraceView>,
    post_a: EngineState<MockRuntime, P>,
    i: int,
    start_b: EngineState<MockRuntime, Q>,
    traces_b: Seq<TraceView>,
    post_b: EngineState<MockRuntime, Q>,
    j: int,
)
    requires
        start_a.core.wf(),
        model::sustainable(start_a),
        roster::distinct(start_a.core),
        follows(start_a.core, start_a.runtime@),
        model::runs_to(start_a, traces_a, post_a),
        start_b.core.wf(),
        model::sustainable(start_b),
        roster::distinct(start_b.core),
        follows(start_b.core, start_b.runtime@),
        model::runs_to(start_b, traces_b, post_b),
        same_scripts(start_a.runtime@, start_b.runtime@),
        start_a.core.config.eos_token == start_b.core.config.eos_token,
        0 <= i < post_a.core.finished.len(),
        0 <= j < post_b.core.finished.len(),
        post_a.core.finished[i].id == post_b.core.finished[j].id,
        post_a.core.finished[i].sampling.max_tokens == post_b.core.finished[j].sampling.max_tokens,
    ensures
        post_a.core.finished[i].output == post_b.core.finished[j].output,
{
    law_run_follows_the_scripts(start_a, traces_a, post_a);
    law_run_follows_the_scripts(start_b, traces_b, post_b);
    let a = post_a.core.finished[i];
    let b = post_b.core.finished[j];
    let eos = start_a.core.config.eos_token;
    assert(is_fulfilled(start_a.runtime@, eos, a));
    assert(is_fulfilled(start_b.runtime@, eos, b));
    lemma_completion_is_unique(
        start_a.runtime@[a.id.0].tokens,
        eos,
        a.sampling.max_tokens,
        a.output,
        b.output,
    );
}

} // verus!
