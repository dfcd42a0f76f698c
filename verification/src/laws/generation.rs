//! Where the generated tokens come from.
use vstd::prelude::*;

use crate::engine::model::{self, EngineState, EngineView, TraceView, Turn};
use crate::engine::{turns, upkeep, EngineError};
use crate::ids::{SeqId, TokenId};
use crate::runtime::{ModelRuntime, RuntimeError};
use crate::scheduler::{PlanView, SchedulerPolicy};
use crate::sequence::SeqView;

verus! {

/// The runtime may answer `token` when it is asked to prefill `id` with `prompt`.
pub open spec fn may_begin<R: ModelRuntime>(
    id: SeqId,
    prompt: Seq<TokenId>,
    token: TokenId,
) -> bool {
    exists|pre: R, post: R| #[trigger] R::prefills(pre, id, prompt, Ok(token), post)
}

/// The runtime may answer `token` when it is asked to decode `id` from `last`.
pub open spec fn may_follow<R: ModelRuntime>(id: SeqId, last: TokenId, token: TokenId) -> bool {
    exists|pre: R, post: R| #[trigger] R::decodes(pre, id, last, Ok(token), post)
}

/// The first token of the output answers the whole prompt, and every other token
/// answers the one directly before it.
pub open spec fn grounded<R: ModelRuntime>(seq: SeqView) -> bool {
    forall|k: int|
        0 <= k < seq.output.len() ==> if k == 0 {
            may_begin::<R>(seq.id, seq.prompt, #[trigger] seq.output[k])
        } else {
            may_follow::<R>(seq.id, seq.output[k - 1], seq.output[k])
        }
}

/// So it is for all of the engine's sequences.
pub open spec fn all_grounded<R: ModelRuntime>(engine: EngineView) -> bool {
    &&& forall|i: int| 0 <= i < engine.waiting.len() ==> grounded::<R>(#[trigger] engine.waiting[i])
    &&& forall|i: int| 0 <= i < engine.running.len() ==> grounded::<R>(#[trigger] engine.running[i])
    &&& forall|i: int|
        0 <= i < engine.finished.len() ==> grounded::<R>(#[trigger] engine.finished[i])
}

/// The runtime was asked for the next token of `seq`: with the whole prompt if
/// there is no output yet, and with the last token of the output if there is.
pub open spec fn asked<R: ModelRuntime>(
    pre: R,
    seq: SeqView,
    reply: Result<TokenId, RuntimeError>,
    post: R,
) -> bool {
    if seq.output.len() == 0 {
        R::prefills(pre, seq.id, seq.prompt, reply, post)
    } else {
        R::decodes(pre, seq.id, seq.output[seq.output.len() - 1], reply, post)
    }
}

/// `seq` waits or runs, apart from its state and its blocks.
pub open spec fn is_live(engine: EngineView, seq: SeqView) -> bool {
    ||| exists|i: int|
        0 <= i < engine.waiting.len() && same_text(#[trigger] engine.waiting[i], seq)
    ||| exists|i: int|
        0 <= i < engine.running.len() && same_text(#[trigger] engine.running[i], seq)
}

/// The two have the same id, prompt and output.
pub open spec fn same_text(a: SeqView, b: SeqView) -> bool {
    a.id == b.id && a.prompt == b.prompt && a.output == b.output
}

/// From `pre` to `post` the runtime was asked for the next token of one of the
/// live sequences, or not at all.
pub open spec fn linked<R: ModelRuntime>(engine: EngineView, pre: R, post: R) -> bool {
    pre == post || exists|seq: SeqView, reply: Result<TokenId, RuntimeError>| #[trigger]
        asked(pre, seq, reply, post) && is_live(engine, seq)
}

/// Whoever waits or runs once a plan is applied did so before.
proof fn lemma_arranged_live(engine: EngineView, plan: PlanView)
    ensures
        forall|i: int|
            0 <= i < engine.arranged(plan).running.len() ==> is_live(
                engine,
                #[trigger] engine.arranged(plan).running[i],
            ),
        forall|i: int|
            0 <= i < engine.arranged(plan).waiting.len() ==> is_live(
                engine,
                #[trigger] engine.arranged(plan).waiting[i],
            ),
        engine.arranged(plan).finished == engine.finished,
{
    let evicted = engine.evicted(plan.preempt);
    let mid = engine.after_preempt(plan.preempt);
    let after = engine.arranged(plan);
    assert forall|i: int| 0 <= i < mid.waiting.len() implies is_live(
        engine,
        #[trigger] mid.waiting[i],
    ) by {
        if i < evicted.len() {
            let j = upkeep::lemma_filter_source(
                engine.running,
                model::named_in(plan.preempt),
                evicted.len() - 1 - i,
            );
            assert(same_text(engine.running[j], mid.waiting[i]));
        } else {
            assert(same_text(engine.waiting[i - evicted.len()], mid.waiting[i]));
        }
    }
    assert forall|i: int| 0 <= i < after.waiting.len() implies is_live(
        engine,
        #[trigger] after.waiting[i],
    ) by {
        let j = upkeep::lemma_filter_source(mid.waiting, model::not_named_in(plan.prefill), i);
        assert(is_live(engine, mid.waiting[j]));
    }
    assert forall|i: int| 0 <= i < after.running.len() implies is_live(
        engine,
        #[trigger] after.running[i],
    ) by {
        if i < mid.running.len() {
            let j = upkeep::lemma_filter_source(
                engine.running,
                model::not_named_in(plan.preempt),
                i,
            );
            assert(same_text(engine.running[j], after.running[i]));
        } else {
            let j = upkeep::lemma_filter_source(
                mid.waiting,
                model::named_in(plan.prefill),
                i - mid.running.len(),
            );
            assert(is_live(engine, mid.waiting[j]));
            assert(same_text(mid.waiting[j], after.running[i]));
        }
    }
}

/// What is grounded stays so however it is moved about.
proof fn lemma_grounded_text<R: ModelRuntime>(engine: EngineView, seq: SeqView)
    requires
        all_grounded::<R>(engine),
        is_live(engine, seq),
    ensures
        grounded::<R>(seq),
{
    let other = if exists|i: int|
        0 <= i < engine.waiting.len() && same_text(#[trigger] engine.waiting[i], seq) {
        let i = choose|i: int|
            0 <= i < engine.waiting.len() && same_text(#[trigger] engine.waiting[i], seq);
        engine.waiting[i]
    } else {
        let i = choose|i: int|
            0 <= i < engine.running.len() && same_text(#[trigger] engine.running[i], seq);
        engine.running[i]
    };
    assert(grounded::<R>(other));
    assert forall|k: int| 0 <= k < seq.output.len() implies if k == 0 {
        may_begin::<R>(seq.id, seq.prompt, #[trigger] seq.output[k])
    } else {
        may_follow::<R>(seq.id, seq.output[k - 1], seq.output[k])
    } by {
        assert(other.output[k] == seq.output[k]);
    }
}

/// A turn asks for the next token of the sequence whose turn it is.
proof fn lemma_turn_asks<R: ModelRuntime>(
    engine: EngineView,
    plan: PlanView,
    idx: int,
    turn: Turn,
    pre: R,
    post: R,
)
    requires
        engine.mid_step(plan, idx),
        0 <= idx < engine.running.len(),
        engine.consults(engine.ask(plan, idx), idx, turn, pre, post),
    ensures
        ({
            let seq = engine.running[idx];
            let ask = engine.ask(plan, idx);
            let after = engine.turn_taken(ask, idx, turn);
            let now = after.engine.running[idx];
            &&& pre == post || asked(pre, seq, turn.reply, post)
            &&& same_text(seq, now) || turn.reply is Ok && asked(pre, seq, turn.reply, post)
                && now.id == seq.id && now.prompt == seq.prompt && now.output == seq.output.push(
                turn.reply->Ok_0,
            )
            &&& after.error matches Some(EngineError::Runtime(error)) ==> asked(
                pre,
                seq,
                Err(error),
                post,
            )
        }),
{
}

/// One token more is grounded if it answers the question that was asked.
proof fn lemma_grounded_push<R: ModelRuntime>(
    seq: SeqView,
    now: SeqView,
    token: TokenId,
    pre: R,
    post: R,
)
    requires
        grounded::<R>(seq),
        asked(pre, seq, Ok(token), post),
        now.id == seq.id,
        now.prompt == seq.prompt,
        now.output == seq.output.push(token),
    ensures
        grounded::<R>(now),
{
    assert forall|k: int| 0 <= k < now.output.len() implies if k == 0 {
        may_begin::<R>(now.id, now.prompt, #[trigger] now.output[k])
    } else {
        may_follow::<R>(now.id, now.output[k - 1], now.output[k])
    } by {
        if k < seq.output.len() {
            assert(now.output[k] == seq.output[k]);
            assert(k > 0 ==> now.output[k - 1] == seq.output[k - 1]);
        }
    }
}

/// Turns keep the outputs grounded, and the runtime is asked for one sequence
/// after the other.
proof fn lemma_executed_grounded<R: ModelRuntime>(
    start: EngineView,
    engine: EngineView,
    plan: PlanView,
    turns: Seq<Turn>,
    states: Seq<R>,
    n: nat,
)
    requires
        engine.mid_step(plan, 0),
        engine.served(plan, turns, engine.running.len(), states),
        n <= engine.running.len(),
        forall|i: int|
            0 <= i < engine.running.len() ==> is_live(start, #[trigger] engine.running[i]),
    ensures
        ({
            let after = engine.executed(plan, turns, n);
            &&& all_grounded::<R>(start) ==> forall|i: int|
                0 <= i < engine.running.len() ==> grounded::<R>(
                    #[trigger] after.engine.running[i],
                )
            &&& forall|i: int| #![trigger states[i]]
                0 <= i < n ==> linked(start, states[i], states[i + 1])
            &&& after.error matches Some(EngineError::Runtime(error)) ==> exists|
                seq: SeqView,
                pre: R,
                post: R,
            | #[trigger] asked(pre, seq, Err(error), post) && is_live(start, seq)
        }),
    decreases n,
{
    if n == 0 {
        if all_grounded::<R>(start) {
            assert forall|i: int| 0 <= i < engine.running.len() implies grounded::<R>(
                #[trigger] engine.running[i],
            ) by {
                lemma_grounded_text::<R>(start, engine.running[i]);
            }
        }
    } else {
        let k = (n - 1) as nat;
        let idx = n - 1;
        lemma_executed_grounded(start, engine, plan, turns, states, k);
        turns::lemma_executed_frame(engine, plan, turns, k);
        upkeep::lemma_executed_mid_step(engine, plan, turns, k);
        let before = engine.executed(plan, turns, k);
        let after = engine.executed(plan, turns, n);
        assert(engine.consulted(plan, turns, idx, states));
        if before.error is None {
            let seq = before.engine.running[idx];
            let now = after.engine.running[idx];
            let turn = turns[idx];
            assert(seq == engine.running[idx]);
            lemma_turn_asks(before.engine, plan, idx, turn, states[idx], states[idx + 1]);
            assert(is_live(start, seq));
            if all_grounded::<R>(start) {
                assert(grounded::<R>(seq));
                assert forall|i: int| 0 <= i < engine.running.len() implies grounded::<R>(
                    #[trigger] after.engine.running[i],
                ) by {
                    if i != idx {
                        assert(after.engine.running[i] == before.engine.running[i]);
                    } else if !same_text(seq, now) {
                        lemma_grounded_push(
                            seq,
                            now,
                            turn.reply->Ok_0,
                            states[idx],
                            states[idx + 1],
                        );
                    } else {
                        assert forall|j: int| 0 <= j < now.output.len() implies if j == 0 {
                            may_begin::<R>(now.id, now.prompt, #[trigger] now.output[j])
                        } else {
                            may_follow::<R>(now.id, now.output[j - 1], now.output[j])
                        } by {
                            assert(seq.output[j] == now.output[j]);
                        }
                    }
                }
            }
        }
        assert forall|i: int| #![trigger states[i]] 0 <= i < n implies linked(
            start,
            states[i],
            states[i + 1],
        ) by {}
    }
}

/// **Every token answers what came before it.** However a step goes, and whatever
/// the policy: if the first token of every output answered that sequence's whole
/// prompt and every other token the one directly before it, so it is afterwards,
/// whether a sequence was running, resumed, preempted or finished.
pub proof fn law_step_keeps_outputs_grounded<R: ModelRuntime, P: SchedulerPolicy>(
    start: EngineState<R, P>,
    result: Result<TraceView, EngineError>,
    post: EngineState<R, P>,
)
    requires
        start.core.wf(),
        start.steppable(),
        all_grounded::<R>(start.core),
        start.steps(result, post),
    ensures
        all_grounded::<R>(post.core),
{
    let (plan, turns, states) = choose|plan: PlanView, turns: Seq<Turn>, states: Seq<R>| #[trigger]
        start.steps_by(plan, turns, states, result, post);
    let engine = start.core;
    let arranged = engine.arranged(plan);
    let n = arranged.running.len();
    assert(engine.executable(plan));
    upkeep::lemma_stepped_wf(engine, plan, turns);
    lemma_arranged_live(engine, plan);
    assert forall|i: int| 0 <= i < arranged.waiting.len() implies grounded::<R>(
        #[trigger] arranged.waiting[i],
    ) by {
        lemma_grounded_text::<R>(engine, arranged.waiting[i]);
    }
    assert forall|i: int| 0 <= i < arranged.running.len() implies grounded::<R>(
        #[trigger] arranged.running[i],
    ) by {
        lemma_grounded_text::<R>(engine, arranged.running[i]);
    }
    if !arranged.stalled() {
        lemma_executed_grounded(engine, arranged, plan, turns, states, n);
        turns::lemma_executed_frame(arranged, plan, turns, n);
        let executed = arranged.executed(plan, turns, n);
        if executed.error is None {
            let done = executed.engine.running.filter(model::is_done());
            assert forall|i: int| 0 <= i < post.core.running.len() implies grounded::<R>(
                #[trigger] post.core.running[i],
            ) by {
                let j = upkeep::lemma_filter_source(
                    executed.engine.running,
                    model::is_not_done(),
                    i,
                );
            }
            assert forall|i: int| 0 <= i < post.core.finished.len() implies grounded::<R>(
                #[trigger] post.core.finished[i],
            ) by {
                if i < engine.finished.len() {
                    assert(post.core.finished[i] == engine.finished[i]);
                } else {
                    let j = upkeep::lemma_filter_source(
                        executed.engine.running,
                        model::is_done(),
                        i - engine.finished.len(),
                    );
                    let seq = executed.engine.running[j];
                    let now = post.core.finished[i];
                    assert(grounded::<R>(seq));
                    assert forall|k: int| 0 <= k < now.output.len() implies if k == 0 {
                        may_begin::<R>(now.id, now.prompt, #[trigger] now.output[k])
                    } else {
                        may_follow::<R>(now.id, now.output[k - 1], now.output[k])
                    } by {
                        assert(seq.output[k] == now.output[k]);
                    }
                }
            }
        }
    }
}

/// **The runtime is asked for the live sequences only, one after the other.** In a
/// step the runtime goes from its state before to its state afterwards through
/// one question at a time. Each is for the next token of a sequence that waits or
/// runs: with its whole prompt if it has no output yet, with the last token of
/// its output if it has. There are at most as many as there are such sequences.
pub proof fn law_runtime_is_asked_in_turn<R: ModelRuntime, P: SchedulerPolicy>(
    start: EngineState<R, P>,
    result: Result<TraceView, EngineError>,
    post: EngineState<R, P>,
) -> (states: Seq<R>)
    requires
        start.core.wf(),
        start.steppable(),
        start.steps(result, post),
    ensures
        0 < states.len() <= 1 + start.core.waiting.len() + start.core.running.len(),
        states[0] == start.runtime,
        states[states.len() - 1] == post.runtime,
        forall|i: int| #![trigger states[i]]
            0 <= i < states.len() - 1 ==> linked(start.core, states[i], states[i + 1]),
        result matches Err(EngineError::Runtime(error)) ==> exists|seq: SeqView, pre: R, end: R|
         #[trigger]
            asked(pre, seq, Err(error), end) && is_live(start.core, seq),
{
    let (plan, turns, states) = choose|plan: PlanView, turns: Seq<Turn>, states: Seq<R>| #[trigger]
        start.steps_by(plan, turns, states, result, post);
    let engine = start.core;
    let arranged = engine.arranged(plan);
    let n = arranged.running.len();
    assert(engine.executable(plan));
    upkeep::lemma_stepped_wf(engine, plan, turns);
    lemma_arranged_live(engine, plan);
    super::counters::lemma_arranged_population(engine, plan);
    if !arranged.stalled() {
        lemma_executed_grounded(engine, arranged, plan, turns, states, n);
    }
    states
}

/// A run of `n` steps keeps the outputs grounded.
proof fn lemma_trail_grounded<R: ModelRuntime, P: SchedulerPolicy>(
    trail: Seq<EngineState<R, P>>,
    traces: Seq<TraceView>,
    n: int,
)
    requires
        model::runs(trail, traces),
        model::sustainable(trail[0]),
        trail[0].core.wf(),
        all_grounded::<R>(trail[0].core),
        0 <= n <= traces.len(),
    ensures
        trail[n].core.wf(),
        all_grounded::<R>(trail[n].core),
    decreases n,
{
    if n > 0 {
        lemma_trail_grounded(trail, traces, n - 1);
        assert(model::runs_at(trail, traces, n - 1));
        turns::lemma_trail_steppable(trail, traces, n - 1);
        let start = trail[n - 1];
        let (plan, turns, states) =
            choose|plan: PlanView, turns: Seq<Turn>, states: Seq<R>| #[trigger]
            start.steps_by(plan, turns, states, Ok(traces[n - 1]), trail[n]);
        assert(start.core.executable(plan));
        upkeep::lemma_stepped_wf(start.core, plan, turns);
        law_step_keeps_outputs_grounded(start, Ok(traces[n - 1]), trail[n]);
    }
}

/// **Runs keep every token an answer to what came before it.**
pub proof fn law_run_keeps_outputs_grounded<R: ModelRuntime, P: SchedulerPolicy>(
    start: EngineState<R, P>,
    traces: Seq<TraceView>,
    post: EngineState<R, P>,
)
    requires
        start.core.wf(),
        model::sustainable(start),
        all_grounded::<R>(start.core),
        model::runs_to(start, traces, post),
    ensures
        all_grounded::<R>(post.core),
{
    let trail = choose|trail: Seq<EngineState<R, P>>| #[trigger]
        model::runs(trail, traces) && trail[0] == start && trail.last() == post;
    lemma_trail_grounded(trail, traces, traces.len() as int);
}

/// **So do runs that fail.**
pub proof fn law_failed_run_keeps_outputs_grounded<R: ModelRuntime, P: SchedulerPolicy>(
    start: EngineState<R, P>,
    error: EngineError,
    post: EngineState<R, P>,
)
    requires
        start.core.wf(),
        model::sustainable(start),
        all_grounded::<R>(start.core),
        model::runs_into(start, error, post),
    ensures
        all_grounded::<R>(post.core),
{
    let (traces, last) = choose|traces: Seq<TraceView>, last: EngineState<R, P>| #[trigger]
        model::runs_to(start, traces, last) && !last.core.idle() && last.steps(Err(error), post);
    let trail = choose|trail: Seq<EngineState<R, P>>| #[trigger]
        model::runs(trail, traces) && trail[0] == start && trail.last() == last;
    lemma_trail_grounded(trail, traces, traces.len() as int);
    law_step_keeps_outputs_grounded(last, Err(error), post);
}

/// **The first token is what the runtime makes of the prompt, every other what it
/// makes of the token before.** With a runtime whose answer to a prefill is
/// `begin` of the id and the prompt it is shown, and whose answer to a decode is
/// `follow` of the id and the token it is shown, that is what every output of a
/// run consists of.
pub proof fn law_outputs_are_the_runtimes<R: ModelRuntime, P: SchedulerPolicy>(
    start: EngineState<R, P>,
    traces: Seq<TraceView>,
    post: EngineState<R, P>,
    begin: spec_fn(SeqId, Seq<TokenId>) -> TokenId,
    follow: spec_fn(SeqId, TokenId) -> TokenId,
    seq: SeqView,
)
    requires
        forall|pre: R, id: SeqId, prompt: Seq<TokenId>, token: TokenId, end: R| #[trigger]
            R::prefills(pre, id, prompt, Ok(token), end) ==> token == begin(id, prompt),
        forall|pre: R, id: SeqId, last: TokenId, token: TokenId, end: R| #[trigger]
            R::decodes(pre, id, last, Ok(token), end) ==> token == follow(id, last),
        start.core.wf(),
        model::sustainable(start),
        forall|i: int|
            0 <= i < start.core.waiting.len() ==> (
            #[trigger] start.core.waiting[i]).output.len() == 0,
        start.core.running.len() == 0,
        start.core.finished.len() == 0,
        model::runs_to(start, traces, post),
        post.core.finished.contains(seq) || post.core.running.contains(seq)
            || post.core.waiting.contains(seq),
    ensures
        seq.output.len() > 0 ==> seq.output[0] == begin(seq.id, seq.prompt),
        forall|k: int|
            0 < k < seq.output.len() ==> #[trigger] seq.output[k] == follow(
                seq.id,
                seq.output[k - 1],
            ),
{
    law_run_keeps_outputs_grounded(start, traces, post);
    assert(grounded::<R>(seq));
    if seq.output.len() > 0 {
        assert(may_begin::<R>(seq.id, seq.prompt, seq.output[0]));
    }
    assert forall|k: int| 0 < k < seq.output.len() implies #[trigger] seq.output[k] == follow(
        seq.id,
        seq.output[k - 1],
    ) by {
        assert(may_follow::<R>(seq.id, seq.output[k - 1], seq.output[k]));
    }
}

} // verus!
