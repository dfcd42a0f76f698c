//! What a step does to each sequence.
use std::time::Instant;
use vstd::prelude::*;

use super::generation::asked;
use super::packing::{self, all_ids, need};
use super::{counters, plans, prefix, replay, roster, sequences};
use crate::engine::model::{self, EngineState, EngineView, TraceView, Turn};
use crate::engine::{turns, upkeep, EngineError};
use crate::ids::{SeqId, TokenId};
use crate::runtime::{ModelRuntime, RuntimeError};
use crate::scheduler::{self, PlanView, SchedulerPolicy};
use crate::sequence::{SeqState, SeqView};
use crate::{block, counting};
use crate::block::AllocError;

verus! {

/// `seq` with one token more, produced at time `at`: it finishes if that was the
/// last one allowed.
pub open spec fn with_token(seq: SeqView, token: TokenId, at: Instant) -> SeqView {
    let limit = seq.sampling.max_tokens;
    SeqView {
        output: seq.output.push(token),
        first_token_at: if seq.first_token_at is None {
            Some(at)
        } else {
            seq.first_token_at
        },
        state: if limit > 0 && seq.output.len() + 1 >= limit {
            SeqState::Finished
        } else {
            seq.state
        },
        ..seq
    }
}

/// The table of `now` begins with that of `before` and has just enough blocks for
/// all tokens, unless it had more.
pub open spec fn table_grown(before: SeqView, now: SeqView) -> bool {
    let len = now.prompt.len() + now.output.len();
    let size = block::BLOCK_SIZE as nat;
    &&& before.table.len() <= now.table.len()
    &&& now.table.take(before.table.len() as int) == before.table
    &&& len <= now.table.len() * size
    &&& now.table.len() > before.table.len() ==> (now.table.len() - 1) * size < len
}

/// On its turn `seq` became `now`: the runtime was asked for its next token, and
/// went from state `pre` to state `post`. The end-of-sequence token finishes the
/// sequence and is not appended; any other is, and has a place in a block.
pub open spec fn advanced<R: ModelRuntime>(
    eos: Option<TokenId>,
    seq: SeqView,
    now: SeqView,
    token: TokenId,
    at: Instant,
    pre: R,
    post: R,
) -> bool {
    &&& asked(pre, seq, Ok(token), post)
    &&& if eos == Some(token) {
        now == (SeqView { state: SeqState::Finished, table: now.table, ..seq })
    } else {
        now == (SeqView { table: now.table, ..with_token(seq, token, at) }) && table_grown(seq, now)
    }
}

/// `now` is where it belongs: among the finished, without blocks, if it has
/// finished, and in the running set if not.
pub open spec fn landed(engine: EngineView, now: SeqView) -> bool {
    if now.state == SeqState::Finished {
        engine.finished.contains(SeqView { table: Seq::empty(), ..now })
    } else {
        engine.running.contains(now)
    }
}

/// `seq` got one token further, and is where it belongs.
pub open spec fn served<R: ModelRuntime>(
    eos: Option<TokenId>,
    seq: SeqView,
    engine: EngineView,
) -> bool {
    exists|now: SeqView, token: TokenId, at: Instant, pre: R, post: R| #[trigger]
        advanced(eos, seq, now, token, at, pre, post) && landed(engine, now)
}

/// What a successful step under `plan` does to each sequence of `engine`:
/// - a running one that is preempted gives up its blocks and waits;
/// - a waiting one that is not admitted waits on, unchanged;
/// - a running one that is decoded, and a waiting one that is admitted, gets one
///   token further;
/// - a running one that the plan does not mention runs on, unchanged;
/// - a finished one stays as it is.
pub open spec fn carried_out<R: ModelRuntime>(
    engine: EngineView,
    plan: PlanView,
    post: EngineView,
) -> bool {
    let eos = engine.config.eos_token;
    &&& forall|i: int|
        0 <= i < engine.running.len() ==> {
            let seq = #[trigger] engine.running[i];
            if plan.preempt.contains(seq.id) {
                let out = SeqView { state: SeqState::Preempted, table: Seq::empty(), ..seq };
                if plan.prefill.contains(seq.id) {
                    served::<R>(eos, (SeqView { state: SeqState::Running, ..out }), post)
                } else {
                    post.waiting.contains(out)
                }
            } else if plan.prefill.contains(seq.id) || plan.decode.contains(seq.id) {
                served::<R>(eos, seq, post)
            } else {
                landed(post, seq)
            }
        }
    &&& forall|i: int|
        0 <= i < engine.waiting.len() ==> {
            let seq = #[trigger] engine.waiting[i];
            if plan.prefill.contains(seq.id) {
                served::<R>(eos, (SeqView { state: SeqState::Running, ..seq }), post)
            } else {
                post.waiting.contains(seq)
            }
        }
    &&& engine.finished.len() <= post.finished.len()
    &&& post.finished.take(engine.finished.len() as int) == engine.finished
    &&& post.waiting.len() + post.running.len() + post.finished.len() == engine.waiting.len()
        + engine.running.len() + engine.finished.len()
    &&& post.config == engine.config
}

/// A table that was missing `needed` blocks has just enough with them.
proof fn lemma_table_grown(before: SeqView, mid: SeqView, now: SeqView, whole: nat)
    requires
        mid.table.len() >= before.table.len(),
        mid.table.take(before.table.len() as int) == before.table,
        mid.table.len() == before.table.len() || mid.table.len() == whole,
        whole * block::BLOCK_SIZE <= now.len(),
        now.table.len() == mid.table.len() + mid.missing_blocks(now.len()),
        now.table.take(mid.table.len() as int) == mid.table,
        now.len() > 0,
    ensures
        table_grown(before, now),
{
    let len = now.len();
    let size = block::BLOCK_SIZE as nat;
    let cover = block::blocks_covering(len);
    assert(now.table.take(before.table.len() as int) =~= mid.table.take(
        before.table.len() as int,
    ));
    assert(len <= cover * size && (cover - 1) * size < len) by (nonlinear_arith)
        requires
            cover == (len + size - 1) as nat / size,
            size == 16,
            len > 0,
    ;
    let t = now.table.len();
    assert(t >= cover ==> cover * size <= t * size) by (nonlinear_arith)
        requires
            size == 16,
    ;
    if t > before.table.len() && t == mid.table.len() {
        assert((whole - 1) * size < len) by (nonlinear_arith)
            requires
                whole * size <= len,
                size == 16,
        ;
    }
}

/// A turn that does not fail, and is not idle, advances its sequence.
proof fn lemma_turn_advances<R: ModelRuntime>(
    engine: EngineView,
    plan: PlanView,
    idx: int,
    turn: Turn,
    pre: R,
    post: R,
)
    requires
        engine.mid_step(plan, idx),
        0 <= idx < engine.running.len(),
        engine.consults(engine.ask(plan, idx), idx, turn, pre, post),
        engine.turn_taken(engine.ask(plan, idx), idx, turn).error is None,
        !(engine.ask(plan, idx) is Idle),
    ensures
        turn.reply is Ok,
        advanced(
            engine.config.eos_token,
            engine.running[idx],
            engine.turn_taken(engine.ask(plan, idx), idx, turn).engine.running[idx],
            turn.reply->Ok_0,
            turn.at,
            pre,
            post,
        ),
{
    let seq = engine.running[idx];
    let ask = engine.ask(plan, idx);
    let now = engine.turn_taken(ask, idx, turn).engine.running[idx];
    let token = turn.reply->Ok_0;
    let eos = engine.config.eos_token;
    let mid = if ask is Prefill {
        engine.prefix_mapped(idx).engine.running[idx]
    } else {
        seq
    };
    let whole = seq.prompt.len() / block::BLOCK_SIZE as nat;
    if ask is Prefill {
        prefix::law_mapped_prefix_is_cached(engine.pool, seq.unmapped_hashes());
        assert(mid.table.take(seq.table.len() as int) =~= seq.table);
    } else {
        assert(mid.table.take(seq.table.len() as int) =~= seq.table);
    }
    if eos != Some(token) {
        assert(now.table.take(mid.table.len() as int) =~= mid.table);
        assert(whole * block::BLOCK_SIZE <= seq.prompt.len()) by (nonlinear_arith)
            requires
                whole == seq.prompt.len() / block::BLOCK_SIZE as nat,
                block::BLOCK_SIZE == 16,
        ;
        assert(mid.missing_blocks(now.len()) == now.table.len() - mid.table.len());
        lemma_table_grown(seq, mid, now, whole);
    }
}

/// Turns that do not fail advance all that take part, and leave the others alone.
proof fn lemma_executed_advances<R: ModelRuntime>(
    engine: EngineView,
    plan: PlanView,
    turns: Seq<Turn>,
    states: Seq<R>,
    n: nat,
)
    requires
        engine.mid_step(plan, 0),
        engine.served(plan, turns, engine.running.len(), states),
        n <= engine.running.len(),
        engine.executed(plan, turns, n).error is None,
    ensures
        forall|i: int|
            0 <= i < n ==> {
                let now = #[trigger] engine.executed(plan, turns, n).engine.running[i];
                if engine.ask(plan, i) is Idle {
                    now == engine.running[i]
                } else {
                    advanced(
                        engine.config.eos_token,
                        engine.running[i],
                        now,
                        turns[i].reply->Ok_0,
                        turns[i].at,
                        states[i],
                        states[i + 1],
                    )
                }
            },
    decreases n,
{
    if n > 0 {
        let k = (n - 1) as nat;
        let idx = n - 1;
        lemma_executed_advances(engine, plan, turns, states, k);
        turns::lemma_executed_frame(engine, plan, turns, k);
        upkeep::lemma_executed_mid_step(engine, plan, turns, k);
        let before = engine.executed(plan, turns, k).engine;
        let after = engine.executed(plan, turns, n).engine;
        assert(engine.consulted(plan, turns, idx, states));
        assert(before.running[idx] == engine.running[idx]);
        assert(before.ask(plan, idx) == engine.ask(plan, idx));
        if !(engine.ask(plan, idx) is Idle) {
            lemma_turn_advances(before, plan, idx, turns[idx], states[idx], states[idx + 1]);
        }
        assert forall|i: int| 0 <= i < n implies {
            let now = #[trigger] after.running[i];
            if engine.ask(plan, i) is Idle {
                now == engine.running[i]
            } else {
                advanced(
                    engine.config.eos_token,
                    engine.running[i],
                    now,
                    turns[i].reply->Ok_0,
                    turns[i].at,
                    states[i],
                    states[i + 1],
                )
            }
        } by {
            if i < k {
                assert(after.running[i] == before.running[i]);
            }
        }
    }
}

/// Whoever has taken its turn is where it belongs once the step is over.
proof fn lemma_concluded_landed(engine: EngineView, i: int)
    requires
        0 <= i < engine.running.len(),
    ensures
        landed(engine.concluded(), engine.running[i]),
{
    let seq = engine.running[i];
    if seq.state == SeqState::Finished {
        let done = engine.running.filter(model::is_done());
        engine.running.lemma_filter_contains(model::is_done(), i);
        let k = choose|k: int| 0 <= k < done.len() && done[k] == seq;
        assert(engine.concluded().finished[engine.finished.len() + k] == (SeqView {
            table: Seq::empty(),
            ..seq
        }));
    } else {
        engine.running.lemma_filter_contains(model::is_not_done(), i);
    }
}

/// Where each sequence is once the plan is applied.
proof fn lemma_arranged_places(engine: EngineView, plan: PlanView)
    ensures
        ({
            let after = engine.arranged(plan);
            &&& forall|i: int|
                0 <= i < engine.running.len() ==> {
                    let seq = #[trigger] engine.running[i];
                    let out = SeqView { state: SeqState::Preempted, table: Seq::empty(), ..seq };
                    if plan.preempt.contains(seq.id) {
                        if plan.prefill.contains(seq.id) {
                            after.running.contains(SeqView { state: SeqState::Running, ..out })
                        } else {
                            after.waiting.contains(out)
                        }
                    } else {
                        after.running.contains(seq)
                    }
                }
            &&& forall|i: int|
                0 <= i < engine.waiting.len() ==> {
                    let seq = #[trigger] engine.waiting[i];
                    if plan.prefill.contains(seq.id) {
                        after.running.contains(SeqView { state: SeqState::Running, ..seq })
                    } else {
                        after.waiting.contains(seq)
                    }
                }
        }),
{
    let after = engine.arranged(plan);
    let mid = engine.after_preempt(plan.preempt);
    let evicted = engine.evicted(plan.preempt);
    assert forall|j: int| 0 <= j < mid.waiting.len() implies {
        let seq = #[trigger] mid.waiting[j];
        if plan.prefill.contains(seq.id) {
            after.running.contains(SeqView { state: SeqState::Running, ..seq })
        } else {
            after.waiting.contains(seq)
        }
    } by {
        let seq = mid.waiting[j];
        if plan.prefill.contains(seq.id) {
            let admitted = mid.admissible(plan.prefill);
            mid.waiting.lemma_filter_contains(model::named_in(plan.prefill), j);
            let k = choose|k: int| 0 <= k < admitted.len() && admitted[k] == seq;
            assert(after.running[mid.running.len() + k] == (SeqView {
                state: SeqState::Running,
                ..seq
            }));
        } else {
            mid.waiting.lemma_filter_contains(model::not_named_in(plan.prefill), j);
        }
    }
    assert forall|i: int| 0 <= i < engine.running.len() implies {
        let seq = #[trigger] engine.running[i];
        let out = SeqView { state: SeqState::Preempted, table: Seq::empty(), ..seq };
        if plan.preempt.contains(seq.id) {
            if plan.prefill.contains(seq.id) {
                after.running.contains(SeqView { state: SeqState::Running, ..out })
            } else {
                after.waiting.contains(out)
            }
        } else {
            after.running.contains(seq)
        }
    } by {
        let seq = engine.running[i];
        if plan.preempt.contains(seq.id) {
            engine.running.lemma_filter_contains(model::named_in(plan.preempt), i);
            let k = choose|k: int| 0 <= k < evicted.len() && evicted[k] == seq;
            let j = evicted.len() - 1 - k;
            assert(mid.waiting[j] == (SeqView {
                state: SeqState::Preempted,
                table: Seq::empty(),
                ..seq
            }));
        } else {
            engine.running.lemma_filter_contains(model::not_named_in(plan.preempt), i);
            let k = choose|k: int| 0 <= k < mid.running.len() && mid.running[k] == seq;
            assert(after.running[k] == seq);
        }
    }
    assert forall|i: int| 0 <= i < engine.waiting.len() implies {
        let seq = #[trigger] engine.waiting[i];
        if plan.prefill.contains(seq.id) {
            after.running.contains(SeqView { state: SeqState::Running, ..seq })
        } else {
            after.waiting.contains(seq)
        }
    } by {
        assert(mid.waiting[evicted.len() + i] == engine.waiting[i]);
    }
}

/// The ids of those that go back to the waiting queue, in the order of the running
/// set.
pub open spec fn victims(engine: EngineView, plan: PlanView) -> Seq<SeqId> {
    all_ids(engine.running).filter(|id: SeqId| plan.preempt.contains(id))
}

/// The ids that wait once the victims are back at the head of the queue, the last
/// one foremost.
pub open spec fn queue(engine: EngineView, plan: PlanView) -> Seq<SeqId> {
    victims(engine, plan).reverse() + all_ids(engine.waiting)
}

/// The ids of those that take part in the step: who runs on, then who is
/// admitted.
pub open spec fn lineup(engine: EngineView, plan: PlanView) -> Seq<SeqId> {
    all_ids(engine.running).filter(|id: SeqId| !plan.preempt.contains(id)) + queue(
        engine,
        plan,
    ).filter(|id: SeqId| plan.prefill.contains(id))
}

/// The queues keep their order: the victims are put at the head of the waiting
/// queue, the admitted leave it for the end of the running set, and when ids are
/// distinct the finished leave that in its order.
pub open spec fn in_order(
    engine: EngineView,
    plan: PlanView,
    trace: TraceView,
    post: EngineView,
) -> bool {
    &&& all_ids(post.waiting) == queue(engine, plan).filter(
        |id: SeqId| !plan.prefill.contains(id),
    )
    &&& roster::distinct(engine) ==> {
        &&& all_ids(post.running) == lineup(engine, plan).filter(
            |id: SeqId| !trace.finished.contains(id),
        )
        &&& trace.finished == lineup(engine, plan).filter(
            |id: SeqId| trace.finished.contains(id),
        )
    }
}

/// The trace reports what happened.
pub open spec fn reported(
    engine: EngineView,
    plan: PlanView,
    trace: TraceView,
    post: EngineView,
) -> bool {
    &&& trace.step == engine.step_count
    &&& trace.preempted == victims(engine, plan)
    &&& trace.admitted == queue(engine, plan).filter(|id: SeqId| plan.prefill.contains(id))
    &&& trace.decoded == all_ids(engine.running).filter(
        |id: SeqId|
            !plan.preempt.contains(id) && !plan.prefill.contains(id) && plan.decode.contains(id),
    )
    &&& all_ids(post.finished) == all_ids(engine.finished) + trace.finished
    &&& trace.running_after == post.running.len()
    &&& trace.free_blocks_after == post.pool.free.len()
}

/// `after` is `before` with `n` more counted, up to wrap-around.
pub open spec fn counts(before: u64, n: nat, after: u64) -> bool {
    after as int == (before + n) % 0x1_0000_0000_0000_0000
}

/// How many of `seqs` are preempted and have at most, or more than, `limit`
/// tokens.
pub open spec fn recoveries(
    seqs: Seq<SeqView>,
    plan: PlanView,
    limit: usize,
    short: bool,
) -> nat {
    seqs.filter(
        |seq: SeqView|
            plan.preempt.contains(seq.id) && short == (seq.prompt.len() + seq.output.len()
                <= limit),
    ).len()
}

/// The counters count what happened.
pub open spec fn counted(
    engine: EngineView,
    plan: PlanView,
    trace: TraceView,
    post: EngineView,
) -> bool {
    let (before, after) = (engine.metrics, post.metrics);
    let limit = engine.config.swap_threshold_tokens;
    &&& counts(engine.step_count, 1, post.step_count)
    &&& counts(before.steps, 1, after.steps)
    &&& counts(before.sequences_admitted, trace.admitted.len(), after.sequences_admitted)
    &&& counts(before.sequences_finished, trace.finished.len(), after.sequences_finished)
    &&& counts(before.preemptions, trace.preempted.len(), after.preemptions)
    &&& counts(
        before.preemptions_recompute,
        recoveries(engine.running, plan, limit, true),
        after.preemptions_recompute,
    )
    &&& counts(
        before.preemptions_swap,
        recoveries(engine.running, plan, limit, false),
        after.preemptions_swap,
    )
    &&& counters::outputs(engine) <= counters::outputs(post)
    &&& counts(
        before.tokens_generated,
        (counters::outputs(post) - counters::outputs(engine)) as nat,
        after.tokens_generated,
    )
}

/// Selecting sequences by what their ids say is selecting the ids.
proof fn lemma_ids_filter(
    seqs: Seq<SeqView>,
    keep: spec_fn(SeqView) -> bool,
    wanted: spec_fn(SeqId) -> bool,
)
    requires
        forall|i: int| 0 <= i < seqs.len() ==> keep(#[trigger] seqs[i]) == wanted(seqs[i].id),
    ensures
        all_ids(seqs.filter(keep)) == all_ids(seqs).filter(wanted),
    decreases seqs.len(),
{
    reveal(Seq::filter);
    if seqs.len() == 0 {
        assert(all_ids(seqs) =~= Seq::empty());
        assert(all_ids(seqs.filter(keep)) =~= Seq::empty());
    } else {
        let rest = seqs.drop_last();
        let last = seqs.last();
        assert forall|i: int| 0 <= i < rest.len() implies keep(#[trigger] rest[i]) == wanted(
            rest[i].id,
        ) by {
            assert(rest[i] == seqs[i]);
        }
        lemma_ids_filter(rest, keep, wanted);
        assert(keep(seqs[seqs.len() - 1]) == wanted(last.id));
        assert(all_ids(seqs).drop_last() =~= all_ids(rest));
        assert(all_ids(rest.filter(keep).push(last)) =~= all_ids(rest.filter(keep)).push(last.id));
    }
}

/// Selecting places by what the ids there say is selecting the ids.
proof fn lemma_ids_where_filter(
    seqs: Seq<SeqView>,
    keep: spec_fn(int) -> bool,
    wanted: spec_fn(SeqId) -> bool,
)
    requires
        forall|i: int| 0 <= i < seqs.len() ==> keep(i) == wanted((#[trigger] seqs[i]).id),
    ensures
        scheduler::ids_where(seqs, keep) == all_ids(seqs).filter(wanted),
    decreases seqs.len(),
{
    reveal(Seq::filter);
    if seqs.len() == 0 {
        assert(all_ids(seqs) =~= Seq::empty());
    } else {
        let rest = seqs.drop_last();
        let last = seqs.len() - 1;
        assert forall|i: int| 0 <= i < rest.len() implies keep(i) == wanted(
            (#[trigger] rest[i]).id,
        ) by {
            assert(rest[i] == seqs[i]);
        }
        lemma_ids_where_filter(rest, keep, wanted);
        assert(keep(last) == wanted(seqs[last].id));
        assert(all_ids(seqs).drop_last() =~= all_ids(rest));
    }
}

/// Filtering what was filtered.
proof fn lemma_filter_twice<T>(
    items: Seq<T>,
    first: spec_fn(T) -> bool,
    second: spec_fn(T) -> bool,
    both: spec_fn(T) -> bool,
)
    requires
        forall|item: T| #[trigger] both(item) == (first(item) && second(item)),
    ensures
        items.filter(first).filter(second) == items.filter(both),
    decreases items.len(),
{
    reveal(Seq::filter);
    if items.len() > 0 {
        lemma_filter_twice(items.drop_last(), first, second, both);
        let part = items.drop_last().filter(first);
        if first(items.last()) {
            assert(part.push(items.last()).drop_last() =~= part);
        }
    }
}

/// Filtering away everything leaves nothing.
proof fn lemma_filter_nothing<T>(items: Seq<T>, keep: spec_fn(T) -> bool)
    requires
        forall|i: int| 0 <= i < items.len() ==> !keep(#[trigger] items[i]),
    ensures
        items.filter(keep).len() == 0,
{
    if items.filter(keep).len() > 0 {
        let j = upkeep::lemma_filter_source(items, keep, 0);
    }
}

/// The ids in the queues once the plan is applied.
proof fn lemma_arranged_ids(engine: EngineView, plan: PlanView)
    ensures
        ({
            let after = engine.arranged(plan);
            let mid = engine.after_preempt(plan.preempt);
            let wanted = |id: SeqId| plan.prefill.contains(id);
            &&& all_ids(engine.evicted(plan.preempt)) == victims(engine, plan)
            &&& all_ids(mid.running) == all_ids(engine.running).filter(
                |id: SeqId| !plan.preempt.contains(id),
            )
            &&& all_ids(mid.admissible(plan.prefill)) == queue(engine, plan).filter(wanted)
            &&& all_ids(after.waiting) == queue(engine, plan).filter(
                |id: SeqId| !plan.prefill.contains(id),
            )
            &&& all_ids(after.running) == lineup(engine, plan)
        }),
{
    let after = engine.arranged(plan);
    let mid = engine.after_preempt(plan.preempt);
    let evicted = engine.evicted(plan.preempt);
    let admitted = mid.admissible(plan.prefill);
    lemma_ids_filter(
        engine.running,
        model::named_in(plan.preempt),
        |id: SeqId| plan.preempt.contains(id),
    );
    lemma_ids_filter(
        engine.running,
        model::not_named_in(plan.preempt),
        |id: SeqId| !plan.preempt.contains(id),
    );
    assert(all_ids(mid.waiting) =~= all_ids(evicted).reverse() + all_ids(engine.waiting));
    lemma_ids_filter(
        mid.waiting,
        model::named_in(plan.prefill),
        |id: SeqId| plan.prefill.contains(id),
    );
    lemma_ids_filter(
        mid.waiting,
        model::not_named_in(plan.prefill),
        |id: SeqId| !plan.prefill.contains(id),
    );
    assert(all_ids(after.running) =~= all_ids(mid.running) + all_ids(admitted));
}

/// The ids that are decoded.
proof fn lemma_decoded_ids(engine: EngineView, plan: PlanView)
    ensures
        engine.arranged(plan).decoded(plan) == all_ids(engine.running).filter(
            |id: SeqId|
                !plan.preempt.contains(id) && !plan.prefill.contains(id) && plan.decode.contains(
                    id,
                ),
        ),
{
    let arranged = engine.arranged(plan);
    let mid = engine.after_preempt(plan.preempt);
    let stays = |id: SeqId| !plan.preempt.contains(id);
    let wanted = |id: SeqId| !plan.prefill.contains(id) && plan.decode.contains(id);
    let both = |id: SeqId|
        !plan.preempt.contains(id) && !plan.prefill.contains(id) && plan.decode.contains(id);
    let kept = all_ids(engine.running).filter(stays);
    let joined = queue(engine, plan).filter(|id: SeqId| plan.prefill.contains(id));
    lemma_arranged_ids(engine, plan);
    lemma_ids_where_filter(arranged.running, arranged.decodes_at(plan), wanted);
    Seq::filter_distributes_over_add(kept, joined, wanted);
    assert forall|i: int| 0 <= i < joined.len() implies !wanted(#[trigger] joined[i]) by {
        let j = upkeep::lemma_filter_source(
            queue(engine, plan),
            |id: SeqId| plan.prefill.contains(id),
            i,
        );
    }
    lemma_filter_nothing(joined, wanted);
    lemma_filter_twice(all_ids(engine.running), stays, wanted, both);
    assert(kept.filter(wanted) + joined.filter(wanted) =~= kept.filter(wanted));
}

/// The victims that are recovered in one way or the other.
proof fn lemma_recoveries(engine: EngineView, plan: PlanView)
    ensures
        ({
            let limit = engine.config.swap_threshold_tokens;
            let evicted = engine.evicted(plan.preempt);
            let short = evicted.filter(model::not_longer_than(limit)).len();
            &&& recoveries(engine.running, plan, limit, true) == short
            &&& recoveries(engine.running, plan, limit, false) == evicted.len() - short
        }),
{
    let limit = engine.config.swap_threshold_tokens;
    let evicted = engine.evicted(plan.preempt);
    let short = model::not_longer_than(limit);
    let long = |seq: SeqView| !(seq.len() <= limit);
    let one = |seq: SeqView|
        plan.preempt.contains(seq.id) && true == (seq.prompt.len() + seq.output.len() <= limit);
    let two = |seq: SeqView|
        plan.preempt.contains(seq.id) && false == (seq.prompt.len() + seq.output.len() <= limit);
    lemma_filter_twice(engine.running, model::named_in(plan.preempt), short, one);
    lemma_filter_twice(engine.running, model::named_in(plan.preempt), long, two);
    counting::lemma_sum_split(evicted, short, long, |seq: SeqView| 1nat);
    lemma_ones(evicted);
    lemma_ones(evicted.filter(short));
    lemma_ones(evicted.filter(long));
}

/// Adding up ones counts.
proof fn lemma_ones(seqs: Seq<SeqView>)
    ensures
        counting::sum(seqs, |seq: SeqView| 1nat) == seqs.len(),
    decreases seqs.len(),
{
    if seqs.len() > 0 {
        lemma_ones(seqs.drop_last());
    }
}

/// In a list without repetitions, a part that was selected is found again by
/// membership.
proof fn lemma_members(
    seqs: Seq<SeqView>,
    keep: spec_fn(SeqView) -> bool,
    drop: spec_fn(SeqView) -> bool,
)
    requires
        all_ids(seqs).no_duplicates(),
        forall|seq: SeqView| #[trigger] drop(seq) == !keep(seq),
    ensures
        ({
            let part = all_ids(seqs.filter(keep));
            &&& part == all_ids(seqs).filter(|id: SeqId| part.contains(id))
            &&& all_ids(seqs.filter(drop)) == all_ids(seqs).filter(
                |id: SeqId| !part.contains(id),
            )
        }),
{
    let kept = seqs.filter(keep);
    let part = all_ids(kept);
    assert forall|i: int| 0 <= i < seqs.len() implies keep(#[trigger] seqs[i]) == part.contains(
        seqs[i].id,
    ) by {
        if keep(seqs[i]) {
            seqs.lemma_filter_contains(keep, i);
            let k = choose|k: int| 0 <= k < kept.len() && kept[k] == seqs[i];
            assert(part[k] == seqs[i].id);
        }
        if part.contains(seqs[i].id) {
            let k = choose|k: int| 0 <= k < part.len() && part[k] == seqs[i].id;
            let j = upkeep::lemma_filter_source(seqs, keep, k);
            assert(all_ids(seqs)[j] == all_ids(seqs)[i]);
        }
    }
    lemma_ids_filter(seqs, keep, |id: SeqId| part.contains(id));
    lemma_ids_filter(seqs, drop, |id: SeqId| !part.contains(id));
}

/// The waiting queue with the victims back at its head, the last one foremost,
/// without their blocks.
pub open spec fn with_victims(engine: EngineView, plan: PlanView) -> Seq<SeqView> {
    engine.running.filter(|seq: SeqView| plan.preempt.contains(seq.id)).map_values(
        |seq: SeqView| SeqView { state: SeqState::Preempted, table: Seq::empty(), ..seq },
    ).reverse() + engine.waiting
}

/// The sequences that are left waiting.
pub open spec fn left_waiting(engine: EngineView, plan: PlanView) -> Seq<SeqView> {
    with_victims(engine, plan).filter(|seq: SeqView| !plan.prefill.contains(seq.id))
}

/// The sequences that take part in the step: who runs on, then who is admitted.
pub open spec fn participants(engine: EngineView, plan: PlanView) -> Seq<SeqView> {
    engine.running.filter(|seq: SeqView| !plan.preempt.contains(seq.id)) + with_victims(
        engine,
        plan,
    ).filter(|seq: SeqView| plan.prefill.contains(seq.id)).map_values(
        |seq: SeqView| SeqView { state: SeqState::Running, ..seq },
    )
}

/// Those are the ones that wait and run once the plan is applied.
proof fn lemma_participants(engine: EngineView, plan: PlanView)
    ensures
        engine.arranged(plan).running == participants(engine, plan),
        engine.arranged(plan).waiting == left_waiting(engine, plan),
{
    let victim = |seq: SeqView| plan.preempt.contains(seq.id);
    let stays = |seq: SeqView| !plan.preempt.contains(seq.id);
    let wanted = |seq: SeqView| plan.prefill.contains(seq.id);
    let unwanted = |seq: SeqView| !plan.prefill.contains(seq.id);
    let out = |seq: SeqView| SeqView { state: SeqState::Preempted, table: Seq::empty(), ..seq };
    let on = |seq: SeqView| SeqView { state: SeqState::Running, ..seq };
    assert(model::named_in(plan.preempt) =~= victim);
    assert(model::not_named_in(plan.preempt) =~= stays);
    assert(model::named_in(plan.prefill) =~= wanted);
    assert(model::not_named_in(plan.prefill) =~= unwanted);
    assert(model::to_preempted() =~= out);
    assert(model::to_running() =~= on);
}

/// The participants became `now`, each by the answer it got on its turn; those that
/// finished are appended to the finished ones, without their blocks, and the
/// others run on, both in order. Whoever was left waiting waits.
pub open spec fn settled<R: ModelRuntime>(
    engine: EngineView,
    plan: PlanView,
    states: Seq<R>,
    now: Seq<SeqView>,
    post: EngineView,
) -> bool {
    let all = participants(engine, plan);
    &&& now.len() == all.len()
    &&& forall|i: int|
        0 <= i < all.len() ==> {
            let seq = #[trigger] now[i];
            if plan.prefill.contains(all[i].id) || plan.decode.contains(all[i].id) {
                exists|token: TokenId, at: Instant| #[trigger]
                    advanced(
                        engine.config.eos_token,
                        all[i],
                        seq,
                        token,
                        at,
                        states[i],
                        states[i + 1],
                    )
            } else {
                seq == all[i]
            }
        }
    &&& post.running == now.filter(|seq: SeqView| seq.state != SeqState::Finished)
    &&& post.finished == engine.finished + now.filter(
        |seq: SeqView| seq.state == SeqState::Finished,
    ).map_values(|seq: SeqView| SeqView { table: Seq::empty(), ..seq })
    &&& post.waiting == left_waiting(engine, plan)
}

/// The runtime went through `states` while it was asked for the next token of each
/// participant that the plan names, in order, and answered each.
pub open spec fn asked_in_order<R: ModelRuntime>(
    engine: EngineView,
    plan: PlanView,
    states: Seq<R>,
) -> bool {
    let all = participants(engine, plan);
    &&& states.len() == all.len() + 1
    &&& forall|i: int|
        0 <= i < all.len() ==> {
            let seq = #[trigger] all[i];
            if plan.prefill.contains(seq.id) || plan.decode.contains(seq.id) {
                exists|token: TokenId| #[trigger] asked(states[i], seq, Ok(token), states[i + 1])
            } else {
                states[i] == states[i + 1]
            }
        }
}

/// **A step does to each sequence what the plan says.** A successful step carries
/// out a plan that the policy may make for the queues and the pool as they are,
/// keeps the queues in order, reports what happened, and counts it; the runtime
/// is asked for one participant after the other.
pub proof fn law_step_carries_out_the_plan<R: ModelRuntime, P: SchedulerPolicy>(
    start: EngineState<R, P>,
    trace: TraceView,
    post: EngineState<R, P>,
) -> (carried: (PlanView, Seq<R>, Seq<SeqView>))
    requires
        start.core.wf(),
        start.steppable(),
        start.steps(Ok(trace), post),
    ensures
        P::plans(
            start.policy,
            start.core.waiting,
            start.core.running,
            start.core.pool,
            carried.0,
            post.policy,
        ),
        carried_out::<R>(start.core, carried.0, post.core),
        in_order(start.core, carried.0, trace, post.core),
        reported(start.core, carried.0, trace, post.core),
        counted(start.core, carried.0, trace, post.core),
        asked_in_order(start.core, carried.0, carried.1),
        settled(start.core, carried.0, carried.1, carried.2, post.core),
        carried.1[0] == start.runtime,
        carried.1[carried.1.len() - 1] == post.runtime,
{
    let (plan, turns, states) = choose|plan: PlanView, turns: Seq<Turn>, states: Seq<R>| #[trigger]
        start.steps_by(plan, turns, states, Ok(trace), post);
    let engine = start.core;
    let eos = engine.config.eos_token;
    let arranged = engine.arranged(plan);
    let n = arranged.running.len();
    assert(engine.executable(plan));
    upkeep::lemma_stepped_wf(engine, plan, turns);
    lemma_arranged_places(engine, plan);
    lemma_executed_advances(arranged, plan, turns, states, n);
    turns::lemma_executed_frame(arranged, plan, turns, n);
    let executed = arranged.executed(plan, turns, n).engine;
    assert forall|seq: SeqView| #[trigger] arranged.running.contains(seq) && (
    plan.prefill.contains(seq.id) || plan.decode.contains(seq.id)) implies served::<R>(
        eos,
        seq,
        post.core,
    ) by {
        let i = choose|i: int| 0 <= i < n && arranged.running[i] == seq;
        let now = executed.running[i];
        lemma_concluded_landed(executed, i);
        assert(advanced(
            eos,
            seq,
            now,
            turns[i].reply->Ok_0,
            turns[i].at,
            states[i],
            states[i + 1],
        ));
    }
    assert forall|seq: SeqView| #[trigger] arranged.running.contains(seq) && !(
    plan.prefill.contains(seq.id) || plan.decode.contains(seq.id)) implies landed(
        post.core,
        seq,
    ) by {
        let i = choose|i: int| 0 <= i < n && arranged.running[i] == seq;
        lemma_concluded_landed(executed, i);
        assert(executed.running[i] == seq);
    }
    assert forall|i: int| 0 <= i < engine.running.len() implies {
        let seq = #[trigger] engine.running[i];
        if plan.preempt.contains(seq.id) {
            let out = SeqView { state: SeqState::Preempted, table: Seq::empty(), ..seq };
            if plan.prefill.contains(seq.id) {
                served::<R>(eos, (SeqView { state: SeqState::Running, ..out }), post.core)
            } else {
                post.core.waiting.contains(out)
            }
        } else if plan.prefill.contains(seq.id) || plan.decode.contains(seq.id) {
            served::<R>(eos, seq, post.core)
        } else {
            landed(post.core, seq)
        }
    } by {}
    assert forall|i: int| 0 <= i < engine.waiting.len() implies {
        let seq = #[trigger] engine.waiting[i];
        if plan.prefill.contains(seq.id) {
            served::<R>(eos, (SeqView { state: SeqState::Running, ..seq }), post.core)
        } else {
            post.core.waiting.contains(seq)
        }
    } by {}
    assert(post.core.finished.take(engine.finished.len() as int) =~= engine.finished);
    counters::lemma_population(engine, plan, turns);
    counters::law_generated_tokens_are_counted(engine, plan, turns);
    lemma_arranged_ids(engine, plan);
    lemma_decoded_ids(engine, plan);
    lemma_recoveries(engine, plan);
    let done = executed.running.filter(model::is_done());
    assert(all_ids(executed.running) =~= all_ids(arranged.running));
    assert(model::ids_of(done) =~= all_ids(done));
    assert(all_ids(post.core.finished) =~= all_ids(engine.finished) + all_ids(done));
    assert(model::ids_of(engine.evicted(plan.preempt)) =~= all_ids(engine.evicted(plan.preempt)));
    let admitted = engine.after_preempt(plan.preempt).admissible(plan.prefill);
    assert(model::ids_of(admitted) =~= all_ids(admitted));
    if roster::distinct(engine) {
        roster::lemma_executed_distinct(engine, plan, turns, n);
        plans::lemma_distinct_ids(executed);
        assert(all_ids(executed.running).no_duplicates());
        lemma_members(executed.running, model::is_done(), model::is_not_done());
    }
    lemma_participants(engine, plan);
    let all = participants(engine, plan);
    assert forall|i: int| 0 <= i < all.len() implies {
        let seq = #[trigger] all[i];
        if plan.prefill.contains(seq.id) || plan.decode.contains(seq.id) {
            exists|token: TokenId| #[trigger] asked(states[i], seq, Ok(token), states[i + 1])
        } else {
            states[i] == states[i + 1]
        }
    } by {
        let now = executed.running[i];
        assert(arranged.consulted(plan, turns, i, states));
        replay::lemma_no_error_before(arranged, plan, turns, i as nat, n);
        turns::lemma_executed_frame(arranged, plan, turns, i as nat);
        let before = arranged.executed(plan, turns, i as nat).engine;
        assert(before.running[i] == arranged.running[i]);
        if !(arranged.ask(plan, i) is Idle) {
            assert(asked(states[i], all[i], Ok(turns[i].reply->Ok_0), states[i + 1]));
        }
    }
    let now = executed.running;
    assert forall|i: int| 0 <= i < all.len() implies {
        let seq = #[trigger] now[i];
        if plan.prefill.contains(all[i].id) || plan.decode.contains(all[i].id) {
            exists|token: TokenId, at: Instant| #[trigger]
                advanced(eos, all[i], seq, token, at, states[i], states[i + 1])
        } else {
            seq == all[i]
        }
    } by {
        if !(arranged.ask(plan, i) is Idle) {
            assert(advanced(
                eos,
                all[i],
                now[i],
                turns[i].reply->Ok_0,
                turns[i].at,
                states[i],
                states[i + 1],
            ));
        }
    }
    let over = |seq: SeqView| seq.state == SeqState::Finished;
    let not_over = |seq: SeqView| seq.state != SeqState::Finished;
    let cleared = |seq: SeqView| SeqView { table: Seq::empty(), ..seq };
    assert(model::is_done() =~= over);
    assert(model::is_not_done() =~= not_over);
    assert(model::to_unmapped() =~= cleared);
    (plan, states, now)
}

/// The `k` first participants had their turns and the next one did not get an
/// answer: those before it advanced, it and those behind it are as they were,
/// but for its blocks.
pub open spec fn stopped<R: ModelRuntime>(
    engine: EngineView,
    plan: PlanView,
    post: EngineView,
    k: int,
) -> bool {
    let all = participants(engine, plan);
    let eos = engine.config.eos_token;
    &&& 0 <= k < all.len() == post.running.len()
    &&& forall|i: int|
        0 <= i < all.len() ==> {
            let now = #[trigger] post.running[i];
            if i > k || i < k && !plan.prefill.contains(all[i].id) && !plan.decode.contains(
                all[i].id,
            ) {
                now == all[i]
            } else if i < k {
                exists|token: TokenId, at: Instant, pre: R, end: R| #[trigger]
                    advanced(eos, all[i], now, token, at, pre, end)
            } else {
                now == (SeqView { table: now.table, ..all[i] })
            }
        }
    &&& post.waiting == left_waiting(engine, plan)
    &&& post.finished == engine.finished
    &&& post.config == engine.config
    &&& post.step_count == engine.step_count
    &&& post.metrics.steps == engine.metrics.steps
    &&& post.metrics.sequences_finished == engine.metrics.sequences_finished
    &&& counts(
        engine.metrics.preemptions,
        victims(engine, plan).len(),
        post.metrics.preemptions,
    )
    &&& counts(
        engine.metrics.sequences_admitted,
        queue(engine, plan).filter(|id: SeqId| plan.prefill.contains(id)).len(),
        post.metrics.sequences_admitted,
    )
    &&& counts(
        engine.metrics.preemptions_recompute,
        recoveries(engine.running, plan, engine.config.swap_threshold_tokens, true),
        post.metrics.preemptions_recompute,
    )
    &&& counts(
        engine.metrics.preemptions_swap,
        recoveries(engine.running, plan, engine.config.swap_threshold_tokens, false),
        post.metrics.preemptions_swap,
    )
    &&& counters::outputs(engine) <= counters::outputs(post)
    &&& counts(
        engine.metrics.tokens_generated,
        (counters::outputs(post) - counters::outputs(engine)) as nat,
        post.metrics.tokens_generated,
    )
}

/// The turn at which the runtime failed.
proof fn lemma_first_failure<R: ModelRuntime>(
    engine: EngineView,
    plan: PlanView,
    turns: Seq<Turn>,
    states: Seq<R>,
    n: nat,
) -> (k: int)
    requires
        engine.mid_step(plan, 0),
        engine.served(plan, turns, engine.running.len(), states),
        n <= engine.running.len(),
        engine.executed(plan, turns, n).error matches Some(EngineError::Runtime(_)),
    ensures
        0 <= k < n,
        engine.executed(plan, turns, k as nat).error is None,
        engine.executed(plan, turns, n) == engine.executed(plan, turns, (k + 1) as nat),
        ({
            let now = engine.executed(plan, turns, n).engine.running[k];
            let error = engine.executed(plan, turns, n).error->Some_0->Runtime_0;
            &&& now == (SeqView { table: now.table, ..engine.running[k] })
            &&& asked(states[k], engine.running[k], Err(error), states[k + 1])
        }),
        engine.executed(plan, turns, n).engine.metrics.tokens_generated == engine.executed(
            plan,
            turns,
            k as nat,
        ).engine.metrics.tokens_generated,
    decreases n,
{
    let before = engine.executed(plan, turns, (n - 1) as nat);
    if before.error is Some {
        lemma_first_failure(engine, plan, turns, states, (n - 1) as nat)
    } else {
        let k = n - 1;
        turns::lemma_executed_frame(engine, plan, turns, k as nat);
        upkeep::lemma_executed_mid_step(engine, plan, turns, k as nat);
        assert(engine.consulted(plan, turns, k, states));
        assert(before.engine.running[k] == engine.running[k]);
        k
    }
}

/// **A step that the runtime fails stops there.** The sequences before the one that
/// got no answer have advanced, that one and those behind it have not, and
/// nothing is counted as a step or as finished.
pub proof fn law_failed_step_stops_at_the_failure<R: ModelRuntime, P: SchedulerPolicy>(
    start: EngineState<R, P>,
    error: RuntimeError,
    post: EngineState<R, P>,
) -> (failed: (PlanView, int, R, R))
    requires
        start.core.wf(),
        start.steppable(),
        start.steps(Err(EngineError::Runtime(error)), post),
    ensures
        P::plans(
            start.policy,
            start.core.waiting,
            start.core.running,
            start.core.pool,
            failed.0,
            post.policy,
        ),
        stopped::<R>(start.core, failed.0, post.core, failed.1),
        asked(
            failed.2,
            participants(start.core, failed.0)[failed.1],
            Err(error),
            failed.3,
        ),
{
    let result: Result<TraceView, EngineError> = Err(EngineError::Runtime(error));
    let (plan, turns, states) = choose|plan: PlanView, turns: Seq<Turn>, states: Seq<R>| #[trigger]
        start.steps_by(plan, turns, states, result, post);
    let engine = start.core;
    let eos = engine.config.eos_token;
    let arranged = engine.arranged(plan);
    let n = arranged.running.len();
    assert(engine.executable(plan));
    upkeep::lemma_stepped_wf(engine, plan, turns);
    lemma_participants(engine, plan);
    lemma_arranged_ids(engine, plan);
    let k = lemma_first_failure(arranged, plan, turns, states, n);
    lemma_executed_advances(arranged, plan, turns, states, k as nat);
    turns::lemma_executed_frame(arranged, plan, turns, k as nat);
    turns::lemma_executed_frame(arranged, plan, turns, (k + 1) as nat);
    turns::lemma_executed_frame(arranged, plan, turns, n);
    let before = arranged.executed(plan, turns, k as nat).engine;
    let weight = counters::output_lens();
    counters::lemma_executed_tokens(arranged, plan, turns, k as nat);
    roster::lemma_arranged_weight(engine, plan, weight);
    assert(post.core.running =~= before.running.update(k, post.core.running[k]));
    counting::lemma_sum_update(before.running, k, post.core.running[k], weight);
    lemma_recoveries(engine, plan);
    let all = participants(engine, plan);
    let evicted = engine.evicted(plan.preempt);
    assert(all_ids(evicted).len() == evicted.len());
    let admitted = engine.after_preempt(plan.preempt).admissible(plan.prefill);
    assert(all_ids(admitted).len() == admitted.len());
    assert forall|i: int| 0 <= i < all.len() implies {
        let now = #[trigger] post.core.running[i];
        if i > k || i < k && !plan.prefill.contains(all[i].id) && !plan.decode.contains(
            all[i].id,
        ) {
            now == all[i]
        } else if i < k {
            exists|token: TokenId, at: Instant, pre: R, end: R| #[trigger]
                advanced(eos, all[i], now, token, at, pre, end)
        } else {
            now == (SeqView { table: now.table, ..all[i] })
        }
    } by {
        if i < k {
            assert(post.core.running[i] == before.running[i]);
            if !(arranged.ask(plan, i) is Idle) {
                assert(advanced(
                    eos,
                    all[i],
                    post.core.running[i],
                    turns[i].reply->Ok_0,
                    turns[i].at,
                    states[i],
                    states[i + 1],
                ));
            }
        }
    }
    (plan, k, states[k], states[k + 1])
}

/// The least number of blocks that one of `seqs` needs, of those that need more
/// than `floor`.
pub open spec fn is_least_need(seqs: Seq<SeqView>, floor: nat, least: nat) -> bool {
    &&& least > floor
    &&& exists|i: int| 0 <= i < seqs.len() && need(#[trigger] seqs[i]) == least
    &&& forall|i: int| 0 <= i < seqs.len() && need(#[trigger] seqs[i]) > floor ==> need(seqs[i])
        >= least
}

/// **A step that can run nothing says what is missing.** Whatever the policy, a
/// step fails as unschedulable only if its plan leaves nothing to run while
/// requests wait. The error names the size of the pool and the least need of a
/// waiting request that exceeds it, or the least of all if none does. The runtime
/// is not asked, and nothing is counted as a step.
pub proof fn law_unschedulable_step_says_why<R: ModelRuntime, P: SchedulerPolicy>(
    start: EngineState<R, P>,
    needed: usize,
    capacity: usize,
    post: EngineState<R, P>,
) -> (plan: PlanView)
    requires
        start.core.wf(),
        start.steps(Err(EngineError::Unschedulable { needed, capacity }), post),
        start.core.pool.refs.len() <= usize::MAX,
        forall|i: int|
            0 <= i < post.core.waiting.len() ==> need(#[trigger] post.core.waiting[i])
                <= usize::MAX,
    ensures
        P::plans(
            start.policy,
            start.core.waiting,
            start.core.running,
            start.core.pool,
            plan,
            post.policy,
        ),
        participants(start.core, plan).len() == 0,
        post.core.running.len() == 0,
        post.core.waiting.len() > 0,
        post.core.waiting == left_waiting(start.core, plan),
        post.core.finished == start.core.finished,
        post.runtime == start.runtime,
        post.core.step_count == start.core.step_count,
        post.core.metrics.steps == start.core.metrics.steps,
        capacity == start.core.pool.refs.len(),
        is_least_need(post.core.waiting, capacity as nat, needed as nat) || (forall|i: int|
            0 <= i < post.core.waiting.len() ==> need(#[trigger] post.core.waiting[i])
                <= capacity) && is_least_need(post.core.waiting, 0, needed as nat),
{
    let result: Result<TraceView, EngineError> = Err(
        EngineError::Unschedulable { needed, capacity },
    );
    let (plan, turns, states) = choose|plan: PlanView, turns: Seq<Turn>, states: Seq<R>| #[trigger]
        start.steps_by(plan, turns, states, result, post);
    let arranged = start.core.arranged(plan);
    turns::lemma_executed_frame(arranged, plan, turns, arranged.running.len());
    upkeep::lemma_arranged_wf(start.core, plan);
    lemma_participants(start.core, plan);
    lemma_arranged_ids(start.core, plan);
    let waiting = post.core.waiting;
    let total = arranged.pool.total();
    plans::lemma_smallest_footprint(waiting, total as int);
    plans::lemma_smallest_footprint(waiting, 0);
    assert forall|i: int| 0 <= i < waiting.len() implies need(#[trigger] waiting[i])
        == waiting[i].footprint() by {
        packing::lemma_footprint(waiting[i]);
    }
    assert(need(waiting[0]) > 0);
    let found = model::unschedulable_need(waiting, total);
    let i = choose|i: int|
        0 <= i < waiting.len() && (#[trigger] waiting[i]).footprint() == found;
    assert(need(waiting[i]) == found);
    plan
}

/// **A successful step runs something.** If there is work, it admits a request or
/// leaves one running.
pub proof fn law_successful_step_runs_something<R: ModelRuntime, P: SchedulerPolicy>(
    start: EngineState<R, P>,
    trace: TraceView,
    post: EngineState<R, P>,
)
    requires
        start.steps(Ok(trace), post),
        start.core.waiting.len() + start.core.running.len() > 0,
    ensures
        trace.admitted.len() > 0 || trace.preempted.len() < start.core.running.len(),
{
    let (plan, turns, states) = choose|plan: PlanView, turns: Seq<Turn>, states: Seq<R>| #[trigger]
        start.steps_by(plan, turns, states, Ok(trace), post);
    let engine = start.core;
    counters::lemma_arranged_population(engine, plan);
    lemma_arranged_ids(engine, plan);
    let mid = engine.after_preempt(plan.preempt);
    counting::lemma_sum_split(
        engine.running,
        model::named_in(plan.preempt),
        model::not_named_in(plan.preempt),
        |seq: SeqView| 1nat,
    );
    lemma_ones(engine.running);
    lemma_ones(engine.evicted(plan.preempt));
    lemma_ones(mid.running);
}

/// Turns run out of blocks only when a sequence's blocks and the free ones together
/// do not hold its tokens.
proof fn lemma_executed_exhausted(
    engine: EngineView,
    plan: PlanView,
    turns: Seq<Turn>,
    n: nat,
) -> (k: int)
    requires
        engine.mid_step(plan, 0),
        n <= engine.running.len(),
        engine.executed(plan, turns, n).error matches Some(EngineError::Alloc(_)),
    ensures
        0 <= k < n,
        ({
            let after = engine.executed(plan, turns, n).engine;
            let seq = after.running[k];
            (seq.table.len() + after.pool.free.len()) * block::BLOCK_SIZE < seq.prompt.len()
                + seq.output.len()
        }),
    decreases n,
{
    let before = engine.executed(plan, turns, (n - 1) as nat);
    if before.error is Some {
        lemma_executed_exhausted(engine, plan, turns, (n - 1) as nat)
    } else {
        let k = n - 1;
        turns::lemma_executed_frame(engine, plan, turns, k as nat);
        upkeep::lemma_executed_mid_step(engine, plan, turns, k as nat);
        let after = engine.executed(plan, turns, n).engine;
        let seq = after.running[k];
        let ask = before.engine.ask(plan, k);
        let len = seq.prompt.len() + seq.output.len();
        let size = block::BLOCK_SIZE as nat;
        let t = seq.table.len() + after.pool.free.len();
        if ask is Prefill && before.engine.prefix_mapped(k).error is Some {
            let hashes = before.engine.running[k].unmapped_hashes();
            upkeep::lemma_prefix_mapped(before.engine, plan, k);
            sequences::law_mapping_shares_or_caches(before.engine.pool, hashes);
            assert(t * size < len) by (nonlinear_arith)
                requires
                    t < len / size || t < seq.prompt.len() / size,
                    seq.prompt.len() <= len,
                    size == 16,
            ;
        } else {
            let cover = block::blocks_covering(len);
            assert(t < cover);
            assert(t * size < len) by (nonlinear_arith)
                requires
                    t < cover,
                    cover == (len + size - 1) as nat / size,
                    size == 16,
            ;
        }
        k
    }
}

/// **A step runs out of blocks only when there are too few.** Whatever the policy,
/// it does so only if one of the sequences that take part has more tokens than
/// its blocks and all free ones together hold.
pub proof fn law_out_of_blocks_means_too_few<R: ModelRuntime, P: SchedulerPolicy>(
    start: EngineState<R, P>,
    error: AllocError,
    post: EngineState<R, P>,
) -> (k: int)
    requires
        start.core.wf(),
        start.steppable(),
        start.steps(Err(EngineError::Alloc(error)), post),
    ensures
        error == AllocError::Exhausted,
        0 <= k < post.core.running.len(),
        ({
            let seq = post.core.running[k];
            (seq.table.len() + post.core.pool.free.len()) * block::BLOCK_SIZE < seq.prompt.len()
                + seq.output.len()
        }),
        post.core.finished == start.core.finished,
        post.core.step_count == start.core.step_count,
        post.core.metrics.steps == start.core.metrics.steps,
{
    let result: Result<TraceView, EngineError> = Err(EngineError::Alloc(error));
    let (plan, turns, states) = choose|plan: PlanView, turns: Seq<Turn>, states: Seq<R>| #[trigger]
        start.steps_by(plan, turns, states, result, post);
    let arranged = start.core.arranged(plan);
    let n = arranged.running.len();
    assert(start.core.executable(plan));
    upkeep::lemma_stepped_wf(start.core, plan, turns);
    turns::lemma_executed_frame(arranged, plan, turns, n);
    lemma_executed_exhausted(arranged, plan, turns, n)
}

} // verus!
