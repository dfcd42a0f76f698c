//! The step loop is replayable: the clock decides nothing.
use vstd::prelude::*;

use super::service;
use crate::counting;
use crate::engine::model::{self, Ask, EngineState, EngineView, Progress, TraceView, Turn};
use crate::engine::{turns, EngineError};
use crate::ids::SeqId;
use crate::mock::MockRuntime;
use crate::scheduler::rank::{self, Ranking};
use crate::scheduler::{self, Fcfs, PlanView, Priority, Queues, SchedulerPolicy, Slot};
use crate::sequence::{self, SeqView};

verus! {

/// The sequence but for the time of its first token.
pub open spec fn untimed(seq: SeqView) -> SeqView {
    SeqView { first_token_at: None, ..seq }
}

/// The same sequences, in the same order, but for the times of first tokens.
pub open spec fn alike_seqs(a: Seq<SeqView>, b: Seq<SeqView>) -> bool {
    &&& a.len() == b.len()
    &&& forall|i: int| 0 <= i < a.len() ==> untimed(#[trigger] a[i]) == untimed(b[i])
}

/// The same engine state, but for the times of first tokens.
pub open spec fn alike(a: EngineView, b: EngineView) -> bool {
    &&& alike_seqs(a.waiting, b.waiting)
    &&& alike_seqs(a.running, b.running)
    &&& alike_seqs(a.finished, b.finished)
    &&& a.pool == b.pool
    &&& a.config == b.config
    &&& a.metrics == b.metrics
    &&& a.step_count == b.step_count
}

/// Nothing about a first token's time enters the condition.
pub open spec fn timeless(keep: spec_fn(SeqView) -> bool) -> bool {
    forall|a: SeqView, b: SeqView|
        untimed(a) == untimed(b) ==> #[trigger] keep(a) == #[trigger] keep(b)
}

/// Such conditions select alike.
proof fn lemma_alike_filter(a: Seq<SeqView>, b: Seq<SeqView>, keep: spec_fn(SeqView) -> bool)
    requires
        alike_seqs(a, b),
        timeless(keep),
    ensures
        alike_seqs(a.filter(keep), b.filter(keep)),
    decreases a.len(),
{
    reveal(Seq::filter);
    if a.len() > 0 {
        let (x, y) = (a.drop_last(), b.drop_last());
        assert forall|i: int| 0 <= i < x.len() implies untimed(#[trigger] x[i]) == untimed(y[i]) by {
            assert(untimed(a[i]) == untimed(b[i]));
        }
        lemma_alike_filter(x, y, keep);
        assert(untimed(a[a.len() - 1]) == untimed(b[b.len() - 1]));
        assert(keep(a.last()) == keep(b.last()));
        assert forall|i: int| 0 <= i < a.filter(keep).len() implies untimed(
            #[trigger] a.filter(keep)[i],
        ) == untimed(b.filter(keep)[i]) by {
            if i < x.filter(keep).len() {
                assert(untimed(x.filter(keep)[i]) == untimed(y.filter(keep)[i]));
            }
        }
    }
}

/// The conditions that the engine selects by are of that kind.
proof fn lemma_timeless(ids: Seq<SeqId>, limit: usize)
    ensures
        timeless(model::named_in(ids)),
        timeless(model::not_named_in(ids)),
        timeless(model::not_longer_than(limit)),
        timeless(model::is_done()),
        timeless(model::is_not_done()),
{
    assert forall|a: SeqView, b: SeqView| untimed(a) == untimed(b) implies a.id == b.id
        && a.state == b.state && a.len() == b.len() by {
        assert(untimed(a).id == a.id && untimed(b).id == b.id);
        assert(untimed(a).state == a.state && untimed(b).state == b.state);
        assert(untimed(a).len() == a.len() && untimed(b).len() == b.len());
    }
}

/// Sequences that are alike have the same fields.
proof fn lemma_alike_fields(a: SeqView, b: SeqView)
    requires
        untimed(a) == untimed(b),
    ensures
        a.id == b.id,
        a.state == b.state,
        a.prompt == b.prompt,
        a.output == b.output,
        a.table == b.table,
        a.priority == b.priority,
        a.sampling == b.sampling,
        a.arrival == b.arrival,
{
    assert(untimed(a).id == a.id && untimed(b).id == b.id);
    assert(untimed(a).state == a.state && untimed(b).state == b.state);
    assert(untimed(a).prompt == a.prompt && untimed(b).prompt == b.prompt);
    assert(untimed(a).output == a.output && untimed(b).output == b.output);
    assert(untimed(a).table == a.table && untimed(b).table == b.table);
    assert(untimed(a).priority == a.priority && untimed(b).priority == b.priority);
    assert(untimed(a).sampling == a.sampling && untimed(b).sampling == b.sampling);
    assert(untimed(a).arrival == a.arrival && untimed(b).arrival == b.arrival);
}

/// Sequences that are alike have the same ids and release the same blocks.
proof fn lemma_alike_release(a: Seq<SeqView>, b: Seq<SeqView>, pool: crate::block::PoolView)
    requires
        alike_seqs(a, b),
    ensures
        model::ids_of(a) == model::ids_of(b),
        model::release_seqs(pool, a) == model::release_seqs(pool, b),
    decreases a.len(),
{
    assert forall|i: int| 0 <= i < a.len() implies a[i].id == b[i].id by {
        lemma_alike_fields(a[i], b[i]);
    }
    assert(model::ids_of(a) =~= model::ids_of(b));
    if a.len() > 0 {
        let (x, y) = (a.drop_last(), b.drop_last());
        assert forall|i: int| 0 <= i < x.len() implies untimed(#[trigger] x[i]) == untimed(y[i]) by {
            assert(untimed(a[i]) == untimed(b[i]));
        }
        lemma_alike_release(x, y, pool);
        assert(untimed(a[a.len() - 1]) == untimed(b[b.len() - 1]));
        lemma_alike_fields(a.last(), b.last());
    }
}

/// Applying the same plan to engines that are alike leaves them alike.
proof fn lemma_alike_arranged(a: EngineView, b: EngineView, plan: PlanView)
    requires
        alike(a, b),
    ensures
        alike(a.arranged(plan), b.arranged(plan)),
        model::ids_of(a.evicted(plan.preempt)) == model::ids_of(b.evicted(plan.preempt)),
        model::ids_of(a.after_preempt(plan.preempt).admissible(plan.prefill)) == model::ids_of(
            b.after_preempt(plan.preempt).admissible(plan.prefill),
        ),
{
    let limit = a.config.swap_threshold_tokens;
    lemma_timeless(plan.preempt, limit);
    lemma_timeless(plan.prefill, limit);
    let (p, q) = (a.after_preempt(plan.preempt), b.after_preempt(plan.preempt));
    let (x, y) = (a.evicted(plan.preempt), b.evicted(plan.preempt));
    lemma_alike_filter(a.running, b.running, model::named_in(plan.preempt));
    lemma_alike_filter(a.running, b.running, model::not_named_in(plan.preempt));
    lemma_alike_filter(x, y, model::not_longer_than(limit));
    lemma_alike_release(x, y, a.pool);
    assert forall|i: int| 0 <= i < p.waiting.len() implies untimed(#[trigger] p.waiting[i])
        == untimed(q.waiting[i]) by {
        if i < x.len() {
            let j = x.len() - 1 - i;
            assert(untimed(x[j]) == untimed(y[j]));
            lemma_alike_fields(x[j], y[j]);
        } else {
            assert(untimed(a.waiting[i - x.len()]) == untimed(b.waiting[i - x.len()]));
        }
    }
    assert(alike(p, q));
    let (c, d) = (p.admissible(plan.prefill), q.admissible(plan.prefill));
    let (e, f) = (p.after_admit(plan.prefill), q.after_admit(plan.prefill));
    lemma_alike_filter(p.waiting, q.waiting, model::named_in(plan.prefill));
    lemma_alike_filter(p.waiting, q.waiting, model::not_named_in(plan.prefill));
    lemma_alike_release(c, d, p.pool);
    assert forall|i: int| 0 <= i < e.running.len() implies untimed(#[trigger] e.running[i])
        == untimed(f.running[i]) by {
        if i < p.running.len() {
            assert(untimed(p.running[i]) == untimed(q.running[i]));
        } else {
            let j = i - p.running.len();
            assert(untimed(c[j]) == untimed(d[j]));
            lemma_alike_fields(c[j], d[j]);
        }
    }
}

/// Reclaiming what finished leaves engines alike that are.
proof fn lemma_alike_reconciled(a: EngineView, b: EngineView)
    requires
        alike(a, b),
    ensures
        alike(a.reconciled(), b.reconciled()),
        model::ids_of(a.running.filter(model::is_done())) == model::ids_of(
            b.running.filter(model::is_done()),
        ),
{
    lemma_timeless(Seq::empty(), 0);
    lemma_alike_filter(a.running, b.running, model::is_done());
    lemma_alike_filter(a.running, b.running, model::is_not_done());
    let (x, y) = (a.running.filter(model::is_done()), b.running.filter(model::is_done()));
    lemma_alike_release(x, y, a.pool);
    let (c, d) = (a.reconciled(), b.reconciled());
    assert forall|i: int| 0 <= i < c.finished.len() implies untimed(#[trigger] c.finished[i])
        == untimed(d.finished[i]) by {
        if i < a.finished.len() {
            assert(untimed(a.finished[i]) == untimed(b.finished[i]));
        } else {
            let j = i - a.finished.len();
            assert(untimed(x[j]) == untimed(y[j]));
            lemma_alike_fields(x[j], y[j]);
        }
    }
}

/// The same progress, but for the times of first tokens.
pub open spec fn alike_progress(a: Progress, b: Progress) -> bool {
    alike(a.engine, b.engine) && a.error == b.error
}

/// Replacing sequences by others that are alike.
proof fn lemma_alike_update(a: Seq<SeqView>, b: Seq<SeqView>, idx: int, x: SeqView, y: SeqView)
    requires
        alike_seqs(a, b),
        0 <= idx < a.len(),
        untimed(x) == untimed(y),
    ensures
        alike_seqs(a.update(idx, x), b.update(idx, y)),
{
    assert forall|i: int| 0 <= i < a.len() implies untimed(#[trigger] a.update(idx, x)[i])
        == untimed(b.update(idx, y)[i]) by {
        assert(untimed(a[i]) == untimed(b[i]));
    }
}

/// The same answer leaves engines alike that are.
proof fn lemma_alike_answered(a: EngineView, b: EngineView, idx: int, s: Turn, t: Turn)
    requires
        alike(a, b),
        0 <= idx < a.running.len(),
        s.reply == t.reply,
    ensures
        alike_progress(a.answered(idx, s), b.answered(idx, t)),
{
    let (x, y) = (a.running[idx], b.running[idx]);
    assert(untimed(x) == untimed(y));
    lemma_alike_fields(x, y);
    let (c, d) = (a.answered(idx, s).engine, b.answered(idx, t).engine);
    assert(untimed(c.running[idx]) == untimed(d.running[idx]));
    lemma_alike_update(a.running, b.running, idx, c.running[idx], d.running[idx]);
    assert(c.running =~= a.running.update(idx, c.running[idx]));
    assert(d.running =~= b.running.update(idx, d.running[idx]));
}

/// Mapping a prompt leaves engines alike that are.
proof fn lemma_alike_prefix_mapped(a: EngineView, b: EngineView, idx: int)
    requires
        alike(a, b),
        0 <= idx < a.running.len(),
    ensures
        alike_progress(a.prefix_mapped(idx), b.prefix_mapped(idx)),
{
    let (x, y) = (a.running[idx], b.running[idx]);
    assert(untimed(x) == untimed(y));
    lemma_alike_fields(x, y);
    assert(x.unmapped_hashes() == y.unmapped_hashes());
    let blocks = sequence::share_blocks(a.pool, x.unmapped_hashes()).blocks;
    lemma_alike_update(a.running, b.running, idx, x.mapped(blocks), y.mapped(blocks));
}

/// A turn with the scripted runtime leaves engines alike that are, and the
/// runtime in the same state.
proof fn lemma_alike_turn(
    a: EngineView,
    b: EngineView,
    ask: Ask,
    idx: int,
    s: Turn,
    t: Turn,
    pre_a: MockRuntime,
    post_a: MockRuntime,
    pre_b: MockRuntime,
    post_b: MockRuntime,
)
    requires
        alike(a, b),
        0 <= idx < a.running.len(),
        pre_a@ == pre_b@,
        a.consults(ask, idx, s, pre_a, post_a),
        b.consults(ask, idx, t, pre_b, post_b),
    ensures
        alike_progress(a.turn_taken(ask, idx, s), b.turn_taken(ask, idx, t)),
        post_a@ == post_b@,
{
    let (x, y) = (a.running[idx], b.running[idx]);
    assert(untimed(x) == untimed(y));
    lemma_alike_fields(x, y);
    match ask {
        Ask::Idle => {},
        Ask::Prefill => {
            lemma_alike_prefix_mapped(a, b, idx);
            if a.prefix_mapped(idx).error is None {
                lemma_alike_answered(
                    a.prefix_mapped(idx).engine,
                    b.prefix_mapped(idx).engine,
                    idx,
                    s,
                    t,
                );
            }
        },
        _ => {
            lemma_alike_answered(a, b, idx, s, t);
        },
    }
}

/// The turns of a step leave engines alike that are, and the runtime in the same
/// state.
proof fn lemma_alike_executed(
    a: EngineView,
    b: EngineView,
    plan: PlanView,
    turns_a: Seq<Turn>,
    turns_b: Seq<Turn>,
    states_a: Seq<MockRuntime>,
    states_b: Seq<MockRuntime>,
    n: nat,
)
    requires
        alike(a, b),
        a.served(plan, turns_a, a.running.len(), states_a),
        b.served(plan, turns_b, b.running.len(), states_b),
        states_a[0]@ == states_b[0]@,
        n <= a.running.len(),
    ensures
        alike_progress(a.executed(plan, turns_a, n), b.executed(plan, turns_b, n)),
        states_a[n as int]@ == states_b[n as int]@,
    decreases n,
{
    if n > 0 {
        let k = (n - 1) as nat;
        let idx = n - 1;
        lemma_alike_executed(a, b, plan, turns_a, turns_b, states_a, states_b, k);
        turns::lemma_executed_frame(a, plan, turns_a, k);
        turns::lemma_executed_frame(b, plan, turns_b, k);
        assert(a.consulted(plan, turns_a, idx, states_a));
        assert(b.consulted(plan, turns_b, idx, states_b));
        let (p, q) = (a.executed(plan, turns_a, k), b.executed(plan, turns_b, k));
        if p.error is None {
            assert(untimed(p.engine.running[idx]) == untimed(q.engine.running[idx]));
            lemma_alike_fields(p.engine.running[idx], q.engine.running[idx]);
            lemma_alike_turn(
                p.engine,
                q.engine,
                p.engine.ask(plan, idx),
                idx,
                turns_a[idx],
                turns_b[idx],
                states_a[idx],
                states_a[n as int],
                states_b[idx],
                states_b[n as int],
            );
        }
    }
}

/// Queues that are alike.
pub open spec fn alike_queues(a: Queues, b: Queues) -> bool {
    alike_seqs(a.running, b.running) && alike_seqs(a.waiting, b.waiting)
}

/// The ranking does not look at the times of first tokens.
pub open spec fn ranks_timelessly<K: Ranking>() -> bool {
    forall|a: Queues, b: Queues, slot: Slot|
        alike_queues(a, b) && a.has(slot) ==> #[trigger] K::key(a, slot) == #[trigger] K::key(
            b,
            slot,
        )
}

/// Places in queues that are alike hold sequences that are.
proof fn lemma_alike_at(a: Queues, b: Queues, slot: Slot)
    requires
        alike_queues(a, b),
        a.has(slot),
    ensures
        b.has(slot),
        untimed(a.at(slot)) == untimed(b.at(slot)),
        a.footprint(slot) == b.footprint(slot),
{
    match slot {
        Slot::Running(i) => {
            assert(untimed(a.running[i]) == untimed(b.running[i]));
        },
        Slot::Waiting(i) => {
            assert(untimed(a.waiting[i]) == untimed(b.waiting[i]));
        },
    }
    lemma_alike_fields(a.at(slot), b.at(slot));
}

/// **The policies do not look at generation times.** Neither FCFS nor the
/// priority policy lets the time of a first token decide anything.
pub proof fn law_policies_rank_timelessly()
    ensures
        ranks_timelessly::<Fcfs>(),
        ranks_timelessly::<Priority>(),
{
    assert forall|a: Queues, b: Queues, slot: Slot|
        alike_queues(a, b) && a.has(slot) implies #[trigger] Fcfs::key(a, slot)
        == #[trigger] Fcfs::key(b, slot) by {
        lemma_alike_at(a, b, slot);
        lemma_alike_fields(a.at(slot), b.at(slot));
    }
    assert forall|a: Queues, b: Queues, slot: Slot|
        alike_queues(a, b) && a.has(slot) implies #[trigger] Priority::key(a, slot)
        == #[trigger] Priority::key(b, slot) by {
        lemma_alike_at(a, b, slot);
        lemma_alike_fields(a.at(slot), b.at(slot));
    }
}

/// Selecting the same places of sequences that are alike gives the same ids.
proof fn lemma_alike_ids_where(
    a: Seq<SeqView>,
    b: Seq<SeqView>,
    keep: spec_fn(int) -> bool,
    other: spec_fn(int) -> bool,
)
    requires
        alike_seqs(a, b),
        forall|i: int| 0 <= i < a.len() ==> #[trigger] keep(i) == other(i),
    ensures
        scheduler::ids_where(a, keep) == scheduler::ids_where(b, other),
    decreases a.len(),
{
    if a.len() > 0 {
        let (x, y) = (a.drop_last(), b.drop_last());
        assert forall|i: int| 0 <= i < x.len() implies untimed(#[trigger] x[i]) == untimed(y[i]) by {
            assert(untimed(a[i]) == untimed(b[i]));
        }
        lemma_alike_ids_where(x, y, keep, other);
        assert(untimed(a[a.len() - 1]) == untimed(b[b.len() - 1]));
        lemma_alike_fields(a.last(), b.last());
        assert(keep(a.len() - 1) == other(a.len() - 1));
    }
}

/// Queues that are alike get the same plan.
proof fn lemma_alike_plan<K: Ranking>(a: Queues, b: Queues, total: nat)
    requires
        ranks_timelessly::<K>(),
        alike_queues(a, b),
    ensures
        rank::ranked_plan::<K>(a, total) == rank::ranked_plan::<K>(b, total),
{
    let (p, q) = (rank::affordable::<K>(a, total), rank::affordable::<K>(b, total));
    assert(a.slots() =~= b.slots());
    assert forall|slot: Slot| #[trigger] a.has(slot) implies p(slot) == q(slot) by {
        let (f, g) = (
            rank::footprints_through::<K>(a, slot),
            rank::footprints_through::<K>(b, slot),
        );
        assert(K::key(a, slot) == K::key(b, slot));
        assert forall|i: int| 0 <= i < a.slots().len() implies f(#[trigger] a.slots()[i]) == g(
            a.slots()[i],
        ) by {
            let other = a.slots()[i];
            assert(a.has(other));
            lemma_alike_at(a, b, other);
            assert(K::key(a, other) == K::key(b, other));
        }
        counting::lemma_sum_same(a.slots(), f, g);
    }
    assert forall|i: int| 0 <= i < a.waiting.len() implies #[trigger] scheduler::at_waiting(p)(i)
        == scheduler::at_waiting(q)(i) by {
        assert(a.has(Slot::Waiting(i)));
    }
    assert forall|i: int| 0 <= i < a.running.len() implies #[trigger] scheduler::at_running(p)(i)
        == scheduler::at_running(q)(i) by {
        assert(a.has(Slot::Running(i)));
    }
    assert forall|i: int| 0 <= i < a.running.len() implies #[trigger] scheduler::not_at_running(
        p,
    )(i) == scheduler::not_at_running(q)(i) by {
        assert(a.has(Slot::Running(i)));
    }
    lemma_alike_ids_where(
        a.waiting,
        b.waiting,
        scheduler::at_waiting(p),
        scheduler::at_waiting(q),
    );
    lemma_alike_ids_where(
        a.running,
        b.running,
        scheduler::at_running(p),
        scheduler::at_running(q),
    );
    lemma_alike_ids_where(
        a.running,
        b.running,
        scheduler::not_at_running(p),
        scheduler::not_at_running(q),
    );
}

/// Sequences that are alike report the same need.
proof fn lemma_alike_need(a: Seq<SeqView>, b: Seq<SeqView>, floor: int)
    requires
        alike_seqs(a, b),
    ensures
        model::smallest_footprint_above(a, floor) == model::smallest_footprint_above(b, floor),
    decreases a.len(),
{
    if a.len() > 0 {
        let (x, y) = (a.drop_last(), b.drop_last());
        assert forall|i: int| 0 <= i < x.len() implies untimed(#[trigger] x[i]) == untimed(y[i]) by {
            assert(untimed(a[i]) == untimed(b[i]));
        }
        lemma_alike_need(x, y, floor);
        assert(untimed(a[a.len() - 1]) == untimed(b[b.len() - 1]));
        lemma_alike_fields(a.last(), b.last());
    }
}

/// **A step can be replayed.** With the scripted runtime and a policy that
/// ranks, two steps from the same state (but for the times of first tokens)
/// return the same and lead to the same state.
pub proof fn law_steps_can_be_replayed<P: SchedulerPolicy, K: Ranking>(
    a: EngineState<MockRuntime, P>,
    result_a: Result<TraceView, EngineError>,
    post_a: EngineState<MockRuntime, P>,
    b: EngineState<MockRuntime, P>,
    result_b: Result<TraceView, EngineError>,
    post_b: EngineState<MockRuntime, P>,
)
    requires
        service::ranks_by::<P, K>(),
        ranks_timelessly::<K>(),
        alike(a.core, b.core),
        a.runtime@ == b.runtime@,
        a.steps(result_a, post_a),
        b.steps(result_b, post_b),
    ensures
        result_a == result_b,
        alike(post_a.core, post_b.core),
        post_a.runtime@ == post_b.runtime@,
{
    let (plan, turns_a, states_a) =
        choose|plan: PlanView, turns: Seq<Turn>, states: Seq<MockRuntime>| #[trigger]
        a.steps_by(plan, turns, states, result_a, post_a);
    let (other, turns_b, states_b) =
        choose|plan: PlanView, turns: Seq<Turn>, states: Seq<MockRuntime>| #[trigger]
        b.steps_by(plan, turns, states, result_b, post_b);
    let (q, r) = (
        Queues { running: a.core.running, waiting: a.core.waiting },
        Queues { running: b.core.running, waiting: b.core.waiting },
    );
    lemma_alike_plan::<K>(q, r, a.core.pool.total());
    assert(plan == other);
    lemma_alike_arranged(a.core, b.core, plan);
    let (c, d) = (a.core.arranged(plan), b.core.arranged(plan));
    if c.stalled() {
        lemma_alike_need(c.waiting, d.waiting, c.pool.total() as int);
        lemma_alike_need(c.waiting, d.waiting, 0);
    } else {
        let n = c.running.len();
        lemma_alike_executed(c, d, plan, turns_a, turns_b, states_a, states_b, n);
        let (e, f) = (c.executed(plan, turns_a, n), d.executed(plan, turns_b, n));
        lemma_alike_reconciled(e.engine, f.engine);
        assert forall|i: int| 0 <= i < n implies #[trigger] c.decodes_at(plan)(i) == d.decodes_at(
            plan,
        )(i) by {
            assert(untimed(c.running[i]) == untimed(d.running[i]));
            lemma_alike_fields(c.running[i], d.running[i]);
        }
        lemma_alike_ids_where(c.running, d.running, c.decodes_at(plan), d.decodes_at(plan));
    }
}

/// The first `n` steps of two runs from the same state are the same.
proof fn lemma_trails_alike<P: SchedulerPolicy, K: Ranking>(
    trail_a: Seq<EngineState<MockRuntime, P>>,
    traces_a: Seq<TraceView>,
    trail_b: Seq<EngineState<MockRuntime, P>>,
    traces_b: Seq<TraceView>,
    n: int,
)
    requires
        service::ranks_by::<P, K>(),
        ranks_timelessly::<K>(),
        model::runs(trail_a, traces_a),
        model::runs(trail_b, traces_b),
        alike(trail_a[0].core, trail_b[0].core),
        trail_a[0].runtime@ == trail_b[0].runtime@,
        0 <= n <= traces_a.len(),
        n <= traces_b.len(),
    ensures
        alike(trail_a[n].core, trail_b[n].core),
        trail_a[n].runtime@ == trail_b[n].runtime@,
        traces_a.take(n) == traces_b.take(n),
    decreases n,
{
    if n == 0 {
        assert(traces_a.take(0) =~= traces_b.take(0));
    } else {
        lemma_trails_alike::<P, K>(trail_a, traces_a, trail_b, traces_b, n - 1);
        assert(model::runs_at(trail_a, traces_a, n - 1));
        assert(model::runs_at(trail_b, traces_b, n - 1));
        law_steps_can_be_replayed::<P, K>(
            trail_a[n - 1],
            Ok(traces_a[n - 1]),
            trail_a[n],
            trail_b[n - 1],
            Ok(traces_b[n - 1]),
            trail_b[n],
        );
        assert(Ok::<TraceView, EngineError>(traces_a[n - 1])->Ok_0 == Ok::<
            TraceView,
            EngineError,
        >(traces_b[n - 1])->Ok_0);
        assert(traces_a.take(n) =~= traces_a.take(n - 1).push(traces_a[n - 1]));
        assert(traces_b.take(n) =~= traces_b.take(n - 1).push(traces_b[n - 1]));
    }
}

/// **A run can be replayed.** With the scripted runtime and a policy that ranks,
/// two runs to an idle engine from the same state (but for the times of first
/// tokens) have the same traces and lead to the same state.
pub proof fn law_runs_can_be_replayed<P: SchedulerPolicy, K: Ranking>(
    a: EngineState<MockRuntime, P>,
    traces_a: Seq<TraceView>,
    post_a: EngineState<MockRuntime, P>,
    b: EngineState<MockRuntime, P>,
    traces_b: Seq<TraceView>,
    post_b: EngineState<MockRuntime, P>,
)
    requires
        service::ranks_by::<P, K>(),
        ranks_timelessly::<K>(),
        alike(a.core, b.core),
        a.runtime@ == b.runtime@,
        model::runs_to(a, traces_a, post_a),
        model::runs_to(b, traces_b, post_b),
        post_a.core.idle(),
        post_b.core.idle(),
    ensures
        traces_a == traces_b,
        alike(post_a.core, post_b.core),
        post_a.runtime@ == post_b.runtime@,
{
    let trail_a = choose|trail: Seq<EngineState<MockRuntime, P>>| #[trigger]
        model::runs(trail, traces_a) && trail[0] == a && trail.last() == post_a;
    let trail_b = choose|trail: Seq<EngineState<MockRuntime, P>>| #[trigger]
        model::runs(trail, traces_b) && trail[0] == b && trail.last() == post_b;
    let n = if traces_a.len() < traces_b.len() {
        traces_a.len() as int
    } else {
        traces_b.len() as int
    };
    lemma_trails_alike::<P, K>(trail_a, traces_a, trail_b, traces_b, n);
    if traces_a.len() < traces_b.len() {
        assert(model::runs_at(trail_b, traces_b, n));
    } else if traces_b.len() < traces_a.len() {
        assert(model::runs_at(trail_a, traces_a, n));
    }
    assert(traces_a.take(n) =~= traces_a);
    assert(traces_b.take(n) =~= traces_b);
}

/// A run that fails and a run that goes on past the same number of steps, or
/// stops there idle, cannot start from the same state.
proof fn lemma_failure_is_shared<P: SchedulerPolicy, K: Ranking>(
    trail_a: Seq<EngineState<MockRuntime, P>>,
    traces_a: Seq<TraceView>,
    error: EngineError,
    post: EngineState<MockRuntime, P>,
    trail_b: Seq<EngineState<MockRuntime, P>>,
    traces_b: Seq<TraceView>,
)
    requires
        service::ranks_by::<P, K>(),
        ranks_timelessly::<K>(),
        model::runs(trail_a, traces_a),
        model::runs(trail_b, traces_b),
        alike(trail_a[0].core, trail_b[0].core),
        trail_a[0].runtime@ == trail_b[0].runtime@,
        !trail_a.last().core.idle(),
        trail_a.last().steps(Err(error), post),
    ensures
        traces_b.len() <= traces_a.len(),
        traces_b.len() == traces_a.len() ==> !trail_b.last().core.idle(),
{
    let n = traces_a.len() as int;
    if traces_b.len() > n {
        lemma_trails_alike::<P, K>(trail_a, traces_a, trail_b, traces_b, n);
        assert(model::runs_at(trail_b, traces_b, n));
        law_steps_can_be_replayed::<P, K>(
            trail_a[n],
            Err(error),
            post,
            trail_b[n],
            Ok(traces_b[n]),
            trail_b[n + 1],
        );
    } else if traces_b.len() == n {
        lemma_trails_alike::<P, K>(trail_a, traces_a, trail_b, traces_b, n);
    }
}

/// **A failing run can be replayed.** With the scripted runtime and a policy that
/// ranks, two runs from the same state (but for the times of first tokens) that
/// both fail do so with the same error and in the same state.
pub proof fn law_failing_runs_can_be_replayed<P: SchedulerPolicy, K: Ranking>(
    a: EngineState<MockRuntime, P>,
    error_a: EngineError,
    post_a: EngineState<MockRuntime, P>,
    b: EngineState<MockRuntime, P>,
    error_b: EngineError,
    post_b: EngineState<MockRuntime, P>,
)
    requires
        service::ranks_by::<P, K>(),
        ranks_timelessly::<K>(),
        alike(a.core, b.core),
        a.runtime@ == b.runtime@,
        model::runs_into(a, error_a, post_a),
        model::runs_into(b, error_b, post_b),
    ensures
        error_a == error_b,
        alike(post_a.core, post_b.core),
        post_a.runtime@ == post_b.runtime@,
{
    let (traces_a, last_a) =
        choose|traces: Seq<TraceView>, last: EngineState<MockRuntime, P>| #[trigger]
        model::runs_to(a, traces, last) && !last.core.idle() && last.steps(Err(error_a), post_a);
    let (traces_b, last_b) =
        choose|traces: Seq<TraceView>, last: EngineState<MockRuntime, P>| #[trigger]
        model::runs_to(b, traces, last) && !last.core.idle() && last.steps(Err(error_b), post_b);
    let trail_a = choose|trail: Seq<EngineState<MockRuntime, P>>| #[trigger]
        model::runs(trail, traces_a) && trail[0] == a && trail.last() == last_a;
    let trail_b = choose|trail: Seq<EngineState<MockRuntime, P>>| #[trigger]
        model::runs(trail, traces_b) && trail[0] == b && trail.last() == last_b;
    lemma_alike_symmetric(a.core, b.core);
    lemma_failure_is_shared::<P, K>(trail_a, traces_a, error_a, post_a, trail_b, traces_b);
    lemma_failure_is_shared::<P, K>(trail_b, traces_b, error_b, post_b, trail_a, traces_a);
    lemma_trails_alike::<P, K>(trail_a, traces_a, trail_b, traces_b, traces_a.len() as int);
    let (result_a, result_b) = (
        Err::<TraceView, EngineError>(error_a),
        Err::<TraceView, EngineError>(error_b),
    );
    law_steps_can_be_replayed::<P, K>(last_a, result_a, post_a, last_b, result_b, post_b);
    assert(result_a->Err_0 == result_b->Err_0);
}

/// **Runs end alike.** With the scripted runtime and a policy that ranks, if one
/// run comes to an idle engine, none from the same state (but for the times of
/// first tokens) fails.
pub proof fn law_runs_end_alike<P: SchedulerPolicy, K: Ranking>(
    a: EngineState<MockRuntime, P>,
    traces: Seq<TraceView>,
    post_a: EngineState<MockRuntime, P>,
    b: EngineState<MockRuntime, P>,
    error: EngineError,
    post_b: EngineState<MockRuntime, P>,
)
    requires
        service::ranks_by::<P, K>(),
        ranks_timelessly::<K>(),
        alike(a.core, b.core),
        a.runtime@ == b.runtime@,
        model::runs_to(a, traces, post_a),
        post_a.core.idle(),
    ensures
        !model::runs_into(b, error, post_b),
{
    if model::runs_into(b, error, post_b) {
        let (traces_b, last_b) =
            choose|traces: Seq<TraceView>, last: EngineState<MockRuntime, P>| #[trigger]
            model::runs_to(b, traces, last) && !last.core.idle() && last.steps(
                Err(error),
                post_b,
            );
        let trail_a = choose|trail: Seq<EngineState<MockRuntime, P>>| #[trigger]
            model::runs(trail, traces) && trail[0] == a && trail.last() == post_a;
        let trail_b = choose|trail: Seq<EngineState<MockRuntime, P>>| #[trigger]
            model::runs(trail, traces_b) && trail[0] == b && trail.last() == last_b;
        lemma_alike_symmetric(a.core, b.core);
        lemma_failure_is_shared::<P, K>(trail_b, traces_b, error, post_b, trail_a, traces);
        let n = traces.len() as int;
        lemma_trails_alike::<P, K>(trail_a, traces, trail_b, traces_b, n);
        if n < traces_b.len() {
            assert(model::runs_at(trail_b, traces_b, n));
        }
    }
}

/// Being alike goes both ways.
proof fn lemma_alike_symmetric(a: EngineView, b: EngineView)
    requires
        alike(a, b),
    ensures
        alike(b, a),
{
    assert forall|i: int| 0 <= i < b.waiting.len() implies untimed(#[trigger] b.waiting[i])
        == untimed(a.waiting[i]) by {
        assert(untimed(a.waiting[i]) == untimed(b.waiting[i]));
    }
    assert forall|i: int| 0 <= i < b.running.len() implies untimed(#[trigger] b.running[i])
        == untimed(a.running[i]) by {
        assert(untimed(a.running[i]) == untimed(b.running[i]));
    }
    assert forall|i: int| 0 <= i < b.finished.len() implies untimed(#[trigger] b.finished[i])
        == untimed(a.finished[i]) by {
        assert(untimed(a.finished[i]) == untimed(b.finished[i]));
    }
}

} // verus!
