//! What every phase of a step keeps: the pool well formed, the block tables
//! inside the pool, and room in every reference count.
use vstd::prelude::*;

use super::model::{self, EngineView, Turn};
use crate::block::{BlockHash, PoolView};
use crate::counting;
use crate::ids::SeqId;
use crate::scheduler::PlanView;
use crate::sequence::{self, SeqState, SeqView};

verus! {

/// Whatever is in a filtered sequence is in the sequence.
pub proof fn lemma_filter_source<T>(items: Seq<T>, keep: spec_fn(T) -> bool, i: int) -> (j: int)
    requires
        0 <= i < items.filter(keep).len(),
    ensures
        0 <= j < items.len(),
        items[j] == items.filter(keep)[i],
        keep(items[j]),
{
    items.lemma_filter_pred(keep, i);
    assert(items.filter(keep).contains(items.filter(keep)[i]));
    items.lemma_filter_contains_rev(keep, items.filter(keep)[i]);
    choose|j: int| 0 <= j < items.len() && items[j] == items.filter(keep)[i]
}

/// Part of a set of sequences with tables in the pool has its tables there too.
proof fn lemma_tables_filter(seqs: Seq<SeqView>, keep: spec_fn(SeqView) -> bool, pool: PoolView)
    requires
        model::tables_in(seqs, pool),
    ensures
        model::tables_in(seqs.filter(keep), pool),
{
    assert forall|i: int| 0 <= i < seqs.filter(keep).len() implies model::table_in(
        #[trigger] seqs.filter(keep)[i],
        pool,
    ) by {
        let j = lemma_filter_source(seqs, keep, i);
        assert(model::table_in(seqs[j], pool));
    }
}

/// A pool of the same size still owns the tables.
proof fn lemma_tables_same_total(seqs: Seq<SeqView>, pool: PoolView, other: PoolView)
    requires
        model::tables_in(seqs, pool),
        pool.total() == other.total(),
    ensures
        model::tables_in(seqs, other),
{
    assert forall|i: int| 0 <= i < seqs.len() implies model::table_in(
        #[trigger] seqs[i],
        other,
    ) by {
        assert(model::table_in(seqs[i], pool));
    }
}

/// Releasing the blocks of `seqs` keeps the pool well formed and adds to no
/// cached block's count.
pub proof fn lemma_release_seqs(pool: PoolView, seqs: Seq<SeqView>)
    requires
        pool.wf(),
        model::tables_in(seqs, pool),
    ensures
        model::release_seqs(pool, seqs).wf(),
        model::release_seqs(pool, seqs).total() == pool.total(),
        forall|hash: u64| #[trigger]
            model::release_seqs(pool, seqs).sharers(hash) <= pool.sharers(hash),
    decreases seqs.len(),
{
    if seqs.len() > 0 {
        let rest = seqs.drop_last();
        assert forall|i: int| 0 <= i < rest.len() implies model::table_in(
            #[trigger] rest[i],
            pool,
        ) by {
            assert(rest[i] == seqs[i]);
        }
        lemma_release_seqs(pool, rest);
        let before = model::release_seqs(pool, rest);
        assert(model::table_in(seqs[seqs.len() - 1], pool));
        assert forall|j: int| 0 <= j < seqs.last().table.len() implies before.owns(
            #[trigger] seqs.last().table[j],
        ) by {
            assert(pool.owns(seqs[seqs.len() - 1].table[j]));
        }
        before.lemma_released_all(seqs.last().table);
        assert forall|hash: u64| #[trigger]
            model::release_seqs(pool, seqs).sharers(hash) <= pool.sharers(hash) by {
            assert(before.sharers(hash) <= pool.sharers(hash));
        }
    }
}

/// The sequences that are evicted have their tables in the pool.
pub proof fn lemma_evicted_tables(engine: EngineView, victims: Seq<SeqId>)
    requires
        engine.wf(),
    ensures
        model::tables_in(engine.evicted(victims), engine.pool),
{
    lemma_tables_filter(engine.running, model::named_in(victims), engine.pool);
}

/// The sequences that are done have their tables in the pool.
pub proof fn lemma_done_tables(engine: EngineView)
    requires
        engine.wf(),
    ensures
        model::tables_in(engine.running.filter(model::is_done()), engine.pool),
{
    lemma_tables_filter(engine.running, model::is_done(), engine.pool);
}

/// Preempting keeps the engine well formed.
proof fn lemma_preempt_wf(engine: EngineView, victims: Seq<SeqId>)
    requires
        engine.wf(),
    ensures
        engine.after_preempt(victims).wf(),
        engine.after_preempt(victims).pool.total() == engine.pool.total(),
        forall|hash: u64| #[trigger]
            engine.after_preempt(victims).pool.sharers(hash) <= engine.pool.sharers(hash),
{
    let evicted = engine.evicted(victims);
    let after = engine.after_preempt(victims);
    lemma_evicted_tables(engine, victims);
    lemma_tables_filter(engine.running, model::not_named_in(victims), engine.pool);
    lemma_release_seqs(engine.pool, evicted);
    lemma_tables_same_total(after.running, engine.pool, after.pool);
    assert forall|i: int| 0 <= i < after.waiting.len() implies model::table_in(
        #[trigger] after.waiting[i],
        after.pool,
    ) by {
        if i >= evicted.len() {
            assert(after.waiting[i] == engine.waiting[i - evicted.len()]);
            assert(model::table_in(engine.waiting[i - evicted.len()], engine.pool));
        }
    }
}

/// Applying a plan to the queues keeps the engine well formed.
pub proof fn lemma_arranged_wf(engine: EngineView, plan: PlanView)
    requires
        engine.wf(),
    ensures
        engine.arranged(plan).wf(),
        engine.arranged(plan).pool.total() == engine.pool.total(),
        forall|hash: u64| #[trigger]
            engine.arranged(plan).pool.sharers(hash) <= engine.pool.sharers(hash),
{
    lemma_preempt_wf(engine, plan.preempt);
    let mid = engine.after_preempt(plan.preempt);
    let admitted = mid.admissible(plan.prefill);
    let after = engine.arranged(plan);
    lemma_tables_filter(mid.waiting, model::named_in(plan.prefill), mid.pool);
    lemma_tables_filter(mid.waiting, model::not_named_in(plan.prefill), mid.pool);
    assert forall|i: int| 0 <= i < after.running.len() implies model::table_in(
        #[trigger] after.running[i],
        after.pool,
    ) by {
        if i < mid.running.len() {
            assert(after.running[i] == mid.running[i]);
        } else {
            assert(model::table_in(admitted[i - mid.running.len()], mid.pool));
        }
    }
    assert forall|hash: u64| #[trigger]
        after.pool.sharers(hash) <= engine.pool.sharers(hash) by {
        assert(mid.pool.sharers(hash) <= engine.pool.sharers(hash));
    }
}

/// Running sequence `idx` is taking its turn: the engine is well formed and the
/// later ones can take theirs.
pub open spec fn mid_turn(engine: EngineView, plan: PlanView, idx: int) -> bool {
    engine.wf() && 0 <= idx < engine.running.len() && engine.can_go_on(plan, idx + 1)
}

/// Weight of the sequences from place `idx` on.
proof fn lemma_weight_from(seqs: Seq<SeqView>, idx: int, weight: spec_fn(SeqView) -> nat)
    requires
        0 <= idx < seqs.len(),
    ensures
        counting::sum(seqs.skip(idx), weight) == weight(seqs[idx]) + counting::sum(
            seqs.skip(idx + 1),
            weight,
        ),
{
    let first = Seq::<SeqView>::empty().push(seqs[idx]);
    assert(seqs.skip(idx) =~= first + seqs.skip(idx + 1));
    counting::lemma_sum_add(first, seqs.skip(idx + 1), weight);
    counting::lemma_sum_push(Seq::<SeqView>::empty(), seqs[idx], weight);
}

/// Whoever is in the middle of a step can be in the middle of a turn.
proof fn lemma_turn_begins(engine: EngineView, plan: PlanView, idx: int)
    requires
        engine.mid_step(plan, idx),
        idx < engine.running.len(),
    ensures
        mid_turn(engine, plan, idx),
{
    assert forall|hash: u64| #[trigger]
        engine.pool.sharers(hash) + counting::sum(
            engine.running.skip(idx + 1),
            model::planned_shares(plan.prefill, hash),
        ) <= u16::MAX by {
        lemma_weight_from(engine.running, idx, model::planned_shares(plan.prefill, hash));
        assert(engine.pool.sharers(hash) + counting::sum(
            engine.running.skip(idx),
            model::planned_shares(plan.prefill, hash),
        ) <= u16::MAX);
    }
}

/// An answer keeps the engine well formed, lets the later sequences take their
/// turns, and adds to no cached block's count.
proof fn lemma_answered(engine: EngineView, plan: PlanView, idx: int, turn: Turn)
    requires
        mid_turn(engine, plan, idx),
    ensures
        engine.answered(idx, turn).engine.mid_step(plan, idx + 1),
        engine.answered(idx, turn).engine.pool.total() == engine.pool.total(),
        forall|hash: u64| #[trigger]
            engine.answered(idx, turn).engine.pool.sharers(hash) == engine.pool.sharers(hash),
{
    let after = engine.answered(idx, turn).engine;
    let pool = engine.pool;
    assert(after.running.skip(idx + 1) =~= engine.running.skip(idx + 1));
    assert(model::table_in(engine.running[idx], pool));
    if let Ok(token) = turn.reply {
        let grown = engine.running[idx].pushed(token, turn.at);
        let needed = grown.missing_blocks(grown.len());
        if engine.config.eos_token != Some(token) && needed <= pool.free.len() {
            pool.lemma_taken(needed);
            let mapped = grown.mapped(pool.next_blocks(needed));
            assert forall|j: int| 0 <= j < mapped.table.len() implies after.pool.owns(
                #[trigger] mapped.table[j],
            ) by {
                if j < grown.table.len() {
                    assert(pool.owns(engine.running[idx].table[j]));
                } else {
                    assert(pool.owns(pool.next_blocks(needed)[j - grown.table.len()]));
                }
            }
            assert(model::table_in(mapped, after.pool));
        }
        assert(model::table_in(after.running[idx], after.pool));
    }
    lemma_tables_same_total(engine.waiting, pool, after.pool);
    assert forall|i: int| 0 <= i < after.running.len() implies model::table_in(
        #[trigger] after.running[i],
        after.pool,
    ) by {
        if i != idx {
            assert(after.running[i] == engine.running[i]);
            assert(model::table_in(engine.running[i], pool));
        }
    }
    assert forall|hash: u64| #[trigger]
        after.pool.sharers(hash) + counting::sum(
            after.running.skip(idx + 1),
            model::planned_shares(plan.prefill, hash),
        ) <= u16::MAX by {
        assert(pool.sharers(hash) + counting::sum(
            engine.running.skip(idx + 1),
            model::planned_shares(plan.prefill, hash),
        ) <= u16::MAX);
    }
    assert forall|i: int|
        idx + 1 <= i < after.running.len() && (
        #[trigger] after.running[i]).output.len() == 0 implies !(after.ask(plan, i) is Decode) by {
        assert(after.running[i] == engine.running[i]);
        assert(!(engine.ask(plan, i) is Decode));
    }
}

/// Before a fresh sequence is prefilled there is room to share its prompt;
/// sharing it leaves the engine in the middle of its turn and adds to a cached
/// block's count no more than was planned.
pub proof fn lemma_prefix_mapped(engine: EngineView, plan: PlanView, idx: int)
    requires
        engine.mid_step(plan, idx),
        idx < engine.running.len(),
        engine.ask(plan, idx) is Prefill,
    ensures
        sequence::room_to_share(engine.pool, engine.running[idx].unmapped_hashes()),
        mid_turn(engine.prefix_mapped(idx).engine, plan, idx),
        engine.prefix_mapped(idx).engine.pool.total() == engine.pool.total(),
        forall|hash: u64| #[trigger]
            engine.prefix_mapped(idx).engine.pool.sharers(hash) <= engine.pool.sharers(hash)
                + model::planned_shares(plan.prefill, hash)(engine.running[idx]),
{
    let seq = engine.running[idx];
    let hashes = seq.unmapped_hashes();
    let pool = engine.pool;
    let sharing = sequence::share_blocks(pool, hashes);
    let after = engine.prefix_mapped(idx).engine;
    assert forall|hash: u64| #[trigger]
        pool.sharers(hash) + counting::count(hashes, BlockHash(hash)) <= u16::MAX by {
        lemma_weight_from(engine.running, idx, model::planned_shares(plan.prefill, hash));
        assert(pool.sharers(hash) + counting::sum(
            engine.running.skip(idx),
            model::planned_shares(plan.prefill, hash),
        ) <= u16::MAX);
    }
    sequence::lemma_share_growth(pool, hashes);
    assert forall|hash: u64| #[trigger]
        after.pool.sharers(hash) <= pool.sharers(hash) + model::planned_shares(plan.prefill, hash)(
        seq,
    ) by {
        assert(sharing.pool.sharers(hash) <= pool.sharers(hash) + counting::count(
            hashes,
            BlockHash(hash),
        ));
    }
    assert(after.running.skip(idx + 1) =~= engine.running.skip(idx + 1));
    lemma_tables_same_total(engine.waiting, pool, after.pool);
    assert forall|i: int| 0 <= i < after.running.len() implies model::table_in(
        #[trigger] after.running[i],
        after.pool,
    ) by {
        assert(model::table_in(engine.running[i], pool));
        if i == idx {
            assert forall|j: int| 0 <= j < after.running[idx].table.len() implies after.pool.owns(
                #[trigger] after.running[idx].table[j],
            ) by {
                if j < seq.table.len() {
                    assert(pool.owns(engine.running[i].table[j]));
                } else {
                    assert(pool.owns(sharing.blocks[j - seq.table.len()]));
                }
            }
        }
    }
    assert forall|hash: u64| #[trigger]
        after.pool.sharers(hash) + counting::sum(
            after.running.skip(idx + 1),
            model::planned_shares(plan.prefill, hash),
        ) <= u16::MAX by {
        lemma_weight_from(engine.running, idx, model::planned_shares(plan.prefill, hash));
        assert(pool.sharers(hash) + counting::sum(
            engine.running.skip(idx),
            model::planned_shares(plan.prefill, hash),
        ) <= u16::MAX);
        assert(after.pool.sharers(hash) <= pool.sharers(hash) + model::planned_shares(
            plan.prefill,
            hash,
        )(seq));
    }
    assert forall|i: int|
        idx + 1 <= i < after.running.len() && (
        #[trigger] after.running[i]).output.len() == 0 implies !(after.ask(plan, i) is Decode) by {
        assert(after.running[i] == engine.running[i]);
        assert(!(engine.ask(plan, i) is Decode));
    }
}

/// A turn keeps the engine well formed, lets the later sequences take theirs,
/// and adds to a cached block's count no more than was planned.
pub proof fn lemma_turn_taken(engine: EngineView, plan: PlanView, idx: int, turn: Turn)
    requires
        engine.mid_step(plan, idx),
        idx < engine.running.len(),
    ensures
        ({
            let after = engine.turn_taken(engine.ask(plan, idx), idx, turn).engine;
            &&& after.mid_step(plan, idx + 1)
            &&& after.pool.total() == engine.pool.total()
            &&& forall|hash: u64| #[trigger]
                after.pool.sharers(hash) <= engine.pool.sharers(hash) + model::planned_shares(
                    plan.prefill,
                    hash,
                )(engine.running[idx])
        }),
{
    let ask = engine.ask(plan, idx);
    let after = engine.turn_taken(ask, idx, turn).engine;
    lemma_turn_begins(engine, plan, idx);
    if ask is Prefill {
        lemma_prefix_mapped(engine, plan, idx);
        let mapped = engine.prefix_mapped(idx).engine;
        lemma_answered(mapped, plan, idx, turn);
        assert forall|hash: u64| #[trigger]
            after.pool.sharers(hash) <= engine.pool.sharers(hash) + model::planned_shares(
                plan.prefill,
                hash,
            )(engine.running[idx]) by {
            assert(mapped.pool.sharers(hash) <= engine.pool.sharers(hash) + model::planned_shares(
                plan.prefill,
                hash,
            )(engine.running[idx]));
            assert(mapped.answered(idx, turn).engine.pool.sharers(hash) == mapped.pool.sharers(
                hash,
            ));
        }
    } else if !(ask is Idle) {
        lemma_answered(engine, plan, idx, turn);
    }
}

/// Turns keep the engine well formed, let the later sequences take theirs, and
/// add to a cached block's count no more than was planned.
pub proof fn lemma_executed_mid_step(
    engine: EngineView,
    plan: PlanView,
    turns: Seq<Turn>,
    n: nat,
)
    requires
        engine.mid_step(plan, 0),
        n <= engine.running.len(),
    ensures
        ({
            let after = engine.executed(plan, turns, n);
            &&& after.engine.wf()
            &&& after.engine.running.len() == engine.running.len()
            &&& after.engine.pool.total() == engine.pool.total()
            &&& after.error is None ==> after.engine.mid_step(plan, n as int)
            &&& forall|hash: u64| #[trigger]
                after.engine.pool.sharers(hash) <= engine.pool.sharers(hash) + counting::sum(
                    engine.running.take(n as int),
                    model::planned_shares(plan.prefill, hash),
                )
        }),
    decreases n,
{
    if n > 0 {
        let k = (n - 1) as nat;
        let idx = n - 1;
        lemma_executed_mid_step(engine, plan, turns, k);
        super::turns::lemma_executed_frame(engine, plan, turns, k);
        let before = engine.executed(plan, turns, k);
        let after = engine.executed(plan, turns, n);
        if before.error is None {
            lemma_turn_taken(before.engine, plan, idx, turns[idx]);
            assert(before.engine.running[idx] == engine.running[idx]);
        }
        assert forall|hash: u64| #[trigger]
            after.engine.pool.sharers(hash) <= engine.pool.sharers(hash) + counting::sum(
                engine.running.take(n as int),
                model::planned_shares(plan.prefill, hash),
            ) by {
            let weight = model::planned_shares(plan.prefill, hash);
            assert(engine.running.take(n as int) =~= engine.running.take(k as int).push(
                engine.running[idx],
            ));
            counting::lemma_sum_push(engine.running.take(k as int), engine.running[idx], weight);
            assert(before.engine.pool.sharers(hash) <= engine.pool.sharers(hash) + counting::sum(
                engine.running.take(k as int),
                weight,
            ));
        }
    }
}

/// Reclaiming the finished sequences keeps the engine well formed and adds to no
/// cached block's count.
pub proof fn lemma_reconciled_wf(engine: EngineView)
    requires
        engine.wf(),
    ensures
        engine.reconciled().wf(),
        engine.reconciled().pool.total() == engine.pool.total(),
        forall|hash: u64| #[trigger]
            engine.reconciled().pool.sharers(hash) <= engine.pool.sharers(hash),
{
    let done = engine.running.filter(model::is_done());
    let after = engine.reconciled();
    lemma_done_tables(engine);
    lemma_tables_filter(engine.running, model::is_not_done(), engine.pool);
    lemma_release_seqs(engine.pool, done);
    lemma_tables_same_total(engine.waiting, engine.pool, after.pool);
    lemma_tables_same_total(after.running, engine.pool, after.pool);
}

/// A step keeps the engine well formed and its pool as large as it was.
pub proof fn lemma_stepped_wf(engine: EngineView, plan: PlanView, turns: Seq<Turn>)
    requires
        engine.wf(),
        engine.executable(plan),
    ensures
        engine.stepped(plan, turns).wf(),
        engine.stepped(plan, turns).pool.total() == engine.pool.total(),
        engine.arranged(plan).mid_step(plan, 0),
{
    let arranged = engine.arranged(plan);
    let n = arranged.running.len();
    lemma_arranged_wf(engine, plan);
    lemma_executed_mid_step(arranged, plan, turns, n);
    lemma_reconciled_wf(arranged.executed(plan, turns, n).engine);
}

/// If every running sequence has an output, whoever has none once a plan is
/// applied was admitted by it.
pub proof fn lemma_arranged_started(engine: EngineView, plan: PlanView)
    requires
        engine.started(),
    ensures
        forall|i: int|
            0 <= i < engine.arranged(plan).running.len() && (
            #[trigger] engine.arranged(plan).running[i]).output.len() == 0
                ==> plan.prefill.contains(engine.arranged(plan).running[i].id),
{
    let mid = engine.after_preempt(plan.preempt);
    let after = engine.arranged(plan);
    assert forall|i: int|
        0 <= i < after.running.len() && (
        #[trigger] after.running[i]).output.len() == 0 implies plan.prefill.contains(
        after.running[i].id,
    ) by {
        if i < mid.running.len() {
            let j = lemma_filter_source(engine.running, model::not_named_in(plan.preempt), i);
            assert(engine.running[j].output.len() > 0);
        } else {
            let k = i - mid.running.len();
            let j = lemma_filter_source(mid.waiting, model::named_in(plan.prefill), k);
        }
    }
}

/// After turns without an error, whoever took one has an output or is finished.
proof fn lemma_executed_started(engine: EngineView, plan: PlanView, turns: Seq<Turn>, n: nat)
    requires
        n <= engine.running.len(),
        engine.executed(plan, turns, n).error is None,
        forall|i: int|
            0 <= i < engine.running.len() && (#[trigger] engine.running[i]).output.len() == 0
                ==> plan.prefill.contains(engine.running[i].id),
    ensures
        forall|i: int|
            0 <= i < n && (
            #[trigger] engine.executed(plan, turns, n).engine.running[i]).output.len() == 0
                ==> engine.executed(plan, turns, n).engine.running[i].state == SeqState::Finished,
    decreases n,
{
    if n > 0 {
        let k = (n - 1) as nat;
        lemma_executed_started(engine, plan, turns, k);
        super::turns::lemma_executed_frame(engine, plan, turns, k);
        let before = engine.executed(plan, turns, k).engine;
        let after = engine.executed(plan, turns, n).engine;
        assert forall|i: int| 0 <= i < n && (
        #[trigger] after.running[i]).output.len() == 0 implies after.running[i].state
            == SeqState::Finished by {
            if i < k {
                assert(after.running[i] == before.running[i]);
            } else {
                assert(before.running[i] == engine.running[i]);
            }
        }
    }
}

/// If every running sequence has an output, so has every one after a step that
/// does not fail in the middle.
pub proof fn lemma_stepped_started(engine: EngineView, plan: PlanView, turns: Seq<Turn>)
    requires
        engine.started(),
        engine.arranged(plan).stalled() || engine.step_result(plan, turns) is Ok,
    ensures
        engine.stepped(plan, turns).started(),
{
    let arranged = engine.arranged(plan);
    let n = arranged.running.len();
    if !arranged.stalled() {
        lemma_arranged_started(engine, plan);
        lemma_executed_started(arranged, plan, turns, n);
        super::turns::lemma_executed_frame(arranged, plan, turns, n);
        let executed = arranged.executed(plan, turns, n).engine;
        let after = engine.stepped(plan, turns);
        assert forall|i: int| 0 <= i < after.running.len() implies (
        #[trigger] after.running[i]).output.len() > 0 by {
            let j = lemma_filter_source(executed.running, model::is_not_done(), i);
        }
    }
}

} // verus!
