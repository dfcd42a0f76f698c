//! A correct plan never exhausts the pool.
use vstd::prelude::*;

use super::accounts;
use crate::block::{self, PhysicalBlockId, PoolView};
use crate::counting;
use crate::engine::model::{self, EngineView, Turn};
use crate::engine::{upkeep, EngineError};
use crate::ids::SeqId;
use crate::scheduler::PlanView;
use crate::sequence::{self, SeqView};

verus! {

/// The blocks that a sequence will hold after its next token.
pub open spec fn footprint_of() -> spec_fn(SeqView) -> nat {
    |seq: SeqView| seq.footprint()
}

/// The blocks that `seqs` will hold after their next tokens.
pub open spec fn footprints(seqs: Seq<SeqView>) -> nat {
    counting::sum(seqs, footprint_of())
}

/// `plan` is correct: the sequences that are running once it is applied fit into
/// the pool with one token more each.
pub open spec fn correct(engine: EngineView, plan: PlanView) -> bool {
    footprints(engine.arranged(plan).running) <= engine.pool.total()
}

/// The books balance, and the pool has room for what the sequences before place
/// `n` hold and the others will hold after their turns.
pub open spec fn backed(engine: EngineView, n: int) -> bool {
    &&& accounts::accounted(engine)
    &&& 0 <= n <= engine.running.len()
    &&& accounts::mapped_blocks(engine.running.take(n)) + footprints(engine.running.skip(n))
        <= engine.pool.total()
}

/// An allocation failure.
pub open spec fn is_exhaustion(error: Option<EngineError>) -> bool {
    error is Some && error->Some_0 is Alloc
}

/// Mapping more blocks for one sequence keeps the books balanced.
proof fn lemma_mapped_balanced(
    pool: PoolView,
    seqs: Seq<SeqView>,
    idx: int,
    seq: SeqView,
    added: Seq<PhysicalBlockId>,
    after: PoolView,
)
    requires
        accounts::balanced(pool, seqs),
        0 <= idx < seqs.len(),
        seq.table == seqs[idx].table + added,
        after.total() == pool.total(),
        forall|block: PhysicalBlockId|
            pool.owns(block) ==> #[trigger] after.rc(block) == pool.rc(block) + counting::count(
                added,
                block,
            ),
    ensures
        accounts::balanced(after, seqs.update(idx, seq)),
{
    assert forall|block: PhysicalBlockId| after.owns(block) implies #[trigger] after.rc(block)
        == accounts::uses(seqs.update(idx, seq), block) by {
        counting::lemma_sum_update(seqs, idx, seq, accounts::uses_of(block));
        counting::lemma_count_add(seqs[idx].table, added, block);
        assert(pool.rc(block) == accounts::uses(seqs, block));
    }
}

/// What all sequences hold, split at one of them.
proof fn lemma_mapped_split(seqs: Seq<SeqView>, idx: int)
    requires
        0 <= idx < seqs.len(),
    ensures
        accounts::mapped_blocks(seqs) == accounts::mapped_blocks(seqs.take(idx))
            + seqs[idx].table.len() + accounts::mapped_blocks(seqs.skip(idx + 1)),
        accounts::mapped_blocks(seqs.take(idx + 1)) == accounts::mapped_blocks(seqs.take(idx))
            + seqs[idx].table.len(),
        footprints(seqs.skip(idx)) == seqs[idx].footprint() + footprints(seqs.skip(idx + 1)),
{
    let lens = accounts::table_lens();
    let first = Seq::<SeqView>::empty().push(seqs[idx]);
    assert(seqs =~= seqs.take(idx + 1) + seqs.skip(idx + 1));
    assert(seqs.take(idx + 1) =~= seqs.take(idx).push(seqs[idx]));
    assert(seqs.skip(idx) =~= first + seqs.skip(idx + 1));
    counting::lemma_sum_add(seqs.take(idx + 1), seqs.skip(idx + 1), lens);
    counting::lemma_sum_push(seqs.take(idx), seqs[idx], lens);
    counting::lemma_sum_add(first, seqs.skip(idx + 1), footprint_of());
    counting::lemma_sum_push(Seq::<SeqView>::empty(), seqs[idx], footprint_of());
}

/// Snug tables hold no more than the footprints.
proof fn lemma_snug_within_footprints(seqs: Seq<SeqView>)
    requires
        forall|i: int| 0 <= i < seqs.len() ==> accounts::snug(#[trigger] seqs[i]),
    ensures
        accounts::mapped_blocks(seqs) <= footprints(seqs),
{
    counting::lemma_sum_le(seqs, accounts::table_lens(), footprint_of());
}

/// Every sequence needs a block.
pub proof fn lemma_footprints_count(seqs: Seq<SeqView>)
    ensures
        seqs.len() <= footprints(seqs),
    decreases seqs.len(),
{
    if seqs.len() > 0 {
        lemma_footprints_count(seqs.drop_last());
    }
}

/// The sequence whose turn it is finds the blocks it needs.
proof fn lemma_enough_free(engine: EngineView, idx: int)
    requires
        backed(engine, idx),
        idx < engine.running.len(),
    ensures
        engine.pool.free.len() + engine.running[idx].table.len()
            >= engine.running[idx].footprint(),
{
    let running = engine.running;
    lemma_mapped_split(running, idx);
    assert forall|i: int| 0 <= i < running.skip(idx + 1).len() implies accounts::snug(
        #[trigger] running.skip(idx + 1)[i],
    ) by {
        assert(accounts::snug(running[idx + 1 + i]));
    }
    lemma_snug_within_footprints(running.skip(idx + 1));
    accounts::lemma_free_blocks(engine.pool, running);
}

/// Answering a sequence never exhausts the pool.
proof fn lemma_answered_backed(engine: EngineView, idx: int, turn: Turn)
    requires
        backed(engine, idx),
        idx < engine.running.len(),
    ensures
        ({
            let after = engine.answered(idx, turn);
            &&& !is_exhaustion(after.error)
            &&& accounts::accounted(after.engine)
            &&& after.error is None ==> backed(after.engine, idx + 1)
        }),
{
    let running = engine.running;
    let pool = engine.pool;
    let progress = engine.answered(idx, turn);
    let after = progress.engine;
    lemma_enough_free(engine, idx);
    assert(accounts::snug(running[idx]));
    assert(model::table_in(running[idx], pool));
    if let Ok(token) = turn.reply {
        let grown = running[idx].pushed(token, turn.at);
        let needed = grown.missing_blocks(grown.len());
        assert(grown.len() == running[idx].len() + 1);
        if engine.config.eos_token == Some(token) {
            assert(running[idx].table + Seq::empty() =~= running[idx].table);
            lemma_mapped_balanced(pool, running, idx, after.running[idx], Seq::empty(), pool);
            assert(model::table_in(after.running[idx], after.pool));
        } else {
            assert(needed <= pool.free.len());
            pool.lemma_taken(needed);
            accounts::lemma_taken_counts(pool, needed);
            lemma_mapped_balanced(
                pool,
                running,
                idx,
                after.running[idx],
                pool.next_blocks(needed),
                after.pool,
            );
            assert(model::table_in(after.running[idx], after.pool)) by {
                assert forall|j: int|
                    0 <= j < after.running[idx].table.len() implies after.pool.owns(
                    #[trigger] after.running[idx].table[j],
                ) by {
                    if j < running[idx].table.len() {
                        assert(pool.owns(running[idx].table[j]));
                    } else {
                        assert(pool.owns(
                            pool.next_blocks(needed)[j - running[idx].table.len()],
                        ));
                    }
                }
            }
        }
        assert(accounts::snug(after.running[idx]));
        assert(after.running[idx].table.len() <= running[idx].footprint());
        assert forall|i: int| 0 <= i < after.running.len() implies accounts::snug(
            #[trigger] after.running[i],
        ) by {
            if i != idx {
                assert(after.running[i] == running[i]);
            }
        }
        assert forall|i: int| 0 <= i < after.running.len() implies model::table_in(
            #[trigger] after.running[i],
            after.pool,
        ) by {
            if i != idx {
                assert(after.running[i] == running[i]);
                assert(model::table_in(running[i], pool));
            }
        }
        lemma_mapped_split(running, idx);
        lemma_mapped_split(after.running, idx);
        assert(after.running.take(idx) =~= running.take(idx));
        assert(after.running.skip(idx + 1) =~= running.skip(idx + 1));
    }
}

/// Mapping a prompt through the prefix cache never exhausts the pool.
pub proof fn lemma_prefix_backed(engine: EngineView, plan: PlanView, idx: int)
    requires
        engine.mid_step(plan, idx),
        backed(engine, idx),
        idx < engine.running.len(),
        engine.ask(plan, idx) is Prefill,
    ensures
        engine.prefix_mapped(idx).error is None,
        backed(engine.prefix_mapped(idx).engine, idx),
{
    let running = engine.running;
    let pool = engine.pool;
    let seq = running[idx];
    let hashes = seq.unmapped_hashes();
    let sharing = sequence::share_blocks(pool, hashes);
    let after = engine.prefix_mapped(idx).engine;
    lemma_enough_free(engine, idx);
    assert(accounts::snug(seq));
    assert(hashes.len() + seq.table.len() <= seq.footprint() || hashes.len() == 0);
    accounts::lemma_share_enough(pool, hashes);
    upkeep::lemma_prefix_mapped(engine, plan, idx);
    sequence::lemma_share_growth(pool, hashes);
    accounts::lemma_share_counts(pool, hashes);
    lemma_mapped_balanced(pool, running, idx, after.running[idx], sharing.blocks, after.pool);
    assert(accounts::snug(after.running[idx]));
    assert forall|i: int| 0 <= i < after.running.len() implies accounts::snug(
        #[trigger] after.running[i],
    ) by {
        if i != idx {
            assert(after.running[i] == running[i]);
        }
    }
    assert(after.running.take(idx) =~= running.take(idx));
    assert(after.running.skip(idx + 1) =~= running.skip(idx + 1));
    lemma_mapped_split(running, idx);
    lemma_mapped_split(after.running, idx);
}

/// A turn never exhausts the pool.
proof fn lemma_turn_backed(engine: EngineView, plan: PlanView, idx: int, turn: Turn)
    requires
        engine.mid_step(plan, idx),
        backed(engine, idx),
        idx < engine.running.len(),
    ensures
        ({
            let after = engine.turn_taken(engine.ask(plan, idx), idx, turn);
            &&& !is_exhaustion(after.error)
            &&& accounts::accounted(after.engine)
            &&& after.error is None ==> backed(after.engine, idx + 1)
        }),
{
    let ask = engine.ask(plan, idx);
    if ask is Idle {
        assert(accounts::snug(engine.running[idx]));
        lemma_mapped_split(engine.running, idx);
    } else if ask is Prefill {
        lemma_prefix_backed(engine, plan, idx);
        lemma_answered_backed(engine.prefix_mapped(idx).engine, idx, turn);
    } else {
        lemma_answered_backed(engine, idx, turn);
    }
}

/// No run of turns exhausts the pool.
pub proof fn lemma_executed_backed(engine: EngineView, plan: PlanView, turns: Seq<Turn>, n: nat)
    requires
        engine.mid_step(plan, 0),
        backed(engine, 0),
        n <= engine.running.len(),
    ensures
        ({
            let after = engine.executed(plan, turns, n);
            &&& !is_exhaustion(after.error)
            &&& accounts::accounted(after.engine)
            &&& after.error is None ==> backed(after.engine, n as int)
        }),
    decreases n,
{
    if n > 0 {
        let k = (n - 1) as nat;
        lemma_executed_backed(engine, plan, turns, k);
        upkeep::lemma_executed_mid_step(engine, plan, turns, k);
        let before = engine.executed(plan, turns, k);
        if before.error is None {
            lemma_turn_backed(before.engine, plan, n - 1, turns[n - 1]);
        }
    }
}

/// Releasing part of the sequences leaves the others with their references.
proof fn lemma_release_part(
    pool: PoolView,
    seqs: Seq<SeqView>,
    gone: spec_fn(SeqView) -> bool,
    kept: spec_fn(SeqView) -> bool,
)
    requires
        pool.wf(),
        model::tables_in(seqs, pool),
        accounts::balanced(pool, seqs),
        forall|seq: SeqView| #[trigger] kept(seq) == !gone(seq),
        forall|i: int| 0 <= i < seqs.len() ==> accounts::snug(#[trigger] seqs[i]),
    ensures
        ({
            let after = model::release_seqs(pool, seqs.filter(gone));
            let rest = seqs.filter(kept);
            &&& after.wf()
            &&& after.total() == pool.total()
            &&& model::tables_in(rest, after)
            &&& accounts::balanced(after, rest)
            &&& forall|i: int| 0 <= i < rest.len() ==> accounts::snug(#[trigger] rest[i])
        }),
{
    let released = seqs.filter(gone);
    let rest = seqs.filter(kept);
    let after = model::release_seqs(pool, released);
    assert forall|i: int| 0 <= i < released.len() implies model::table_in(
        #[trigger] released[i],
        pool,
    ) by {
        let j = upkeep::lemma_filter_source(seqs, gone, i);
        assert(model::table_in(seqs[j], pool));
    }
    assert forall|block: PhysicalBlockId| pool.owns(block) implies accounts::uses(released, block)
        <= #[trigger] pool.rc(block) by {
        counting::lemma_sum_split(seqs, gone, kept, accounts::uses_of(block));
        assert(pool.rc(block) == accounts::uses(seqs, block));
    }
    upkeep::lemma_release_seqs(pool, released);
    accounts::lemma_release_seqs_counts(pool, released);
    assert forall|block: PhysicalBlockId| after.owns(block) implies #[trigger] after.rc(block)
        == accounts::uses(rest, block) by {
        counting::lemma_sum_split(seqs, gone, kept, accounts::uses_of(block));
        assert(pool.rc(block) == accounts::uses(seqs, block));
    }
    assert forall|i: int| 0 <= i < rest.len() implies accounts::snug(#[trigger] rest[i])
        && model::table_in(rest[i], after) by {
        let j = upkeep::lemma_filter_source(seqs, kept, i);
        assert(accounts::snug(seqs[j]));
        assert(model::table_in(seqs[j], pool));
    }
}

/// Preempting keeps the books balanced.
pub proof fn lemma_preempt_accounted(engine: EngineView, victims: Seq<SeqId>)
    requires
        accounts::accounted(engine),
    ensures
        accounts::accounted(engine.after_preempt(victims)),
{
    let after = engine.after_preempt(victims);
    let evicted = engine.evicted(victims);
    lemma_release_part(
        engine.pool,
        engine.running,
        model::named_in(victims),
        model::not_named_in(victims),
    );
    assert forall|i: int| 0 <= i < after.waiting.len() implies (
    #[trigger] after.waiting[i]).table.len() == 0 by {
        if i >= evicted.len() {
            assert(after.waiting[i] == engine.waiting[i - evicted.len()]);
        }
    }
}

/// Admitting keeps the books balanced.
pub proof fn lemma_admit_accounted(engine: EngineView, ids: Seq<SeqId>)
    requires
        accounts::accounted(engine),
    ensures
        accounts::accounted(engine.after_admit(ids)),
{
    let after = engine.after_admit(ids);
    let admitted = engine.admissible(ids);
    let joined = admitted.map_values(model::to_running());
    assert forall|i: int| 0 <= i < joined.len() implies (#[trigger] joined[i]).table.len() == 0 by {
        let j = upkeep::lemma_filter_source(engine.waiting, model::named_in(ids), i);
        assert(engine.waiting[j].table.len() == 0);
    }
    assert forall|i: int| 0 <= i < after.waiting.len() implies (
    #[trigger] after.waiting[i]).table.len() == 0 by {
        let j = upkeep::lemma_filter_source(engine.waiting, model::not_named_in(ids), i);
        assert(engine.waiting[j].table.len() == 0);
    }
    assert forall|i: int| 0 <= i < after.running.len() implies accounts::snug(
        #[trigger] after.running[i],
    ) && model::table_in(after.running[i], after.pool) by {
        if i < engine.running.len() {
            assert(after.running[i] == engine.running[i]);
            assert(accounts::snug(engine.running[i]));
            assert(model::table_in(engine.running[i], engine.pool));
        } else {
            assert(after.running[i] == joined[i - engine.running.len()]);
        }
    }
    assert forall|block: PhysicalBlockId| after.pool.owns(block) implies #[trigger] after.pool.rc(
        block,
    ) == accounts::uses(after.running, block) by {
        counting::lemma_sum_add(engine.running, joined, accounts::uses_of(block));
        counting::lemma_sum_nothing(joined, accounts::uses_of(block));
        assert(engine.pool.rc(block) == accounts::uses(engine.running, block));
    }
}

/// Reclaiming the finished sequences keeps the books balanced.
pub proof fn lemma_reconciled_accounted(engine: EngineView)
    requires
        accounts::accounted(engine),
    ensures
        accounts::accounted(engine.reconciled()),
{
    lemma_release_part(engine.pool, engine.running, model::is_done(), model::is_not_done());
}

/// Under a correct plan no run of turns exhausts the pool, and the books balance
/// after each.
pub proof fn lemma_turns_never_exhaust(
    engine: EngineView,
    plan: PlanView,
    turns: Seq<Turn>,
    n: nat,
)
    requires
        engine.wf(),
        engine.executable(plan),
        accounts::accounted(engine),
        correct(engine, plan),
        n <= engine.arranged(plan).running.len(),
    ensures
        !is_exhaustion(engine.arranged(plan).executed(plan, turns, n).error),
        accounts::accounted(engine.arranged(plan)),
        accounts::accounted(engine.arranged(plan).executed(plan, turns, n).engine),
{
    let arranged = engine.arranged(plan);
    lemma_preempt_accounted(engine, plan.preempt);
    lemma_admit_accounted(engine.after_preempt(plan.preempt), plan.prefill);
    upkeep::lemma_stepped_wf(engine, plan, turns);
    upkeep::lemma_arranged_wf(engine, plan);
    assert(arranged.running.skip(0) =~= arranged.running);
    assert(arranged.running.take(0) =~= Seq::empty());
    lemma_executed_backed(arranged, plan, turns, n);
}

/// **A correct plan never exhausts the pool.** If the books balance, no
/// reference count can overflow, and the sequences that the plan keeps or makes
/// active fit into the pool with one token more each, then the step does not
/// fail for want of blocks, whatever the runtime answers; and whatever comes of
/// it, the books balance afterwards.
pub proof fn law_correct_plan_never_exhausts(
    engine: EngineView,
    plan: PlanView,
    turns: Seq<Turn>,
)
    requires
        engine.wf(),
        engine.executable(plan),
        accounts::accounted(engine),
        correct(engine, plan),
    ensures
        !(engine.step_result(plan, turns) matches Err(EngineError::Alloc(_))),
        accounts::accounted(engine.stepped(plan, turns)),
{
    let arranged = engine.arranged(plan);
    let n = arranged.running.len();
    lemma_turns_never_exhaust(engine, plan, turns, n);
    let executed = arranged.executed(plan, turns, n);
    if executed.error is None {
        lemma_reconciled_accounted(executed.engine);
    }
}

/// **Nothing leaks.** If the books balance and nothing runs, the pool is whole:
/// every block is free.
pub proof fn law_idle_pool_is_whole(engine: EngineView)
    requires
        accounts::accounted(engine),
        engine.running.len() == 0,
    ensures
        engine.pool.free.len() == engine.pool.total(),
        forall|block: PhysicalBlockId|
            engine.pool.owns(block) ==> #[trigger] engine.pool.rc(block) == 0,
{
    accounts::lemma_free_blocks(engine.pool, engine.running);
    block::law_conservation(engine.pool);
    assert forall|block: PhysicalBlockId| engine.pool.owns(block) implies #[trigger] engine.pool.rc(
        block,
    ) == 0 by {
        assert(engine.pool.rc(block) == accounts::uses(engine.running, block));
    }
}

} // verus!
