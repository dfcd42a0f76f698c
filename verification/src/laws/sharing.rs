//! What the running sequences share.
use vstd::prelude::*;

use super::{accounts, capacity, plans, prefix, service};
use crate::block::{self, BlockHash, PhysicalBlockId, PoolView};
use crate::counting;
use crate::engine::model::{self, EngineState, EngineView, TraceView, Turn};
use crate::engine::{turns, upkeep, EngineConfig, EngineError};
use crate::runtime::ModelRuntime;
use crate::scheduler::{PlanView, SchedulerPolicy};
use crate::sequence::{self, SeqView};

verus! {

/// `block` is not in the prefix index, and it has one reference.
pub open spec fn private(pool: PoolView, block: PhysicalBlockId) -> bool {
    pool.hashes[block.0 as int] is None && pool.rc(block) == 1
}

/// `block` is cached under the hash of the first `k + 1` blocks of the prompt of
/// `seq`.
pub open spec fn caches(pool: PoolView, seq: SeqView, k: int, block: PhysicalBlockId) -> bool {
    &&& k < block::prefix_hashes(seq.prompt).len()
    &&& pool.hashes[block.0 as int] == Some(block::prefix_hashes(seq.prompt)[k])
}

/// Entry `k` in the table of `seq` is private to it, or cached for that place in
/// its prompt.
pub open spec fn entry_sound(pool: PoolView, seq: SeqView, k: int) -> bool {
    private(pool, seq.table[k]) || caches(pool, seq, k, seq.table[k])
}

/// Every entry in the table of `seq` is private or cached for its place.
pub open spec fn table_sound(pool: PoolView, seq: SeqView) -> bool {
    forall|k: int| 0 <= k < seq.table.len() ==> #[trigger] entry_sound(pool, seq, k)
}

/// Every block that a running sequence holds is private to it, or cached for the
/// place in its prompt at which it holds it.
pub open spec fn sharing_sound(engine: EngineView) -> bool {
    forall|i: int|
        0 <= i < engine.running.len() ==> table_sound(engine.pool, #[trigger] engine.running[i])
}

/// Between `pool` and `after`, `block` kept its place in the prefix index, and if
/// it was private it still is.
spec fn steady(pool: PoolView, after: PoolView, block: PhysicalBlockId) -> bool {
    &&& after.hashes[block.0 as int] == pool.hashes[block.0 as int]
    &&& private(pool, block) ==> private(after, block)
}

/// A block in a running sequence's table is held.
proof fn lemma_entry_held(engine: EngineView, i: int, k: int)
    requires
        accounts::accounted(engine),
        0 <= i < engine.running.len(),
        0 <= k < engine.running[i].table.len(),
    ensures
        engine.pool.owns(engine.running[i].table[k]),
        engine.pool.rc(engine.running[i].table[k]) > 0,
{
    let table = engine.running[i].table;
    let block = table[k];
    assert(model::table_in(engine.running[i], engine.pool));
    assert(engine.pool.owns(block));
    counting::lemma_count_contains(table, block);
    counting::lemma_sum_one(engine.running, i, accounts::uses_of(block));
    assert(engine.pool.rc(block) == accounts::uses(engine.running, block));
}

/// Releasing some references to a block, but not the last, leaves it in its place
/// in the prefix index.
proof fn lemma_released_all_steady(pool: PoolView, blocks: Seq<PhysicalBlockId>)
    requires
        pool.wf(),
        forall|i: int| 0 <= i < blocks.len() ==> pool.owns(#[trigger] blocks[i]),
        forall|block: PhysicalBlockId|
            pool.owns(block) ==> counting::count(blocks, block) <= #[trigger] pool.rc(block),
    ensures
        forall|block: PhysicalBlockId|
            pool.owns(block) && counting::count(blocks, block) < #[trigger] pool.rc(block)
                ==> pool.released_all(blocks).hashes[block.0 as int] == pool.hashes[block.0 as int],
    decreases blocks.len(),
{
    if blocks.len() > 0 {
        let rest = blocks.drop_last();
        assert forall|i: int| 0 <= i < rest.len() implies pool.owns(#[trigger] rest[i]) by {
            assert(rest[i] == blocks[i]);
        }
        assert forall|block: PhysicalBlockId| pool.owns(block) implies counting::count(rest, block)
            <= #[trigger] pool.rc(block) by {}
        lemma_released_all_steady(pool, rest);
        accounts::lemma_released_all_counts(pool, rest);
        pool.lemma_released_all(rest);
        let before = pool.released_all(rest);
        assert(pool.owns(blocks[blocks.len() - 1]));
        assert forall|block: PhysicalBlockId|
            pool.owns(block) && counting::count(blocks, block) < #[trigger] pool.rc(
                block,
            ) implies pool.released_all(blocks).hashes[block.0 as int]
            == pool.hashes[block.0 as int] by {
            assert(before.rc(block) == pool.rc(block) - counting::count(rest, block));
        }
    }
}

/// Releasing the tables of some sequences leaves a block that others hold in its
/// place in the prefix index.
proof fn lemma_release_seqs_steady(pool: PoolView, seqs: Seq<SeqView>)
    requires
        pool.wf(),
        model::tables_in(seqs, pool),
        forall|block: PhysicalBlockId|
            pool.owns(block) ==> accounts::uses(seqs, block) <= #[trigger] pool.rc(block),
    ensures
        forall|block: PhysicalBlockId|
            pool.owns(block) && accounts::uses(seqs, block) < #[trigger] pool.rc(block)
                ==> model::release_seqs(pool, seqs).hashes[block.0 as int]
                == pool.hashes[block.0 as int],
    decreases seqs.len(),
{
    if seqs.len() > 0 {
        let rest = seqs.drop_last();
        let table = seqs.last().table;
        assert forall|i: int| 0 <= i < rest.len() implies model::table_in(
            #[trigger] rest[i],
            pool,
        ) by {
            assert(rest[i] == seqs[i]);
        }
        assert forall|block: PhysicalBlockId| pool.owns(block) implies accounts::uses(rest, block)
            <= #[trigger] pool.rc(block) by {}
        lemma_release_seqs_steady(pool, rest);
        accounts::lemma_release_seqs_counts(pool, rest);
        upkeep::lemma_release_seqs(pool, rest);
        let before = model::release_seqs(pool, rest);
        assert(model::table_in(seqs[seqs.len() - 1], pool));
        assert forall|i: int| 0 <= i < table.len() implies before.owns(#[trigger] table[i]) by {
            assert(pool.owns(seqs[seqs.len() - 1].table[i]));
        }
        assert forall|block: PhysicalBlockId| before.owns(block) implies counting::count(
            table,
            block,
        ) <= #[trigger] before.rc(block) by {
            assert(pool.rc(block) >= accounts::uses(seqs, block));
        }
        lemma_released_all_steady(before, table);
        assert forall|block: PhysicalBlockId|
            pool.owns(block) && accounts::uses(seqs, block) < #[trigger] pool.rc(
                block,
            ) implies model::release_seqs(pool, seqs).hashes[block.0 as int]
            == pool.hashes[block.0 as int] by {
            assert(before.rc(block) == pool.rc(block) - accounts::uses(rest, block));
        }
    }
}

/// Releasing part of the sequences keeps the tables of the others sound.
proof fn lemma_release_part_sound(
    engine: EngineView,
    gone: spec_fn(SeqView) -> bool,
    kept: spec_fn(SeqView) -> bool,
)
    requires
        accounts::accounted(engine),
        sharing_sound(engine),
        forall|seq: SeqView| #[trigger] kept(seq) == !gone(seq),
    ensures
        ({
            let after = model::release_seqs(engine.pool, engine.running.filter(gone));
            let rest = engine.running.filter(kept);
            forall|i: int| 0 <= i < rest.len() ==> table_sound(after, #[trigger] rest[i])
        }),
{
    let pool = engine.pool;
    let seqs = engine.running;
    let released = seqs.filter(gone);
    let rest = seqs.filter(kept);
    let after = model::release_seqs(pool, released);
    assert forall|i: int| 0 <= i < released.len() implies model::table_in(
        #[trigger] released[i],
        pool,
    ) by {
        let j = upkeep::lemma_filter_source(seqs, gone, i);
        assert(model::table_in(seqs[j], pool));
    }
    assert forall|block: PhysicalBlockId| pool.owns(block) implies accounts::uses(released, block)
        <= #[trigger] pool.rc(block) by {
        counting::lemma_sum_split(seqs, gone, kept, accounts::uses_of(block));
        assert(pool.rc(block) == accounts::uses(seqs, block));
    }
    accounts::lemma_release_seqs_counts(pool, released);
    lemma_release_seqs_steady(pool, released);
    assert forall|i: int| 0 <= i < rest.len() implies table_sound(after, #[trigger] rest[i]) by {
        let j = upkeep::lemma_filter_source(seqs, kept, i);
        assert forall|k: int| 0 <= k < rest[i].table.len() implies #[trigger] entry_sound(
            after,
            rest[i],
            k,
        ) by {
            let block = rest[i].table[k];
            assert(table_sound(pool, seqs[j]));
            assert(entry_sound(pool, seqs[j], k));
            lemma_entry_held(engine, j, k);
            counting::lemma_sum_split(seqs, gone, kept, accounts::uses_of(block));
            counting::lemma_count_contains(rest[i].table, block);
            counting::lemma_sum_one(rest, i, accounts::uses_of(block));
            assert(pool.rc(block) == accounts::uses(seqs, block));
            assert(after.rc(block) == pool.rc(block) - accounts::uses(released, block));
        }
    }
}

/// Applying a plan keeps the sharing sound.
proof fn lemma_arranged_sound(engine: EngineView, plan: PlanView)
    requires
        accounts::accounted(engine),
        sharing_sound(engine),
    ensures
        sharing_sound(engine.arranged(plan)),
{
    let evicted = engine.after_preempt(plan.preempt);
    let after = engine.arranged(plan);
    lemma_release_part_sound(
        engine,
        model::named_in(plan.preempt),
        model::not_named_in(plan.preempt),
    );
    capacity::lemma_preempt_accounted(engine, plan.preempt);
    assert forall|i: int| 0 <= i < after.running.len() implies table_sound(
        after.pool,
        #[trigger] after.running[i],
    ) by {
        if i < evicted.running.len() {
            assert(after.running[i] == evicted.running[i]);
            assert(table_sound(evicted.pool, evicted.running[i]));
        } else {
            let at = i - evicted.running.len();
            let j = upkeep::lemma_filter_source(
                evicted.waiting,
                model::named_in(plan.prefill),
                at,
            );
            assert(evicted.waiting[j].table.len() == 0);
        }
    }
}

/// If every block held before stays as it was, a change to one running
/// sequence's table keeps the sharing sound, provided the new table is.
proof fn lemma_update_sound(engine: EngineView, after: EngineView, idx: int, seq: SeqView)
    requires
        accounts::accounted(engine),
        sharing_sound(engine),
        0 <= idx < engine.running.len(),
        after.running == engine.running.update(idx, seq),
        seq.prompt == engine.running[idx].prompt,
        engine.running[idx].table.len() <= seq.table.len(),
        forall|k: int|
            0 <= k < engine.running[idx].table.len() ==> #[trigger] seq.table[k]
                == engine.running[idx].table[k],
        forall|block: PhysicalBlockId|
            engine.pool.owns(block) && #[trigger] engine.pool.rc(block) > 0 ==> steady(
                engine.pool,
                after.pool,
                block,
            ),
        forall|k: int|
            engine.running[idx].table.len() <= k < seq.table.len() ==> #[trigger] entry_sound(
                after.pool,
                seq,
                k,
            ),
    ensures
        sharing_sound(after),
{
    assert forall|i: int| 0 <= i < after.running.len() implies table_sound(
        after.pool,
        #[trigger] after.running[i],
    ) by {
        let now = after.running[i];
        assert forall|k: int| 0 <= k < now.table.len() implies #[trigger] entry_sound(
            after.pool,
            now,
            k,
        ) by {
            if i != idx || k < engine.running[idx].table.len() {
                assert(now.table[k] == engine.running[i].table[k]);
                assert(table_sound(engine.pool, engine.running[i]));
                assert(entry_sound(engine.pool, engine.running[i], k));
                lemma_entry_held(engine, i, k);
                assert(engine.pool.rc(now.table[k]) > 0);
            } else {
                assert(entry_sound(after.pool, seq, k));
            }
        }
    }
}

/// Blocks that are handed out are private, and those held before stay as they
/// were.
proof fn lemma_taken_steady(pool: PoolView, n: nat)
    requires
        pool.wf(),
        n <= pool.free.len(),
    ensures
        forall|block: PhysicalBlockId|
            pool.owns(block) && #[trigger] pool.rc(block) > 0 ==> steady(
                pool,
                pool.taken(n),
                block,
            ),
        forall|i: int|
            0 <= i < n ==> private(pool.taken(n), #[trigger] pool.next_blocks(n)[i]),
    decreases n,
{
    if n > 0 {
        let k = (n - 1) as nat;
        let before = pool.taken(k);
        let after = pool.taken(n);
        lemma_taken_steady(pool, k);
        pool.lemma_taken(k);
        before.lemma_allocated();
        let next = before.free.last();
        accounts::lemma_taken_counts(pool, k);
        assert forall|block: PhysicalBlockId|
            pool.owns(block) && #[trigger] pool.rc(block) > 0 implies steady(
            pool,
            after,
            block,
        ) by {
            assert(steady(pool, before, block));
            assert(before.rc(block) >= pool.rc(block));
            assert(block != next);
        }
        assert forall|i: int| 0 <= i < n implies private(
            after,
            #[trigger] pool.next_blocks(n)[i],
        ) by {
            if i < k {
                assert(pool.next_blocks(n)[i] == pool.next_blocks(k)[i]);
                assert(private(before, pool.next_blocks(k)[i]));
            } else {
                assert(pool.next_blocks(n)[i] == next);
            }
        }
    }
}

/// Mapping hashes through the prefix index leaves the blocks held before as they
/// were, and each block that it maps is cached under its hash.
proof fn lemma_share_steady(pool: PoolView, hashes: Seq<BlockHash>)
    requires
        pool.wf(),
        sequence::room_to_share(pool, hashes),
    ensures
        ({
            let sharing = sequence::share_blocks(pool, hashes);
            &&& sharing.blocks.len() <= hashes.len()
            &&& !sharing.exhausted ==> sharing.blocks.len() == hashes.len()
            &&& forall|block: PhysicalBlockId|
                pool.owns(block) && #[trigger] pool.rc(block) > 0 ==> steady(
                    pool,
                    sharing.pool,
                    block,
                )
            &&& forall|i: int|
                0 <= i < sharing.blocks.len() ==> sharing.pool.hashes[(
                #[trigger] sharing.blocks[i]).0 as int] == Some(hashes[i])
        }),
    decreases hashes.len(),
{
    if hashes.len() > 0 {
        let rest = hashes.drop_last();
        let hash = hashes.last();
        assert forall|h: u64| #[trigger]
            pool.sharers(h) + counting::count(rest, BlockHash(h)) <= u16::MAX by {
            assert(pool.sharers(h) + counting::count(hashes, BlockHash(h)) <= u16::MAX);
        }
        lemma_share_steady(pool, rest);
        sequence::lemma_share_growth(pool, rest);
        accounts::lemma_share_counts(pool, rest);
        let before = sequence::share_blocks(pool, rest);
        let sharing = sequence::share_blocks(pool, hashes);
        let hit = before.pool.prefix.contains_key(hash.0);
        let fresh = !hit && before.pool.free.len() > 0;
        if fresh {
            before.pool.lemma_allocated();
        }
        if hit {
            assert(before.pool.hashes[before.pool.prefix[hash.0].0 as int] == Some(
                BlockHash(hash.0),
            ));
        }
        assert forall|block: PhysicalBlockId|
            pool.owns(block) && #[trigger] pool.rc(block) > 0 implies steady(
            pool,
            sharing.pool,
            block,
        ) by {
            assert(steady(pool, before.pool, block));
            assert(before.pool.rc(block) >= pool.rc(block));
        }
        assert forall|i: int| 0 <= i < sharing.blocks.len() implies sharing.pool.hashes[(
        #[trigger] sharing.blocks[i]).0 as int] == Some(hashes[i]) by {
            if i < before.blocks.len() {
                assert(sharing.blocks[i] == before.blocks[i]);
                assert(rest[i] == hashes[i]);
                let block = before.blocks[i];
                assert(before.pool.hashes[block.0 as int] == Some(hashes[i]));
                assert(pool.owns(block));
            }
        }
    }
}

/// Answering a sequence keeps the sharing sound.
proof fn lemma_answered_sound(engine: EngineView, idx: int, turn: Turn)
    requires
        accounts::accounted(engine),
        sharing_sound(engine),
        0 <= idx < engine.running.len(),
    ensures
        sharing_sound(engine.answered(idx, turn).engine),
{
    let after = engine.answered(idx, turn).engine;
    if let Ok(token) = turn.reply {
        let old_table = engine.running[idx].table;
        let grown = engine.running[idx].pushed(token, turn.at);
        let needed = grown.missing_blocks(grown.len());
        let seq = after.running[idx];
        if engine.config.eos_token != Some(token) && needed <= engine.pool.free.len() {
            lemma_taken_steady(engine.pool, needed);
            assert forall|k: int| old_table.len() <= k < seq.table.len() implies #[trigger] entry_sound(
                after.pool,
                seq,
                k,
            ) by {
                assert(seq.table[k] == engine.pool.next_blocks(needed)[k - old_table.len()]);
            }
        }
        lemma_update_sound(engine, after, idx, seq);
    }
}

/// Mapping a prompt through the prefix cache keeps the sharing sound.
proof fn lemma_prefix_sound(engine: EngineView, plan: PlanView, idx: int)
    requires
        engine.mid_step(plan, idx),
        accounts::accounted(engine),
        sharing_sound(engine),
        0 <= idx < engine.running.len(),
        engine.ask(plan, idx) is Prefill,
    ensures
        sharing_sound(engine.prefix_mapped(idx).engine),
{
    let after = engine.prefix_mapped(idx).engine;
    let hashes = engine.running[idx].unmapped_hashes();
    let sharing = sequence::share_blocks(engine.pool, hashes);
    let old_table = engine.running[idx].table;
    let seq = after.running[idx];
    upkeep::lemma_prefix_mapped(engine, plan, idx);
    lemma_share_steady(engine.pool, hashes);
    assert forall|k: int| old_table.len() <= k < seq.table.len() implies #[trigger] entry_sound(
        after.pool,
        seq,
        k,
    ) by {
        let t = k - old_table.len();
        assert(seq.table[k] == sharing.blocks[t]);
        assert(hashes[t] == block::prefix_hashes(seq.prompt)[k]);
    }
    lemma_update_sound(engine, after, idx, seq);
}

/// A run of turns keeps the sharing sound.
proof fn lemma_executed_sound(engine: EngineView, plan: PlanView, turns: Seq<Turn>, n: nat)
    requires
        engine.mid_step(plan, 0),
        capacity::backed(engine, 0),
        sharing_sound(engine),
        n <= engine.running.len(),
    ensures
        sharing_sound(engine.executed(plan, turns, n).engine),
    decreases n,
{
    if n > 0 {
        let k = (n - 1) as nat;
        lemma_executed_sound(engine, plan, turns, k);
        capacity::lemma_executed_backed(engine, plan, turns, k);
        upkeep::lemma_executed_mid_step(engine, plan, turns, k);
        let before = engine.executed(plan, turns, k);
        if before.error is None {
            let ask = before.engine.ask(plan, n - 1);
            if ask is Prefill {
                lemma_prefix_sound(before.engine, plan, n - 1);
                capacity::lemma_prefix_backed(before.engine, plan, n - 1);
                lemma_answered_sound(
                    before.engine.prefix_mapped(n - 1).engine,
                    n - 1,
                    turns[n - 1],
                );
            } else if !(ask is Idle) {
                lemma_answered_sound(before.engine, n - 1, turns[n - 1]);
            }
        }
    }
}

/// Under a correct plan a step keeps the sharing sound, whatever the runtime
/// answers.
proof fn lemma_stepped_sound(engine: EngineView, plan: PlanView, turns: Seq<Turn>)
    requires
        engine.wf(),
        engine.executable(plan),
        accounts::accounted(engine),
        capacity::correct(engine, plan),
        sharing_sound(engine),
    ensures
        sharing_sound(engine.stepped(plan, turns)),
{
    let arranged = engine.arranged(plan);
    let n = arranged.running.len();
    lemma_arranged_sound(engine, plan);
    capacity::lemma_turns_never_exhaust(engine, plan, turns, n);
    upkeep::lemma_arranged_wf(engine, plan);
    assert(arranged.running.skip(0) =~= arranged.running);
    assert(arranged.running.take(0) =~= Seq::empty());
    lemma_executed_sound(arranged, plan, turns, n);
    let executed = arranged.executed(plan, turns, n);
    if executed.error is None {
        lemma_release_part_sound(executed.engine, model::is_done(), model::is_not_done());
    }
}

/// **A new engine shares soundly.** Nothing runs in it, so nothing is shared.
pub proof fn law_new_engine_shares_soundly(pool: PoolView, config: EngineConfig)
    ensures
        sharing_sound(EngineView::fresh(pool, config)),
{
}

/// **Submitting keeps the sharing sound.**
pub proof fn law_submitting_keeps_sharing_sound(engine: EngineView, seq: SeqView)
    requires
        sharing_sound(engine),
    ensures
        sharing_sound(engine.submitted(seq)),
{
}

/// **A step keeps the sharing sound.** Whatever comes of a step of a sound
/// engine under a prudent policy, afterwards every block that a running sequence
/// holds is private to it or cached for its place in the prompt, if that was so
/// before.
pub proof fn law_step_keeps_sharing_sound<R: ModelRuntime, P: SchedulerPolicy>(
    start: EngineState<R, P>,
    result: Result<TraceView, EngineError>,
    post: EngineState<R, P>,
)
    requires
        service::prudent::<P>(),
        service::sound(start.core),
        sharing_sound(start.core),
        start.steppable(),
        start.steps(result, post),
    ensures
        sharing_sound(post.core),
{
    let (plan, turns, states) = choose|plan: PlanView, turns: Seq<Turn>, states: Seq<R>| #[trigger]
        start.steps_by(plan, turns, states, result, post);
    assert(capacity::correct(start.core, plan));
    assert(start.core.executable(plan));
    lemma_stepped_sound(start.core, plan, turns);
}

/// Every state that a run of steps goes through shares soundly.
proof fn lemma_trail_shares_soundly<R: ModelRuntime, P: SchedulerPolicy>(
    trail: Seq<EngineState<R, P>>,
    traces: Seq<TraceView>,
    n: int,
)
    requires
        service::prudent::<P>(),
        model::runs(trail, traces),
        model::sustainable(trail[0]),
        service::sound(trail[0].core),
        sharing_sound(trail[0].core),
        0 <= n <= traces.len(),
    ensures
        sharing_sound(trail[n].core),
    decreases n,
{
    if n > 0 {
        lemma_trail_shares_soundly(trail, traces, n - 1);
        service::lemma_trail_sound(trail, traces, n - 1);
        assert(model::runs_at(trail, traces, n - 1));
        turns::lemma_trail_steppable(trail, traces, n - 1);
        law_step_keeps_sharing_sound(trail[n - 1], Ok(traces[n - 1]), trail[n]);
    }
}

/// **A run keeps the sharing sound.** Any number of steps of a sound engine
/// under a prudent policy does.
pub proof fn law_run_keeps_sharing_sound<R: ModelRuntime, P: SchedulerPolicy>(
    start: EngineState<R, P>,
    traces: Seq<TraceView>,
    post: EngineState<R, P>,
)
    requires
        service::prudent::<P>(),
        service::sound(start.core),
        sharing_sound(start.core),
        model::sustainable(start),
        model::runs_to(start, traces, post),
    ensures
        sharing_sound(post.core),
{
    let trail = choose|trail: Seq<EngineState<R, P>>| #[trigger]
        model::runs(trail, traces) && trail[0] == start && trail.last() == post;
    lemma_trail_shares_soundly(trail, traces, traces.len() as int);
}

/// **A run that fails keeps the sharing sound too.**
pub proof fn law_failed_run_keeps_sharing_sound<R: ModelRuntime, P: SchedulerPolicy>(
    start: EngineState<R, P>,
    error: EngineError,
    post: EngineState<R, P>,
)
    requires
        service::prudent::<P>(),
        service::sound(start.core),
        sharing_sound(start.core),
        model::sustainable(start),
        model::runs_into(start, error, post),
    ensures
        sharing_sound(post.core),
{
    let (traces, last) = choose|traces: Seq<TraceView>, last: EngineState<R, P>| #[trigger]
        model::runs_to(start, traces, last) && !last.core.idle() && last.steps(Err(error), post);
    law_run_keeps_sharing_sound(start, traces, last);
    service::law_run_keeps_sound(start, traces, last);
    law_step_keeps_sharing_sound(last, Err(error), post);
}

/// A block that two entries of running sequences' tables hold has two
/// references.
proof fn lemma_two_entries(engine: EngineView, i: int, k: int, j: int, m: int)
    requires
        accounts::accounted(engine),
        0 <= i < engine.running.len(),
        0 <= j < engine.running.len(),
        0 <= k < engine.running[i].table.len(),
        0 <= m < engine.running[j].table.len(),
        i != j || k != m,
        engine.running[i].table[k] == engine.running[j].table[m],
    ensures
        engine.pool.rc(engine.running[i].table[k]) >= 2,
{
    let block = engine.running[i].table[k];
    let weight = accounts::uses_of(block);
    lemma_entry_held(engine, i, k);
    assert(engine.pool.rc(block) == accounts::uses(engine.running, block));
    if i == j {
        let table = engine.running[i].table;
        if k < m {
            counting::lemma_count_two(table, k, m);
        } else {
            counting::lemma_count_two(table, m, k);
        }
        counting::lemma_sum_one(engine.running, i, weight);
    } else {
        counting::lemma_count_contains(engine.running[i].table, block);
        counting::lemma_count_contains(engine.running[j].table, block);
        if i < j {
            counting::lemma_sum_two(engine.running, i, j, weight);
        } else {
            counting::lemma_sum_two(engine.running, j, i, weight);
        }
    }
}

/// **Running sequences share only equal prefixes.** If two places in the running
/// sequences' tables hold the same block, both lie within the complete blocks of
/// their prompts, and the two prompts agree on every token up to and including
/// that block, unless the hashes of these two prefixes collide.
pub proof fn law_running_sequences_share_only_equal_prefixes(
    engine: EngineView,
    i: int,
    k: int,
    j: int,
    m: int,
)
    requires
        accounts::accounted(engine),
        sharing_sound(engine),
        0 <= i < engine.running.len(),
        0 <= j < engine.running.len(),
        0 <= k < engine.running[i].table.len(),
        0 <= m < engine.running[j].table.len(),
        i != j || k != m,
        engine.running[i].table[k] == engine.running[j].table[m],
        ({
            let x = engine.running[i].prompt.take((k + 1) * block::BLOCK_SIZE);
            let y = engine.running[j].prompt.take((m + 1) * block::BLOCK_SIZE);
            block::prefix_hash(x) == block::prefix_hash(y) ==> x == y
        }),
    ensures
        (k + 1) * block::BLOCK_SIZE <= engine.running[i].prompt.len(),
        (m + 1) * block::BLOCK_SIZE <= engine.running[j].prompt.len(),
        engine.running[i].prompt.take((k + 1) * block::BLOCK_SIZE)
            == engine.running[j].prompt.take((m + 1) * block::BLOCK_SIZE),
{
    lemma_two_entries(engine, i, k, j, m);
    assert(table_sound(engine.pool, engine.running[i]));
    assert(table_sound(engine.pool, engine.running[j]));
    assert(entry_sound(engine.pool, engine.running[i], k));
    assert(entry_sound(engine.pool, engine.running[j], m));
}

/// **Nothing but prompt blocks is shared.** A block that a running sequence
/// holds past the complete blocks of its prompt has one reference, and no other
/// place in the running sequences' tables holds it.
pub proof fn law_blocks_past_the_prompt_are_private(engine: EngineView, i: int, k: int)
    requires
        accounts::accounted(engine),
        sharing_sound(engine),
        0 <= i < engine.running.len(),
        engine.running[i].prompt.len() / block::BLOCK_SIZE as nat <= k
            < engine.running[i].table.len(),
    ensures
        engine.pool.rc(engine.running[i].table[k]) == 1,
        forall|j: int, m: int|
            0 <= j < engine.running.len() && 0 <= m < engine.running[j].table.len() && (i != j || k
                != m) ==> #[trigger] engine.running[j].table[m] != engine.running[i].table[k],
{
    assert(table_sound(engine.pool, engine.running[i]));
    assert(entry_sound(engine.pool, engine.running[i], k));
    assert forall|j: int, m: int|
        0 <= j < engine.running.len() && 0 <= m < engine.running[j].table.len() && (i != j || k
            != m) implies #[trigger] engine.running[j].table[m] != engine.running[i].table[k] by {
        if engine.running[j].table[m] == engine.running[i].table[k] {
            lemma_two_entries(engine, i, k, j, m);
        }
    }
}

/// **Generated tokens go to private blocks.** The block for any position past the
/// prompt has one reference, so what a sequence generates is its own.
pub proof fn law_generated_tokens_are_private(engine: EngineView, i: int, position: nat)
    requires
        accounts::accounted(engine),
        sharing_sound(engine),
        0 <= i < engine.running.len(),
        engine.running[i].prompt.len() <= position,
        position / (block::BLOCK_SIZE as nat) < engine.running[i].table.len(),
    ensures
        engine.pool.rc(engine.running[i].table[(position / block::BLOCK_SIZE as nat) as int]) == 1,
{
    law_blocks_past_the_prompt_are_private(
        engine,
        i,
        (position / block::BLOCK_SIZE as nat) as int,
    );
}

/// Mapping shares the blocks of a cached beginning.
proof fn lemma_cached_beginning(pool: PoolView, hashes: Seq<BlockHash>, n: nat)
    requires
        n <= hashes.len(),
        forall|k: int| 0 <= k < n ==> pool.prefix.contains_key((#[trigger] hashes[k]).0),
    ensures
        ({
            let sharing = sequence::share_blocks(pool, hashes);
            &&& n <= sharing.blocks.len()
            &&& n <= sharing.shared
            &&& forall|k: int|
                0 <= k < n ==> #[trigger] sharing.blocks[k] == pool.prefix[hashes[k].0]
        }),
    decreases hashes.len(),
{
    if n == hashes.len() {
        prefix::law_cached_prefix_is_shared(pool, hashes);
    } else {
        let rest = hashes.drop_last();
        assert forall|k: int| 0 <= k < n implies pool.prefix.contains_key(
            (#[trigger] rest[k]).0,
        ) by {
            assert(rest[k] == hashes[k]);
        }
        lemma_cached_beginning(pool, rest, n);
        let before = sequence::share_blocks(pool, rest);
        let sharing = sequence::share_blocks(pool, hashes);
        assert forall|k: int| 0 <= k < n implies #[trigger] sharing.blocks[k]
            == pool.prefix[hashes[k].0] by {
            assert(before.blocks[k] == pool.prefix[rest[k].0]);
        }
    }
}

/// **A prefilled prompt is cached.** When a sequence without blocks has mapped
/// its prompt through the prefix cache, every complete block of the prompt is
/// cached for its place.
pub proof fn law_prefilled_prompt_is_cached(engine: EngineView, idx: int)
    requires
        engine.pool.wf(),
        0 <= idx < engine.running.len(),
        engine.running[idx].table.len() == 0,
        sequence::room_to_share(engine.pool, engine.running[idx].unmapped_hashes()),
        engine.prefix_mapped(idx).error is None,
    ensures
        ({
            let after = engine.prefix_mapped(idx).engine;
            let seq = after.running[idx];
            &&& seq.table.len() == seq.prompt.len() / block::BLOCK_SIZE as nat
            &&& forall|k: int|
                0 <= k < seq.table.len() ==> caches(after.pool, seq, k, #[trigger] seq.table[k])
        }),
{
    let hashes = engine.running[idx].unmapped_hashes();
    let sharing = sequence::share_blocks(engine.pool, hashes);
    let seq = engine.prefix_mapped(idx).engine.running[idx];
    assert(hashes =~= block::prefix_hashes(seq.prompt));
    lemma_share_steady(engine.pool, hashes);
    assert(seq.table =~= sharing.blocks);
}

/// **Equal prefixes of running sequences are shared.** If the prompt of a
/// sequence without blocks agrees with another's on the first `n` blocks, and
/// the other holds them cached for their places, then mapping the prompt through
/// the prefix cache gives it the other's blocks, and counts them as shared.
pub proof fn law_running_prefix_is_shared(engine: EngineView, idx: int, other: int, n: nat)
    requires
        engine.pool.wf(),
        model::tables_in(engine.running, engine.pool),
        0 <= idx < engine.running.len(),
        0 <= other < engine.running.len(),
        engine.running[idx].table.len() == 0,
        n <= engine.running[other].table.len(),
        n * block::BLOCK_SIZE <= engine.running[idx].prompt.len(),
        n * block::BLOCK_SIZE <= engine.running[other].prompt.len(),
        engine.running[idx].prompt.take(n * block::BLOCK_SIZE)
            == engine.running[other].prompt.take(n * block::BLOCK_SIZE),
        forall|k: int|
            0 <= k < n ==> caches(
                engine.pool,
                engine.running[other],
                k,
                #[trigger] engine.running[other].table[k],
            ),
    ensures
        ({
            let hashes = engine.running[idx].unmapped_hashes();
            let table = engine.prefix_mapped(idx).engine.running[idx].table;
            &&& n <= table.len()
            &&& table.take(n as int) == engine.running[other].table.take(n as int)
            &&& n <= sequence::share_blocks(engine.pool, hashes).shared
        }),
{
    let pool = engine.pool;
    let mine = engine.running[idx].prompt;
    let theirs = engine.running[other].prompt;
    let hashes = engine.running[idx].unmapped_hashes();
    let sharing = sequence::share_blocks(pool, hashes);
    let table = engine.prefix_mapped(idx).engine.running[idx].table;
    assert(hashes =~= block::prefix_hashes(mine));
    prefix::law_equal_prefixes_hash_equal(mine, theirs, n);
    assert(model::table_in(engine.running[other], pool));
    assert forall|k: int| 0 <= k < n implies pool.prefix.contains_key((#[trigger] hashes[k]).0)
        && pool.prefix[hashes[k].0] == engine.running[other].table[k] by {
        let block = engine.running[other].table[k];
        assert(caches(pool, engine.running[other], k, block));
        assert(block::prefix_hashes(mine).take(n as int)[k] == block::prefix_hashes(
            theirs,
        ).take(n as int)[k]);
        assert(pool.owns(block));
        assert(pool.hashes[block.0 as int] is Some);
    }
    lemma_cached_beginning(pool, hashes, n);
    assert(table =~= sharing.blocks);
    assert(table.take(n as int) =~= engine.running[other].table.take(n as int));
}

/// Block `k` of the prompt is mapped, and cached for its place.
pub open spec fn block_cached(pool: PoolView, seq: SeqView, k: int) -> bool {
    k < seq.table.len() && caches(pool, seq, k, seq.table[k])
}

/// Every complete block of the prompt is mapped, and cached for its place.
pub open spec fn prompt_cached(pool: PoolView, seq: SeqView) -> bool {
    forall|k: int|
        0 <= k < seq.prompt.len() / block::BLOCK_SIZE as nat ==> #[trigger] block_cached(
            pool,
            seq,
            k,
        )
}

/// Releasing part of the sequences leaves the blocks of the others in their places
/// in the prefix index.
proof fn lemma_release_part_cached(
    engine: EngineView,
    gone: spec_fn(SeqView) -> bool,
    kept: spec_fn(SeqView) -> bool,
    i: int,
)
    requires
        accounts::accounted(engine),
        forall|seq: SeqView| #[trigger] kept(seq) == !gone(seq),
        0 <= i < engine.running.filter(kept).len(),
        prompt_cached(engine.pool, engine.running.filter(kept)[i]),
    ensures
        prompt_cached(
            model::release_seqs(engine.pool, engine.running.filter(gone)),
            engine.running.filter(kept)[i],
        ),
{
    let pool = engine.pool;
    let seqs = engine.running;
    let released = seqs.filter(gone);
    let rest = seqs.filter(kept);
    let after = model::release_seqs(pool, released);
    assert forall|m: int| 0 <= m < released.len() implies model::table_in(
        #[trigger] released[m],
        pool,
    ) by {
        let j = upkeep::lemma_filter_source(seqs, gone, m);
        assert(model::table_in(seqs[j], pool));
    }
    assert forall|block: PhysicalBlockId| pool.owns(block) implies accounts::uses(released, block)
        <= #[trigger] pool.rc(block) by {
        counting::lemma_sum_split(seqs, gone, kept, accounts::uses_of(block));
        assert(pool.rc(block) == accounts::uses(seqs, block));
    }
    lemma_release_seqs_steady(pool, released);
    let j = upkeep::lemma_filter_source(seqs, kept, i);
    assert forall|k: int|
        0 <= k < rest[i].prompt.len() / block::BLOCK_SIZE as nat implies #[trigger] block_cached(
        after,
        rest[i],
        k,
    ) by {
        let block = rest[i].table[k];
        assert(block_cached(pool, rest[i], k));
        lemma_entry_held(engine, j, k);
        counting::lemma_sum_split(seqs, gone, kept, accounts::uses_of(block));
        counting::lemma_count_contains(rest[i].table, block);
        counting::lemma_sum_one(rest, i, accounts::uses_of(block));
        assert(pool.rc(block) == accounts::uses(seqs, block));
        assert(accounts::uses(released, block) < pool.rc(block));
    }
}

/// A sequence's cached prompt stays cached while its table grows and the blocks
/// that are held stay as they were.
proof fn lemma_cached_kept(pool: PoolView, seq: SeqView, after: PoolView, now: SeqView)
    requires
        pool.wf(),
        model::table_in(seq, pool),
        prompt_cached(pool, seq),
        now.prompt == seq.prompt,
        seq.table.len() <= now.table.len(),
        forall|k: int| 0 <= k < seq.table.len() ==> #[trigger] now.table[k] == seq.table[k],
        forall|block: PhysicalBlockId|
            pool.owns(block) && #[trigger] pool.rc(block) > 0 ==> steady(pool, after, block),
    ensures
        prompt_cached(after, now),
{
    assert forall|k: int|
        0 <= k < now.prompt.len() / block::BLOCK_SIZE as nat implies #[trigger] block_cached(
        after,
        now,
        k,
    ) by {
        let block = seq.table[k];
        assert(block_cached(pool, seq, k));
        assert(pool.owns(block));
        let hash = pool.hashes[block.0 as int]->Some_0;
        assert(pool.hashes[block.0 as int] is Some);
        assert(pool.prefix.contains_key(hash.0));
        assert(pool.prefix[hash.0] == block);
        assert(pool.rc(block) > 0);
        assert(now.table[k] == seq.table[k]);
    }
}

/// Answering a sequence keeps the cached prompts cached.
proof fn lemma_answered_cached(engine: EngineView, idx: int, turn: Turn, i: int)
    requires
        engine.wf(),
        0 <= idx < engine.running.len(),
        0 <= i < engine.running.len(),
        prompt_cached(engine.pool, engine.running[i]),
    ensures
        prompt_cached(
            engine.answered(idx, turn).engine.pool,
            engine.answered(idx, turn).engine.running[i],
        ),
{
    let after = engine.answered(idx, turn).engine;
    assert(model::table_in(engine.running[i], engine.pool));
    if let Ok(token) = turn.reply {
        let grown = engine.running[idx].pushed(token, turn.at);
        let needed = grown.missing_blocks(grown.len());
        if engine.config.eos_token != Some(token) && needed <= engine.pool.free.len() {
            lemma_taken_steady(engine.pool, needed);
        }
        lemma_cached_kept(engine.pool, engine.running[i], after.pool, after.running[i]);
    }
}

/// A turn keeps the cached prompts cached, and a prefill caches the whole prompt.
proof fn lemma_turn_cached(engine: EngineView, plan: PlanView, idx: int, turn: Turn, i: int)
    requires
        engine.mid_step(plan, idx),
        0 <= idx < engine.running.len(),
        0 <= i < engine.running.len(),
        engine.turn_taken(engine.ask(plan, idx), idx, turn).error is None,
        prompt_cached(engine.pool, engine.running[i]) || i == idx && engine.ask(plan, idx)
            is Prefill && engine.running[idx].table.len() == 0,
    ensures
        ({
            let after = engine.turn_taken(engine.ask(plan, idx), idx, turn).engine;
            prompt_cached(after.pool, after.running[i])
        }),
{
    let ask = engine.ask(plan, idx);
    if ask is Prefill {
        let mid = engine.prefix_mapped(idx).engine;
        let seq = engine.running[idx];
        upkeep::lemma_prefix_mapped(engine, plan, idx);
        lemma_share_steady(engine.pool, seq.unmapped_hashes());
        if prompt_cached(engine.pool, engine.running[i]) {
            assert(model::table_in(engine.running[i], engine.pool));
            lemma_cached_kept(engine.pool, engine.running[i], mid.pool, mid.running[i]);
        } else {
            law_prefilled_prompt_is_cached(engine, idx);
            assert forall|k: int|
                0 <= k < seq.prompt.len()
                    / block::BLOCK_SIZE as nat implies #[trigger] block_cached(
                mid.pool,
                mid.running[idx],
                k,
            ) by {
                assert(caches(
                    mid.pool,
                    mid.running[idx],
                    k,
                    mid.running[idx].table[k],
                ));
            }
        }
        lemma_answered_cached(mid, idx, turn, i);
    } else if !(ask is Idle) {
        lemma_answered_cached(engine, idx, turn, i);
    }
}

/// Turns keep the cached prompts cached, and prefills cache whole prompts.
proof fn lemma_executed_cached(
    engine: EngineView,
    plan: PlanView,
    turns: Seq<Turn>,
    n: nat,
    i: int,
)
    requires
        engine.mid_step(plan, 0),
        n <= engine.running.len(),
        0 <= i < engine.running.len(),
        engine.executed(plan, turns, n).error is None,
    ensures
        ({
            let after = engine.executed(plan, turns, n).engine;
            prompt_cached(engine.pool, engine.running[i]) || i < n && engine.ask(plan, i) is Prefill
                && engine.running[i].table.len() == 0 ==> prompt_cached(
                after.pool,
                after.running[i],
            )
        }),
    decreases n,
{
    if n > 0 {
        let k = (n - 1) as nat;
        let idx = n - 1;
        lemma_executed_cached(engine, plan, turns, k, i);
        turns::lemma_executed_frame(engine, plan, turns, k);
        upkeep::lemma_executed_mid_step(engine, plan, turns, k);
        let before = engine.executed(plan, turns, k).engine;
        assert(before.running[idx] == engine.running[idx]);
        assert(before.ask(plan, idx) == engine.ask(plan, idx));
        if prompt_cached(before.pool, before.running[i]) || i == idx && engine.ask(plan, idx)
            is Prefill && engine.running[idx].table.len() == 0 {
            lemma_turn_cached(before, plan, idx, turns[idx], i);
        }
    }
}

/// **Prompts are cached when they are prefilled, and stay cached.** After a
/// successful step of a sound engine under a prudent policy, a running sequence
/// has every complete block of its prompt mapped and cached for its place if it
/// was fresh before the step, or if it ran before with its prompt cached.
pub proof fn law_prompts_are_cached<R: ModelRuntime, P: SchedulerPolicy>(
    start: EngineState<R, P>,
    trace: TraceView,
    post: EngineState<R, P>,
    j: int,
)
    requires
        service::prudent::<P>(),
        service::sound(start.core),
        start.steppable(),
        start.steps(Ok(trace), post),
        0 <= j < post.core.running.len(),
        ({
            let id = post.core.running[j].id;
            ||| exists|i: int|
                0 <= i < start.core.waiting.len() && (#[trigger] start.core.waiting[i]).id == id
                    && start.core.waiting[i].output.len() == 0
            ||| exists|i: int|
                0 <= i < start.core.running.len() && (#[trigger] start.core.running[i]).id == id
                    && prompt_cached(start.core.pool, start.core.running[i])
                    && !trace.preempted.contains(id)
        }),
    ensures
        prompt_cached(post.core.pool, post.core.running[j]),
{
    let (plan, turns, states) = choose|plan: PlanView, turns: Seq<Turn>, states: Seq<R>| #[trigger]
        start.steps_by(plan, turns, states, Ok(trace), post);
    let engine = start.core;
    let arranged = engine.arranged(plan);
    let mid = engine.after_preempt(plan.preempt);
    let evicted = engine.evicted(plan.preempt);
    let n = arranged.running.len();
    let id = post.core.running[j].id;
    assert(capacity::correct(engine, plan));
    assert(engine.executable(plan));
    upkeep::lemma_stepped_wf(engine, plan, turns);
    capacity::lemma_turns_never_exhaust(engine, plan, turns, n);
    turns::lemma_executed_frame(arranged, plan, turns, n);
    plans::lemma_distinct_ids(engine);
    let executed = arranged.executed(plan, turns, n).engine;
    let at = upkeep::lemma_filter_source(executed.running, model::is_not_done(), j);
    assert(arranged.running[at].id == id);
    if at < mid.running.len() {
        // It ran before, and was not evicted.
        let from = upkeep::lemma_filter_source(
            engine.running,
            model::not_named_in(plan.preempt),
            at,
        );
        assert(arranged.running[at] == engine.running[from]);
        assert(prompt_cached(engine.pool, engine.running[from])) by {
            if exists|i: int|
                0 <= i < engine.waiting.len() && (#[trigger] engine.waiting[i]).id == id
                    && engine.waiting[i].output.len() == 0 {
                let i = choose|i: int|
                    0 <= i < engine.waiting.len() && (#[trigger] engine.waiting[i]).id == id
                        && engine.waiting[i].output.len() == 0;
                assert(engine.running[from].id != engine.waiting[i].id);
            }
        }
        lemma_release_part_cached(
            engine,
            model::named_in(plan.preempt),
            model::not_named_in(plan.preempt),
            at,
        );
    } else {
        // It was admitted.
        let k = at - mid.running.len();
        let from = upkeep::lemma_filter_source(mid.waiting, model::named_in(plan.prefill), k);
        if from < evicted.len() {
            let r = upkeep::lemma_filter_source(
                engine.running,
                model::named_in(plan.preempt),
                evicted.len() - 1 - from,
            );
            assert(engine.running[r].id == id);
            assert(trace.preempted[evicted.len() - 1 - from] == id);
            assert(false) by {
                if exists|i: int|
                    0 <= i < engine.waiting.len() && (#[trigger] engine.waiting[i]).id == id
                        && engine.waiting[i].output.len() == 0 {
                    let i = choose|i: int|
                        0 <= i < engine.waiting.len() && (#[trigger] engine.waiting[i]).id == id
                            && engine.waiting[i].output.len() == 0;
                    assert(engine.running[r].id != engine.waiting[i].id);
                }
            }
        } else {
            let w = from - evicted.len();
            assert(mid.waiting[from] == engine.waiting[w]);
            assert(engine.waiting[w].output.len() == 0) by {
                if exists|i: int|
                    0 <= i < engine.running.len() && (#[trigger] engine.running[i]).id == id
                        && prompt_cached(engine.pool, engine.running[i])
                        && !trace.preempted.contains(id) {
                    let i = choose|i: int|
                        0 <= i < engine.running.len() && (#[trigger] engine.running[i]).id == id
                            && prompt_cached(engine.pool, engine.running[i])
                            && !trace.preempted.contains(id);
                    assert(engine.running[i].id != engine.waiting[w].id);
                }
            }
            assert(engine.waiting[w].table.len() == 0);
            assert(arranged.ask(plan, at) is Prefill);
        }
    }
    lemma_executed_cached(arranged, plan, turns, n, at);
    lemma_release_part_cached(executed, model::is_done(), model::is_not_done(), j);
}

/// **A common prefix is held once.** Two sequences whose prompts are cached and
/// agree on the first `n` blocks hold the same blocks for them.
pub proof fn law_common_prefix_is_held_once(pool: PoolView, a: SeqView, b: SeqView, n: nat)
    requires
        pool.wf(),
        model::table_in(a, pool),
        model::table_in(b, pool),
        prompt_cached(pool, a),
        prompt_cached(pool, b),
        n * block::BLOCK_SIZE <= a.prompt.len(),
        n * block::BLOCK_SIZE <= b.prompt.len(),
        a.prompt.take(n * block::BLOCK_SIZE) == b.prompt.take(n * block::BLOCK_SIZE),
    ensures
        n <= a.table.len(),
        n <= b.table.len(),
        a.table.take(n as int) == b.table.take(n as int),
{
    let (x, y) = (block::prefix_hashes(a.prompt), block::prefix_hashes(b.prompt));
    prefix::law_equal_prefixes_hash_equal(a.prompt, b.prompt, n);
    assert(n <= x.len() && n <= y.len());
    assert forall|k: int| 0 <= k < n implies k < a.table.len() && k < b.table.len()
        && #[trigger] a.table[k] == b.table[k] by {
        assert(x.take(n as int)[k] == y.take(n as int)[k]);
        let (p, q) = (a.table[k], b.table[k]);
        assert(block_cached(pool, a, k));
        assert(block_cached(pool, b, k));
        assert(pool.owns(p) && pool.owns(q));
        assert(pool.hashes[p.0 as int] is Some);
        assert(pool.hashes[q.0 as int] is Some);
        assert(pool.prefix[x[k].0].0 == p.0);
        assert(pool.prefix[x[k].0].0 == q.0);
    }
    if n > 0 {
        assert(a.table[n - 1] == b.table[n - 1]);
    }
    assert(a.table.take(n as int) =~= b.table.take(n as int));
}

} // verus!
