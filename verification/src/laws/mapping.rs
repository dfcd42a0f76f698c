//! Every token of a running sequence has a place in the pool.
use vstd::prelude::*;

use crate::block;
use crate::engine::model::{self, EngineView, Turn};
use crate::engine::{turns, upkeep};
use crate::scheduler::PlanView;
use crate::sequence::{SeqState, SeqView};

verus! {

/// The table has a block for every token.
pub open spec fn covered(seq: SeqView) -> bool {
    seq.table.len() >= block::blocks_covering(seq.len())
}

/// **Every token has a place.** Once the table covers a sequence's length, each
/// of its token positions lies in a mapped block.
pub proof fn law_every_token_has_a_place(seq: SeqView, pos: nat)
    requires
        covered(seq),
        pos < seq.len(),
    ensures
        pos / (block::BLOCK_SIZE as nat) < seq.table.len(),
{
}

/// **Growing covers.** After the table has grown by the blocks it was missing,
/// it has a block for every token.
pub proof fn law_growing_covers(seq: SeqView, blocks: Seq<block::PhysicalBlockId>)
    requires
        blocks.len() == seq.missing_blocks(seq.len()),
    ensures
        covered(seq.mapped(blocks)),
{
}

/// Turns that succeed leave every sequence that took part covered or finished.
proof fn lemma_executed_covered(engine: EngineView, plan: PlanView, turns: Seq<Turn>, n: nat)
    requires
        n <= engine.running.len(),
        engine.executed(plan, turns, n).error is None,
        forall|i: int|
            0 <= i < engine.running.len() ==> covered(#[trigger] engine.running[i])
                || plan.prefill.contains(engine.running[i].id),
    ensures
        forall|i: int|
            0 <= i < n ==> covered(
                #[trigger] engine.executed(plan, turns, n).engine.running[i],
            ) || engine.executed(plan, turns, n).engine.running[i].state == SeqState::Finished,
    decreases n,
{
    if n > 0 {
        let k = (n - 1) as nat;
        lemma_executed_covered(engine, plan, turns, k);
        turns::lemma_executed_frame(engine, plan, turns, k);
        let before = engine.executed(plan, turns, k).engine;
        let after = engine.executed(plan, turns, n).engine;
        assert forall|i: int| 0 <= i < n implies covered(#[trigger] after.running[i])
            || after.running[i].state == SeqState::Finished by {
            if i < k {
                assert(after.running[i] == before.running[i]);
            } else {
                assert(before.running[i] == engine.running[i]);
            }
        }
    }
}

/// **Running sequences stay mapped.** If every running sequence has a block for
/// each of its tokens, so has every one after a successful step.
pub proof fn law_running_sequences_stay_mapped(
    engine: EngineView,
    plan: PlanView,
    turns: Seq<Turn>,
)
    requires
        forall|i: int| 0 <= i < engine.running.len() ==> covered(#[trigger] engine.running[i]),
        engine.step_result(plan, turns) is Ok,
    ensures
        forall|i: int|
            0 <= i < engine.stepped(plan, turns).running.len() ==> covered(
                #[trigger] engine.stepped(plan, turns).running[i],
            ),
{
    let mid = engine.after_preempt(plan.preempt);
    let arranged = engine.arranged(plan);
    let n = arranged.running.len();
    assert forall|i: int| 0 <= i < n implies covered(#[trigger] arranged.running[i])
        || plan.prefill.contains(arranged.running[i].id) by {
        if i < mid.running.len() {
            let j = upkeep::lemma_filter_source(
                engine.running,
                model::not_named_in(plan.preempt),
                i,
            );
            assert(covered(engine.running[j]));
        } else {
            let k = i - mid.running.len();
            let j = upkeep::lemma_filter_source(mid.waiting, model::named_in(plan.prefill), k);
        }
    }
    lemma_executed_covered(arranged, plan, turns, n);
    turns::lemma_executed_frame(arranged, plan, turns, n);
    let executed = arranged.executed(plan, turns, n).engine;
    assert forall|i: int| 0 <= i < engine.stepped(plan, turns).running.len() implies covered(
        #[trigger] engine.stepped(plan, turns).running[i],
    ) by {
        let j = upkeep::lemma_filter_source(executed.running, model::is_not_done(), i);
        assert(covered(executed.running[j]));
    }
}

} // verus!
