//! No request is lost, repeated or mixed up.
use vstd::prelude::*;

use crate::counting;
use crate::engine::model::{self, EngineView, Turn};
use crate::engine::turns;
use crate::ids::SeqId;
use crate::scheduler::PlanView;
use crate::sequence::{SeqState, SeqView};

verus! {

/// What a request is: everything that its sequence had when it was created.
pub open spec fn request(seq: SeqView) -> SeqView {
    SeqView {
        state: SeqState::Waiting,
        output: Seq::empty(),
        table: Seq::empty(),
        first_token_at: None,
        ..seq
    }
}

/// `weight` depends on the request only.
pub open spec fn steady(weight: spec_fn(SeqView) -> nat) -> bool {
    forall|seq: SeqView, other: SeqView|
        request(seq) == request(other) ==> #[trigger] weight(seq) == #[trigger] weight(other)
}

/// Weight of the sequences that wait or run.
pub open spec fn live_weight(engine: EngineView, weight: spec_fn(SeqView) -> nat) -> nat {
    counting::sum(engine.waiting, weight) + counting::sum(engine.running, weight)
}

/// Weight of all sequences.
pub open spec fn total_weight(engine: EngineView, weight: spec_fn(SeqView) -> nat) -> nat {
    live_weight(engine, weight) + counting::sum(engine.finished, weight)
}

/// One if the sequence has the given id.
pub open spec fn has_id(id: SeqId) -> spec_fn(SeqView) -> nat {
    |seq: SeqView|
        if seq.id == id {
            1
        } else {
            0
        }
}

/// One if the sequence serves the given request.
pub open spec fn serves(wanted: SeqView) -> spec_fn(SeqView) -> nat {
    |seq: SeqView|
        if request(seq) == wanted {
            1
        } else {
            0
        }
}

/// No two sequences that wait or run have the same id.
pub open spec fn distinct(engine: EngineView) -> bool {
    forall|id: SeqId| #[trigger] live_weight(engine, has_id(id)) <= 1
}

/// How many of the engine's sequences serve the request `wanted`.
pub open spec fn servers(engine: EngineView, wanted: SeqView) -> nat {
    total_weight(engine, serves(wanted))
}

/// `image` changes no weight.
pub open spec fn keeps(
    image: spec_fn(SeqView) -> SeqView,
    weight: spec_fn(SeqView) -> nat,
) -> bool {
    forall|seq: SeqView| weight(#[trigger] image(seq)) == weight(seq)
}

/// Neither being evicted, nor being admitted, nor giving up its blocks changes
/// a request.
pub proof fn lemma_moves_keep(weight: spec_fn(SeqView) -> nat)
    requires
        steady(weight),
    ensures
        keeps(model::to_preempted(), weight),
        keeps(model::to_running(), weight),
        keeps(model::to_unmapped(), weight),
{
    assert forall|seq: SeqView| weight(#[trigger] model::to_preempted()(seq)) == weight(seq) by {
        assert(request(model::to_preempted()(seq)) == request(seq));
    }
    assert forall|seq: SeqView| weight(#[trigger] model::to_running()(seq)) == weight(seq) by {
        assert(request(model::to_running()(seq)) == request(seq));
    }
    assert forall|seq: SeqView| weight(#[trigger] model::to_unmapped()(seq)) == weight(seq) by {
        assert(request(model::to_unmapped()(seq)) == request(seq));
    }
}

/// What changes no weight changes no sum.
pub proof fn lemma_sum_kept(
    seqs: Seq<SeqView>,
    image: spec_fn(SeqView) -> SeqView,
    weight: spec_fn(SeqView) -> nat,
)
    requires
        keeps(image, weight),
    ensures
        counting::sum(seqs.map_values(image), weight) == counting::sum(seqs, weight),
{
    assert forall|i: int| 0 <= i < seqs.len() implies weight(#[trigger] seqs.map_values(image)[i])
        == weight(seqs[i]) by {
        assert(weight(image(seqs[i])) == weight(seqs[i]));
    }
    counting::lemma_sum_zip(seqs.map_values(image), seqs, weight, weight);
}

/// Applying a plan to the queues keeps every live sequence.
pub proof fn lemma_arranged_weight(
    engine: EngineView,
    plan: PlanView,
    weight: spec_fn(SeqView) -> nat,
)
    requires
        keeps(model::to_preempted(), weight),
        keeps(model::to_running(), weight),
    ensures
        live_weight(engine.arranged(plan), weight) == live_weight(engine, weight),
        engine.arranged(plan).finished == engine.finished,
{
    let evicted = engine.evicted(plan.preempt);
    let mid = engine.after_preempt(plan.preempt);
    let admitted = mid.admissible(plan.prefill);
    let returned = evicted.map_values(model::to_preempted());
    lemma_sum_kept(evicted, model::to_preempted(), weight);
    counting::lemma_sum_reverse(returned, weight);
    counting::lemma_sum_add(returned.reverse(), engine.waiting, weight);
    counting::lemma_sum_split(
        engine.running,
        model::named_in(plan.preempt),
        model::not_named_in(plan.preempt),
        weight,
    );
    assert(live_weight(mid, weight) == live_weight(engine, weight));
    lemma_sum_kept(admitted, model::to_running(), weight);
    counting::lemma_sum_add(mid.running, admitted.map_values(model::to_running()), weight);
    counting::lemma_sum_split(
        mid.waiting,
        model::named_in(plan.prefill),
        model::not_named_in(plan.prefill),
        weight,
    );
}

/// Turns change no request.
pub proof fn lemma_executed_requests(engine: EngineView, plan: PlanView, turns: Seq<Turn>, n: nat)
    requires
        n <= engine.running.len(),
    ensures
        forall|i: int|
            0 <= i < engine.running.len() ==> request(
                #[trigger] engine.executed(plan, turns, n).engine.running[i],
            ) == request(engine.running[i]),
    decreases n,
{
    if n > 0 {
        let k = (n - 1) as nat;
        lemma_executed_requests(engine, plan, turns, k);
        turns::lemma_executed_frame(engine, plan, turns, k);
        let before = engine.executed(plan, turns, k);
        let after = engine.executed(plan, turns, n);
        assert forall|i: int| 0 <= i < engine.running.len() implies request(
            #[trigger] after.engine.running[i],
        ) == request(engine.running[i]) by {
            assert(request(before.engine.running[i]) == request(engine.running[i]));
            assert(request(after.engine.running[i]) == request(before.engine.running[i]));
        }
    }
}

/// Turns keep every live sequence.
pub proof fn lemma_executed_weight(
    engine: EngineView,
    plan: PlanView,
    turns: Seq<Turn>,
    n: nat,
    weight: spec_fn(SeqView) -> nat,
)
    requires
        steady(weight),
        n <= engine.running.len(),
    ensures
        live_weight(engine.executed(plan, turns, n).engine, weight) == live_weight(engine, weight),
{
    let executed = engine.executed(plan, turns, n);
    turns::lemma_executed_frame(engine, plan, turns, n);
    lemma_executed_requests(engine, plan, turns, n);
    assert forall|i: int| 0 <= i < engine.running.len() implies weight(
        #[trigger] executed.engine.running[i],
    ) == weight(engine.running[i]) by {
        assert(request(executed.engine.running[i]) == request(engine.running[i]));
    }
    counting::lemma_sum_zip(executed.engine.running, engine.running, weight, weight);
}

/// A step keeps the weight of all sequences, and adds nothing to the live ones.
pub proof fn lemma_stepped_weight(
    engine: EngineView,
    plan: PlanView,
    turns: Seq<Turn>,
    weight: spec_fn(SeqView) -> nat,
)
    requires
        steady(weight),
    ensures
        total_weight(engine.stepped(plan, turns), weight) == total_weight(engine, weight),
        live_weight(engine.stepped(plan, turns), weight) <= live_weight(engine, weight),
{
    let arranged = engine.arranged(plan);
    let n = arranged.running.len();
    let executed = arranged.executed(plan, turns, n);
    lemma_moves_keep(weight);
    lemma_arranged_weight(engine, plan, weight);
    turns::lemma_executed_frame(arranged, plan, turns, n);
    lemma_executed_weight(arranged, plan, turns, n, weight);
    let done = executed.engine.running.filter(model::is_done());
    lemma_sum_kept(done, model::to_unmapped(), weight);
    counting::lemma_sum_add(
        executed.engine.finished,
        done.map_values(model::to_unmapped()),
        weight,
    );
    counting::lemma_sum_split(
        executed.engine.running,
        model::is_done(),
        model::is_not_done(),
        weight,
    );
}

/// **Every request is kept.** However a step goes, each request is served by as
/// many of the engine's sequences afterwards as before: none is lost, repeated,
/// or has its id, prompt, priority, sampling or arrival changed.
pub proof fn law_requests_are_kept(
    engine: EngineView,
    plan: PlanView,
    turns: Seq<Turn>,
    wanted: SeqView,
)
    ensures
        servers(engine.stepped(plan, turns), wanted) == servers(engine, wanted),
{
    lemma_stepped_weight(engine, plan, turns, serves(wanted));
}

/// Having an id is a matter of the request.
proof fn lemma_id_is_steady(id: SeqId)
    ensures
        steady(has_id(id)),
{
    assert forall|seq: SeqView, other: SeqView| request(seq) == request(
        other,
    ) implies #[trigger] has_id(id)(seq) == #[trigger] has_id(id)(other) by {
        assert(request(seq).id == seq.id);
        assert(request(other).id == other.id);
    }
}

/// Applying the plan and taking turns give no two live sequences the same id.
pub proof fn lemma_executed_distinct(
    engine: EngineView,
    plan: PlanView,
    turns: Seq<Turn>,
    n: nat,
)
    requires
        distinct(engine),
        n <= engine.arranged(plan).running.len(),
    ensures
        distinct(engine.arranged(plan)),
        distinct(engine.arranged(plan).executed(plan, turns, n).engine),
{
    let arranged = engine.arranged(plan);
    let executed = arranged.executed(plan, turns, n).engine;
    assert forall|id: SeqId| #[trigger] live_weight(arranged, has_id(id)) <= 1 by {
        lemma_id_is_steady(id);
        lemma_moves_keep(has_id(id));
        lemma_arranged_weight(engine, plan, has_id(id));
        assert(live_weight(engine, has_id(id)) <= 1);
    }
    assert forall|id: SeqId| #[trigger] live_weight(executed, has_id(id)) <= 1 by {
        lemma_id_is_steady(id);
        lemma_executed_weight(arranged, plan, turns, n, has_id(id));
        assert(live_weight(arranged, has_id(id)) <= 1);
    }
}

/// **Ids stay distinct.** A step gives no two live sequences the same id.
pub proof fn law_ids_stay_distinct(engine: EngineView, plan: PlanView, turns: Seq<Turn>)
    requires
        distinct(engine),
    ensures
        distinct(engine.stepped(plan, turns)),
{
    assert forall|id: SeqId| #[trigger]
        live_weight(engine.stepped(plan, turns), has_id(id)) <= 1 by {
        lemma_id_is_steady(id);
        lemma_stepped_weight(engine, plan, turns, has_id(id));
        assert(live_weight(engine, has_id(id)) <= 1);
    }
}

} // verus!
