//! What the scheduling policies plan.
use vstd::prelude::*;

use super::{capacity, roster};
use crate::{clock, counting};
use crate::engine::model::{self, EngineView};
use crate::engine::upkeep;
use crate::ids::SeqId;
use crate::scheduler::rank::{self, Ranking};
use crate::scheduler::{self, Fcfs, Priority, Queues, Slot};
use crate::sequence::SeqView;

verus! {

/// The queues that the policy is shown.
pub open spec fn queues_of(engine: EngineView) -> Queues {
    Queues { running: engine.running, waiting: engine.waiting }
}

/// An id is selected iff a sequence with that id is at a kept place.
pub proof fn lemma_ids_where_contains(seqs: Seq<SeqView>, keep: spec_fn(int) -> bool, id: SeqId)
    ensures
        scheduler::ids_where(seqs, keep).contains(id) <==> exists|i: int|
            0 <= i < seqs.len() && keep(i) && (#[trigger] seqs[i]).id == id,
    decreases seqs.len(),
{
    if seqs.len() > 0 {
        let rest = seqs.drop_last();
        let last = seqs.len() - 1;
        let selected = scheduler::ids_where(rest, keep);
        let all = scheduler::ids_where(seqs, keep);
        lemma_ids_where_contains(rest, keep, id);
        if all.contains(id) {
            let k = choose|k: int| 0 <= k < all.len() && all[k] == id;
            if k < selected.len() {
                assert(selected[k] == id);
                assert(selected.contains(id));
                let i = choose|i: int| 0 <= i < rest.len() && keep(i) && (#[trigger] rest[i]).id == id;
                assert(seqs[i].id == id);
            } else {
                assert(seqs[last].id == id);
            }
        }
        if exists|i: int| 0 <= i < seqs.len() && keep(i) && (#[trigger] seqs[i]).id == id {
            let i = choose|i: int| 0 <= i < seqs.len() && keep(i) && (#[trigger] seqs[i]).id == id;
            if i < last {
                assert(rest[i].id == id);
                assert(selected.contains(id));
                let k = choose|k: int| 0 <= k < selected.len() && selected[k] == id;
                assert(all[k] == id);
            } else {
                assert(all[all.len() - 1] == id);
            }
        }
    }
}

/// Live sequences with the same id are the same one.
pub proof fn lemma_distinct_ids(engine: EngineView)
    requires
        roster::distinct(engine),
    ensures
        forall|i: int, j: int|
            #![trigger engine.running[i], engine.running[j]]
            0 <= i < engine.running.len() && 0 <= j < engine.running.len() && engine.running[i].id
                == engine.running[j].id ==> i == j,
        forall|i: int, j: int|
            #![trigger engine.waiting[i], engine.waiting[j]]
            0 <= i < engine.waiting.len() && 0 <= j < engine.waiting.len() && engine.waiting[i].id
                == engine.waiting[j].id ==> i == j,
        forall|i: int, j: int|
            #![trigger engine.running[i], engine.waiting[j]]
            0 <= i < engine.running.len() && 0 <= j < engine.waiting.len()
                ==> engine.running[i].id != engine.waiting[j].id,
{
    assert forall|i: int, j: int|
        #![trigger engine.running[i], engine.running[j]]
        0 <= i < engine.running.len() && 0 <= j < engine.running.len() && engine.running[i].id
            == engine.running[j].id implies i == j by {
        let weight = roster::has_id(engine.running[i].id);
        assert(roster::live_weight(engine, weight) <= 1);
        if i < j {
            counting::lemma_sum_two(engine.running, i, j, weight);
        } else if j < i {
            counting::lemma_sum_two(engine.running, j, i, weight);
        }
    }
    assert forall|i: int, j: int|
        #![trigger engine.waiting[i], engine.waiting[j]]
        0 <= i < engine.waiting.len() && 0 <= j < engine.waiting.len() && engine.waiting[i].id
            == engine.waiting[j].id implies i == j by {
        let weight = roster::has_id(engine.waiting[i].id);
        assert(roster::live_weight(engine, weight) <= 1);
        if i < j {
            counting::lemma_sum_two(engine.waiting, i, j, weight);
        } else if j < i {
            counting::lemma_sum_two(engine.waiting, j, i, weight);
        }
    }
    assert forall|i: int, j: int|
        #![trigger engine.running[i], engine.waiting[j]]
        0 <= i < engine.running.len() && 0 <= j < engine.waiting.len() implies engine.running[i].id
        != engine.waiting[j].id by {
        let weight = roster::has_id(engine.running[i].id);
        assert(roster::live_weight(engine, weight) <= 1);
        counting::lemma_sum_one(engine.running, i, weight);
        counting::lemma_sum_one(engine.waiting, j, weight);
    }
}

/// **A plan accounts for every sequence once.** When ids are distinct, each
/// running sequence is decoded if it is chosen and preempted if it is not, each
/// waiting sequence is admitted iff it is chosen, and nothing that runs is
/// admitted.
pub proof fn law_plan_partitions(engine: EngineView, chosen: spec_fn(Slot) -> bool)
    requires
        roster::distinct(engine),
    ensures
        ({
            let plan = queues_of(engine).plan_for(chosen);
            &&& forall|i: int|
                0 <= i < engine.running.len() ==> {
                    let id = (#[trigger] engine.running[i]).id;
                    &&& plan.decode.contains(id) == chosen(Slot::Running(i))
                    &&& plan.preempt.contains(id) == !chosen(Slot::Running(i))
                    &&& !plan.prefill.contains(id)
                }
            &&& forall|i: int|
                0 <= i < engine.waiting.len() ==> {
                    let id = (#[trigger] engine.waiting[i]).id;
                    &&& plan.prefill.contains(id) == chosen(Slot::Waiting(i))
                    &&& !plan.decode.contains(id)
                    &&& !plan.preempt.contains(id)
                }
        }),
{
    lemma_distinct_ids(engine);
    let plan = queues_of(engine).plan_for(chosen);
    assert forall|i: int| 0 <= i < engine.running.len() implies {
        let id = (#[trigger] engine.running[i]).id;
        &&& plan.decode.contains(id) == chosen(Slot::Running(i))
        &&& plan.preempt.contains(id) == !chosen(Slot::Running(i))
        &&& !plan.prefill.contains(id)
    } by {
        let id = engine.running[i].id;
        lemma_ids_where_contains(engine.running, scheduler::at_running(chosen), id);
        lemma_ids_where_contains(engine.running, scheduler::not_at_running(chosen), id);
        lemma_ids_where_contains(engine.waiting, scheduler::at_waiting(chosen), id);
    }
    assert forall|i: int| 0 <= i < engine.waiting.len() implies {
        let id = (#[trigger] engine.waiting[i]).id;
        &&& plan.prefill.contains(id) == chosen(Slot::Waiting(i))
        &&& !plan.decode.contains(id)
        &&& !plan.preempt.contains(id)
    } by {
        let id = engine.waiting[i].id;
        lemma_ids_where_contains(engine.running, scheduler::at_running(chosen), id);
        lemma_ids_where_contains(engine.running, scheduler::not_at_running(chosen), id);
        lemma_ids_where_contains(engine.waiting, scheduler::at_waiting(chosen), id);
    }
}

/// **Rank decides.** If a sequence is active, so is every one that ranks before
/// it: nobody is passed over in favour of a lower rank, and the first that does
/// not fit stops the selection.
pub proof fn law_rank_decides<K: Ranking>(queues: Queues, total: nat, better: Slot, worse: Slot)
    requires
        rank::precedes::<K>(queues, better, worse),
        rank::affordable::<K>(queues, total)(worse),
    ensures
        rank::affordable::<K>(queues, total)(better),
{
    counting::lemma_sum_le(
        queues.slots(),
        rank::footprints_through::<K>(queues, better),
        rank::footprints_through::<K>(queues, worse),
    );
}

/// The lowest-ranked chosen place among the first `n`, if one is chosen.
proof fn lemma_lowest_chosen<K: Ranking>(
    queues: Queues,
    chosen: spec_fn(Slot) -> bool,
    n: int,
) -> (lowest: Option<Slot>)
    requires
        0 <= n <= queues.slots().len(),
    ensures
        lowest is Some ==> chosen(lowest->Some_0),
        forall|i: int|
            0 <= i < n && chosen(#[trigger] queues.slots()[i]) ==> lowest is Some && (
            queues.slots()[i] == lowest->Some_0 || rank::precedes::<K>(
                queues,
                queues.slots()[i],
                lowest->Some_0,
            )),
    decreases n,
{
    if n == 0 {
        None
    } else {
        let before = lemma_lowest_chosen::<K>(queues, chosen, n - 1);
        let slot = queues.slots()[n - 1];
        if !chosen(slot) {
            before
        } else {
            match before {
                None => Some(slot),
                Some(lowest) => {
                    if K::key(queues, slot) == K::key(queues, lowest) {
                        K::lemma_distinct(queues, slot, lowest);
                    }
                    if rank::precedes::<K>(queues, lowest, slot) {
                        Some(slot)
                    } else {
                        before
                    }
                },
            }
        }
    }
}

/// The footprints of the chosen places.
pub open spec fn chosen_footprints(queues: Queues, chosen: spec_fn(Slot) -> bool) -> spec_fn(
    Slot,
) -> nat {
    counting::kept_weight(chosen, queues.footprints())
}

/// What a ranking chooses fits into the pool.
proof fn lemma_affordable_fits<K: Ranking>(queues: Queues, total: nat)
    ensures
        counting::sum(
            queues.slots(),
            chosen_footprints(queues, rank::affordable::<K>(queues, total)),
        ) <= total,
{
    let chosen = rank::affordable::<K>(queues, total);
    let slots = queues.slots();
    let weight = chosen_footprints(queues, chosen);
    let lowest = lemma_lowest_chosen::<K>(queues, chosen, slots.len() as int);
    match lowest {
        Some(slot) => {
            counting::lemma_sum_le(slots, weight, rank::footprints_through::<K>(queues, slot));
        },
        None => {
            counting::lemma_sum_nothing(slots, weight);
        },
    }
}

/// When ids are distinct, the sequences that run once the plan is applied are
/// the chosen ones.
pub proof fn lemma_active_footprints(engine: EngineView, chosen: spec_fn(Slot) -> bool)
    requires
        roster::distinct(engine),
    ensures
        ({
            let plan = queues_of(engine).plan_for(chosen);
            capacity::footprints(engine.arranged(plan).running) == counting::sum(
                queues_of(engine).slots(),
                chosen_footprints(queues_of(engine), chosen),
            )
        }),
{
    let queues = queues_of(engine);
    let plan = queues.plan_for(chosen);
    let weight = capacity::footprint_of();
    let picked = chosen_footprints(queues, chosen);
    let mid = engine.after_preempt(plan.preempt);
    let evicted = engine.evicted(plan.preempt);
    let returned = evicted.map_values(model::to_preempted()).reverse();
    let named = model::named_in(plan.prefill);
    let stays = model::not_named_in(plan.preempt);
    let admitted = mid.admissible(plan.prefill);
    law_plan_partitions(engine, chosen);
    lemma_distinct_ids(engine);
    // Nobody who was just evicted is admitted.
    Seq::filter_distributes_over_add(returned, engine.waiting, named);
    assert(returned.filter(named).len() == 0) by {
        if returned.filter(named).len() > 0 {
            let k = upkeep::lemma_filter_source(returned, named, 0);
            let j = upkeep::lemma_filter_source(
                engine.running,
                model::named_in(plan.preempt),
                evicted.len() - 1 - k,
            );
            assert(returned[k].id == engine.running[j].id);
        }
    }
    assert(admitted =~= engine.waiting.filter(named));
    // The running part.
    let kept = engine.running.filter(stays);
    let running_slots = Seq::new(engine.running.len(), |i: int| Slot::Running(i));
    let waiting_slots = Seq::new(engine.waiting.len(), |i: int| Slot::Waiting(i));
    counting::lemma_sum_filter(engine.running, stays, weight);
    assert forall|i: int| 0 <= i < engine.running.len() implies counting::kept_weight(
        stays,
        weight,
    )(#[trigger] engine.running[i]) == picked(running_slots[i]) by {}
    counting::lemma_sum_zip(
        engine.running,
        running_slots,
        counting::kept_weight(stays, weight),
        picked,
    );
    // The waiting part.
    counting::lemma_sum_filter(engine.waiting, named, weight);
    assert forall|i: int| 0 <= i < engine.waiting.len() implies counting::kept_weight(
        named,
        weight,
    )(#[trigger] engine.waiting[i]) == picked(waiting_slots[i]) by {}
    counting::lemma_sum_zip(
        engine.waiting,
        waiting_slots,
        counting::kept_weight(named, weight),
        picked,
    );
    let joined = admitted.map_values(model::to_running());
    assert forall|i: int| 0 <= i < joined.len() implies weight(#[trigger] joined[i]) == weight(
        admitted[i],
    ) by {}
    counting::lemma_sum_zip(joined, admitted, weight, weight);
    counting::lemma_sum_add(kept, joined, weight);
    counting::lemma_sum_add(running_slots, waiting_slots, picked);
    assert(queues.slots() =~= running_slots + waiting_slots);
}

/// **A ranking policy plans correctly.** When ids are distinct, the plan of a
/// policy that ranks never overspends the pool.
pub proof fn law_ranked_plan_is_correct<K: Ranking>(engine: EngineView)
    requires
        roster::distinct(engine),
    ensures
        capacity::correct(
            engine,
            rank::ranked_plan::<K>(queues_of(engine), engine.pool.total()),
        ),
{
    lemma_active_footprints(
        engine,
        rank::affordable::<K>(queues_of(engine), engine.pool.total()),
    );
    lemma_affordable_fits::<K>(queues_of(engine), engine.pool.total());
}

/// **First come, first served.** If a request is active under FCFS, so is every
/// request that arrived earlier: under pressure the newest are preempted or left
/// waiting first.
pub proof fn law_fcfs_protects_the_oldest(queues: Queues, total: nat, older: Slot, newer: Slot)
    requires
        clock::instant_position(queues.at(older).arrival) < clock::instant_position(
            queues.at(newer).arrival,
        ),
        rank::affordable::<Fcfs>(queues, total)(newer),
    ensures
        rank::affordable::<Fcfs>(queues, total)(older),
{
    law_rank_decides::<Fcfs>(queues, total, older, newer);
}

/// Both places are in the running set, or both in the waiting queue.
pub open spec fn same_queue(a: Slot, b: Slot) -> bool {
    a is Running <==> b is Running
}

/// **Higher priority first.** If a request is active under the priority policy,
/// so is every request of higher priority; of the same priority, so is every
/// one that runs already if it waits, and every one in the same queue that
/// arrived earlier.
pub proof fn law_priority_protects_the_higher(
    queues: Queues,
    total: nat,
    higher: Slot,
    lower: Slot,
)
    requires
        ({
            let a = queues.at(higher);
            let b = queues.at(lower);
            ||| a.priority > b.priority
            ||| a.priority == b.priority && higher is Running && lower is Waiting
            ||| a.priority == b.priority && same_queue(higher, lower) && clock::instant_position(
                a.arrival,
            ) < clock::instant_position(b.arrival)
        }),
        rank::affordable::<Priority>(queues, total)(lower),
    ensures
        rank::affordable::<Priority>(queues, total)(higher),
{
    law_rank_decides::<Priority>(queues, total, higher, lower);
}

/// The highest-ranked of the first `n` places.
proof fn lemma_first_ranked<K: Ranking>(queues: Queues, n: int) -> (first: int)
    requires
        0 < n <= queues.slots().len(),
    ensures
        0 <= first < n,
        forall|i: int|
            0 <= i < n && i != first ==> rank::precedes::<K>(
                queues,
                queues.slots()[first],
                #[trigger] queues.slots()[i],
            ),
    decreases n,
{
    if n == 1 {
        0
    } else {
        let before = lemma_first_ranked::<K>(queues, n - 1);
        let slots = queues.slots();
        if K::key(queues, slots[before]) == K::key(queues, slots[n - 1]) {
            K::lemma_distinct(queues, slots[before], slots[n - 1]);
        }
        if rank::precedes::<K>(queues, slots[before], slots[n - 1]) {
            before
        } else {
            n - 1
        }
    }
}

/// Whoever ranks first is chosen iff it fits into the pool on its own.
proof fn lemma_first_is_affordable<K: Ranking>(queues: Queues, total: nat) -> (first: int)
    requires
        queues.slots().len() > 0,
    ensures
        0 <= first < queues.slots().len(),
        rank::affordable::<K>(queues, total)(queues.slots()[first]) <==> queues.footprint(
            queues.slots()[first],
        ) <= total,
{
    let slots = queues.slots();
    let first = lemma_first_ranked::<K>(queues, slots.len() as int);
    let weight = rank::footprints_through::<K>(queues, slots[first]);
    assert forall|j: int| 0 <= j < slots.len() && j != first implies weight(#[trigger] slots[j])
        == 0 by {
        assert(rank::precedes::<K>(queues, slots[first], slots[j]));
    }
    counting::lemma_sum_only(slots, first, weight);
    first
}

/// Whoever is chosen runs once the plan is applied.
proof fn lemma_chosen_runs(engine: EngineView, chosen: spec_fn(Slot) -> bool, slot: Slot)
    requires
        roster::distinct(engine),
        queues_of(engine).has(slot),
        chosen(slot),
    ensures
        engine.arranged(queues_of(engine).plan_for(chosen)).running.len() > 0,
{
    let plan = queues_of(engine).plan_for(chosen);
    let mid = engine.after_preempt(plan.preempt);
    let evicted = engine.evicted(plan.preempt);
    law_plan_partitions(engine, chosen);
    match slot {
        Slot::Running(i) => {
            assert(!plan.preempt.contains(engine.running[i].id));
            engine.running.lemma_filter_contains(model::not_named_in(plan.preempt), i);
            assert(mid.running.len() > 0);
        },
        Slot::Waiting(i) => {
            assert(plan.prefill.contains(engine.waiting[i].id));
            let j = evicted.len() + i;
            assert(mid.waiting[j] == engine.waiting[i]);
            mid.waiting.lemma_filter_contains(model::named_in(plan.prefill), j);
            assert(mid.admissible(plan.prefill).len() > 0);
        },
    }
}

/// Whoever is not chosen waits once the plan is applied, as long as it was.
proof fn lemma_unchosen_waits(engine: EngineView, chosen: spec_fn(Slot) -> bool, slot: Slot)
    requires
        roster::distinct(engine),
        queues_of(engine).has(slot),
        !chosen(slot),
    ensures
        ({
            let after = engine.arranged(queues_of(engine).plan_for(chosen));
            exists|k: int|
                0 <= k < after.waiting.len() && (#[trigger] after.waiting[k]).footprint()
                    == queues_of(engine).footprint(slot)
        }),
{
    let plan = queues_of(engine).plan_for(chosen);
    let mid = engine.after_preempt(plan.preempt);
    let after = engine.arranged(plan);
    let evicted = engine.evicted(plan.preempt);
    law_plan_partitions(engine, chosen);
    let j = match slot {
        Slot::Running(i) => {
            assert(plan.preempt.contains(engine.running[i].id));
            engine.running.lemma_filter_contains(model::named_in(plan.preempt), i);
            let k = choose|k: int| 0 <= k < evicted.len() && evicted[k] == engine.running[i];
            let j = evicted.len() - 1 - k;
            assert(mid.waiting[j] == model::to_preempted()(engine.running[i]));
            j
        },
        Slot::Waiting(i) => {
            let j = evicted.len() + i;
            assert(mid.waiting[j] == engine.waiting[i]);
            j
        },
    };
    assert(mid.waiting[j].footprint() == queues_of(engine).footprint(slot));
    assert(!plan.prefill.contains(mid.waiting[j].id));
    mid.waiting.lemma_filter_contains(model::not_named_in(plan.prefill), j);
    let k = choose|k: int| 0 <= k < after.waiting.len() && after.waiting[k] == mid.waiting[j];
    assert(after.waiting[k].footprint() == queues_of(engine).footprint(slot));
}

/// The smallest footprint above a bound is the footprint of a sequence, is above
/// the bound, and exists if any footprint is.
pub proof fn lemma_smallest_footprint(seqs: Seq<SeqView>, floor: int)
    ensures
        match model::smallest_footprint_above(seqs, floor) {
            Some(least) => {
                &&& least > floor
                &&& exists|i: int|
                    0 <= i < seqs.len() && (#[trigger] seqs[i]).footprint() == least
                &&& forall|i: int|
                    0 <= i < seqs.len() && (#[trigger] seqs[i]).footprint() > floor
                        ==> seqs[i].footprint() >= least
            },
            None => forall|i: int|
                0 <= i < seqs.len() ==> (#[trigger] seqs[i]).footprint() <= floor,
        },
    decreases seqs.len(),
{
    if seqs.len() > 0 {
        let rest = seqs.drop_last();
        let last = seqs.len() - 1;
        lemma_smallest_footprint(rest, floor);
        assert(seqs[last].footprint() == seqs.last().footprint());
        assert forall|i: int| 0 <= i < seqs.len() implies i == last || seqs[i] == rest[i] by {}
        if let Some(least) = model::smallest_footprint_above(rest, floor) {
            let i = choose|i: int| 0 <= i < rest.len() && (#[trigger] rest[i]).footprint() == least;
            assert(seqs[i].footprint() == least);
        }
    }
}

/// **Unschedulable means too large.** When a ranking policy leaves nothing to
/// run although requests wait, one of them needs more blocks than the whole pool
/// has, and the number reported is the smallest such need.
pub proof fn law_unschedulable_means_too_large<K: Ranking>(engine: EngineView)
    requires
        roster::distinct(engine),
        engine.arranged(
            rank::ranked_plan::<K>(queues_of(engine), engine.pool.total()),
        ).stalled(),
    ensures
        ({
            let plan = rank::ranked_plan::<K>(queues_of(engine), engine.pool.total());
            let waiting = engine.arranged(plan).waiting;
            let needed = model::unschedulable_need(waiting, engine.pool.total());
            &&& needed > engine.pool.total()
            &&& exists|i: int|
                0 <= i < waiting.len() && (#[trigger] waiting[i]).footprint() == needed
            &&& forall|i: int|
                0 <= i < waiting.len() && (#[trigger] waiting[i]).footprint()
                    > engine.pool.total() ==> waiting[i].footprint() >= needed
        }),
{
    let queues = queues_of(engine);
    let total = engine.pool.total();
    let chosen = rank::affordable::<K>(queues, total);
    let plan = queues.plan_for(chosen);
    let waiting = engine.arranged(plan).waiting;
    if queues.slots().len() == 0 {
        let mid = engine.after_preempt(plan.preempt);
        engine.running.lemma_filter_len(model::named_in(plan.preempt));
        mid.waiting.lemma_filter_len(model::not_named_in(plan.prefill));
    }
    let first = lemma_first_is_affordable::<K>(queues, total);
    let slot = queues.slots()[first];
    assert(queues.has(slot));
    if chosen(slot) {
        lemma_chosen_runs(engine, chosen, slot);
    }
    lemma_unchosen_waits(engine, chosen, slot);
    lemma_smallest_footprint(waiting, total as int);
}

/// **What fits is scheduled.** If every live request fits into the pool on its
/// own, a ranking policy always finds something to run.
pub proof fn law_fitting_requests_are_scheduled<K: Ranking>(engine: EngineView)
    requires
        roster::distinct(engine),
        !engine.idle(),
        forall|slot: Slot| #[trigger]
            queues_of(engine).has(slot) ==> queues_of(engine).footprint(slot)
                <= engine.pool.total(),
    ensures
        engine.arranged(
            rank::ranked_plan::<K>(queues_of(engine), engine.pool.total()),
        ).running.len() > 0,
{
    let queues = queues_of(engine);
    let total = engine.pool.total();
    let first = lemma_first_is_affordable::<K>(queues, total);
    let slot = queues.slots()[first];
    assert(queues.has(slot));
    lemma_chosen_runs(engine, rank::affordable::<K>(queues, total), slot);
}

} // verus!
