//! How the policies fill the pool.
//!
//! The live requests are numbered: the running set first, then the waiting
//! queue. A ranking says for any two numbers which request goes ahead.
use vstd::prelude::*;

use super::service;
use crate::block::{self, PoolView};
use crate::clock::instant_position;
use crate::counting;
use crate::ids::SeqId;
use crate::scheduler::rank::{self, Ranking};
use crate::scheduler::{self, Candidate, Fcfs, PlanView, Priority, Queues, SchedulerPolicy, Slot};
use crate::sequence::SeqView;

verus! {

/// Blocks that a request needs for its tokens and the next one.
pub open spec fn need(seq: SeqView) -> nat {
    (seq.prompt.len() + seq.output.len()) / block::BLOCK_SIZE as nat + 1
}

/// The numbers below `n`, in order.
pub open spec fn numbers(n: nat) -> Seq<int> {
    Seq::new(n, |i: int| i)
}

/// What request `other` needs, if it is request `number` or goes ahead of it.
pub open spec fn need_up_to(
    live: Seq<SeqView>,
    ahead: spec_fn(int, int) -> bool,
    number: int,
) -> spec_fn(int) -> nat {
    |other: int|
        if other == number || ahead(other, number) {
            need(live[other])
        } else {
            0
        }
}

/// Blocks that request `number` and all that go ahead of it need together.
pub open spec fn due(live: Seq<SeqView>, ahead: spec_fn(int, int) -> bool, number: int) -> nat {
    counting::sum(numbers(live.len()), need_up_to(live, ahead, number))
}

/// Blocks that all requests need together.
pub open spec fn all_due(live: Seq<SeqView>) -> nat {
    counting::sum(live, |seq: SeqView| need(seq))
}

/// The ids of those of `seqs` whose place satisfies `keep`, in order.
pub open spec fn ids_at(seqs: Seq<SeqView>, keep: spec_fn(int) -> bool) -> Seq<SeqId> {
    numbers(seqs.len()).filter(keep).map_values(|i: int| seqs[i].id)
}

/// The ids of `seqs`, in order.
pub open spec fn all_ids(seqs: Seq<SeqView>) -> Seq<SeqId> {
    Seq::new(seqs.len(), |i: int| seqs[i].id)
}

/// `plan` runs exactly those requests that fit into `total` blocks together with
/// all that go ahead of them: it admits those of the waiting queue, decodes
/// those of the running set and preempts the rest of the running set, each list
/// in the order of its queue.
pub open spec fn fills(
    running: Seq<SeqView>,
    waiting: Seq<SeqView>,
    total: nat,
    ahead: spec_fn(int, int) -> bool,
    plan: PlanView,
) -> bool {
    let live = running + waiting;
    let n = running.len();
    &&& plan.prefill == ids_at(waiting, |i: int| due(live, ahead, n + i) <= total)
    &&& plan.decode == ids_at(running, |i: int| due(live, ahead, i) <= total)
    &&& plan.preempt == ids_at(running, |i: int| due(live, ahead, i) > total)
}

/// First come, first served: the earlier arrival goes ahead, and of requests that
/// arrived together the one with the lower number.
pub open spec fn fcfs_order(running: Seq<SeqView>, waiting: Seq<SeqView>) -> spec_fn(
    int,
    int,
) -> bool {
    |a: int, b: int|
        {
            let live = running + waiting;
            let (x, y) = (instant_position(live[a].arrival), instant_position(live[b].arrival));
            x < y || x == y && a < b
        }
}

/// The higher priority goes ahead; of equal priorities a running request goes
/// ahead of a waiting one, then the earlier arrival, then the lower number.
pub open spec fn priority_order(running: Seq<SeqView>, waiting: Seq<SeqView>) -> spec_fn(
    int,
    int,
) -> bool {
    |a: int, b: int|
        {
            let live = running + waiting;
            let n = running.len();
            let (x, y) = (instant_position(live[a].arrival), instant_position(live[b].arrival));
            ||| live[a].priority > live[b].priority
            ||| live[a].priority == live[b].priority && a < n <= b
            ||| live[a].priority == live[b].priority && (a < n <==> b < n) && (x < y || x == y && a
                < b)
        }
}

/// The number of a place in the queues.
spec fn number_of(queues: Queues, slot: Slot) -> int {
    match slot {
        Slot::Running(i) => i,
        Slot::Waiting(i) => queues.running.len() + i,
    }
}

/// Footprints are needs.
pub proof fn lemma_footprint(seq: SeqView)
    ensures
        seq.footprint() == need(seq),
{
    let size = block::BLOCK_SIZE as nat;
    let len = seq.len();
    assert((len + 1 + size - 1) as nat / size == len / size + 1) by (nonlinear_arith)
        requires
            size == 16,
    ;
}

/// Selecting by place is listing the ids at those places.
proof fn lemma_ids_at(seqs: Seq<SeqView>, keep: spec_fn(int) -> bool)
    ensures
        scheduler::ids_where(seqs, keep) == ids_at(seqs, keep),
    decreases seqs.len(),
{
    reveal(Seq::filter);
    let all = numbers(seqs.len());
    let id_at = |i: int| seqs[i].id;
    if seqs.len() == 0 {
        assert(ids_at(seqs, keep) =~= Seq::empty());
    } else {
        let rest = seqs.drop_last();
        let last = seqs.len() - 1;
        lemma_ids_at(rest, keep);
        assert(all.drop_last() =~= numbers(rest.len()));
        assert(all.last() == last);
        let kept = numbers(rest.len()).filter(keep);
        assert forall|k: int| 0 <= k < kept.len() implies 0 <= #[trigger] kept[k] < last by {
            let j = crate::engine::upkeep::lemma_filter_source(numbers(rest.len()), keep, k);
        }
        assert(ids_at(rest, keep) =~= kept.map_values(id_at));
        assert(ids_at(seqs, keep) =~= if keep(last) {
            ids_at(rest, keep).push(seqs.last().id)
        } else {
            ids_at(rest, keep)
        });
    }
}

/// Listing by place depends on the places that exist only.
proof fn lemma_ids_at_same(
    seqs: Seq<SeqView>,
    keep: spec_fn(int) -> bool,
    other: spec_fn(int) -> bool,
)
    requires
        forall|i: int| 0 <= i < seqs.len() ==> #[trigger] keep(i) == other(i),
    ensures
        ids_at(seqs, keep) == ids_at(seqs, other),
{
    lemma_ids_at(seqs, keep);
    lemma_ids_at(seqs, other);
    scheduler::lemma_ids_where_same(seqs, keep, other);
}

/// A place is listed iff its id is.
proof fn lemma_ids_at_contains(seqs: Seq<SeqView>, keep: spec_fn(int) -> bool, i: int)
    requires
        0 <= i < seqs.len(),
        keep(i),
    ensures
        ids_at(seqs, keep).contains(seqs[i].id),
{
    lemma_ids_at(seqs, keep);
    super::plans::lemma_ids_where_contains(seqs, keep, seqs[i].id);
}

/// Choosing places and listing them.
proof fn lemma_plan_lists(
    queues: Queues,
    chosen: spec_fn(Slot) -> bool,
    keep: spec_fn(int) -> bool,
)
    requires
        forall|slot: Slot| #[trigger]
            queues.has(slot) ==> chosen(slot) == keep(number_of(queues, slot)),
    ensures
        ({
            let plan = queues.plan_for(chosen);
            &&& plan.prefill == ids_at(queues.waiting, |i: int| keep(queues.running.len() + i))
            &&& plan.decode == ids_at(queues.running, |i: int| keep(i))
            &&& plan.preempt == ids_at(queues.running, |i: int| !keep(i))
        }),
{
    lemma_ids_at(queues.waiting, scheduler::at_waiting(chosen));
    lemma_ids_at(queues.running, scheduler::at_running(chosen));
    lemma_ids_at(queues.running, scheduler::not_at_running(chosen));
    assert forall|i: int| 0 <= i < queues.running.len() implies chosen(Slot::Running(i)) == keep(
        i,
    ) by {
        assert(queues.has(Slot::Running(i)));
    }
    assert forall|i: int| 0 <= i < queues.waiting.len() implies chosen(Slot::Waiting(i)) == keep(
        queues.running.len() + i,
    ) by {
        assert(queues.has(Slot::Waiting(i)));
    }
    lemma_ids_at_same(
        queues.waiting,
        scheduler::at_waiting(chosen),
        |i: int| keep(queues.running.len() + i),
    );
    lemma_ids_at_same(queues.running, scheduler::at_running(chosen), |i: int| keep(i));
    lemma_ids_at_same(queues.running, scheduler::not_at_running(chosen), |i: int| !keep(i));
}

/// What a place and all that rank before it need is what is due up to its number.
proof fn lemma_due<K: Ranking>(queues: Queues, ahead: spec_fn(int, int) -> bool, slot: Slot)
    requires
        queues.has(slot),
        forall|a: Slot, b: Slot| #[trigger]
            rank::precedes::<K>(queues, a, b) == ahead(number_of(queues, a), number_of(queues, b))
            || !queues.has(a) || !queues.has(b),
    ensures
        rank::demand_through::<K>(queues, slot) == due(
            queues.running + queues.waiting,
            ahead,
            number_of(queues, slot),
        ),
{
    let live = queues.running + queues.waiting;
    let number = number_of(queues, slot);
    let slots = queues.slots();
    let f = rank::footprints_through::<K>(queues, slot);
    let g = need_up_to(live, ahead, number);
    assert forall|i: int| 0 <= i < slots.len() implies f(#[trigger] slots[i]) == g(
        numbers(live.len())[i],
    ) by {
        let other = slots[i];
        assert(queues.has(other));
        assert(number_of(queues, other) == i);
        assert(queues.at(other) == live[i]);
        lemma_footprint(live[i]);
        if i == number {
            assert(other == slot);
        }
        assert(rank::precedes::<K>(queues, other, slot) == ahead(i, number));
    }
    counting::lemma_sum_zip(slots, numbers(live.len()), f, g);
}

/// A policy that ranks fills the pool in the order of its ranking.
proof fn lemma_ranked_plan_fills<K: Ranking>(
    queues: Queues,
    total: nat,
    ahead: spec_fn(int, int) -> bool,
)
    requires
        forall|a: Slot, b: Slot| #[trigger]
            rank::precedes::<K>(queues, a, b) == ahead(number_of(queues, a), number_of(queues, b))
            || !queues.has(a) || !queues.has(b),
    ensures
        fills(
            queues.running,
            queues.waiting,
            total,
            ahead,
            rank::ranked_plan::<K>(queues, total),
        ),
{
    let live = queues.running + queues.waiting;
    let n = queues.running.len();
    let chosen = rank::affordable::<K>(queues, total);
    let keep = |i: int| due(live, ahead, i) <= total;
    assert forall|slot: Slot| #[trigger] queues.has(slot) implies chosen(slot) == keep(
        number_of(queues, slot),
    ) by {
        lemma_due::<K>(queues, ahead, slot);
    }
    lemma_plan_lists(queues, chosen, keep);
    lemma_ids_at_same(
        queues.waiting,
        |i: int| keep(n + i),
        |i: int| due(live, ahead, n + i) <= total,
    );
    lemma_ids_at_same(
        queues.running,
        |i: int| keep(i),
        |i: int| due(live, ahead, i) <= total,
    );
    lemma_ids_at_same(
        queues.running,
        |i: int| !keep(i),
        |i: int| due(live, ahead, i) > total,
    );
}

/// The place with the given number.
pub open spec fn place(running: Seq<SeqView>, number: int) -> Slot {
    if number < running.len() {
        Slot::Running(number)
    } else {
        Slot::Waiting(number - running.len())
    }
}

/// The order of the ranking `K`: the smaller key goes ahead.
pub open spec fn rank_order<K: Ranking>(running: Seq<SeqView>, waiting: Seq<SeqView>) -> spec_fn(
    int,
    int,
) -> bool {
    |a: int, b: int|
        {
            let queues = Queues { running, waiting };
            K::key(queues, place(running, a)).less(K::key(queues, place(running, b)))
        }
}

/// **A policy that ranks fills the pool in the order of its ranking.** Its plan runs
/// a request iff the request fits into the pool together with all that go ahead
/// of it.
pub proof fn law_ranking_policy_fills_the_pool<P: SchedulerPolicy, K: Ranking>(
    pre: P,
    waiting: Seq<SeqView>,
    running: Seq<SeqView>,
    pool: PoolView,
    plan: PlanView,
    post: P,
)
    requires
        service::ranks_by::<P, K>(),
        P::plans(pre, waiting, running, pool, plan, post),
    ensures
        fills(running, waiting, pool.refs.len(), rank_order::<K>(running, waiting), plan),
{
    let queues = Queues { running, waiting };
    let ahead = rank_order::<K>(running, waiting);
    assert forall|a: Slot, b: Slot| #[trigger]
        rank::precedes::<K>(queues, a, b) == ahead(number_of(queues, a), number_of(queues, b))
        || !queues.has(a) || !queues.has(b) by {
        if queues.has(a) && queues.has(b) {
            assert(place(running, number_of(queues, a)) == a);
            assert(place(running, number_of(queues, b)) == b);
        }
    }
    lemma_ranked_plan_fills::<K>(queues, pool.total(), ahead);
}

/// **FCFS fills the pool in order of arrival.** Its plan runs a request iff the
/// request fits into the pool together with all that go ahead of it.
pub proof fn law_fcfs_fills_the_pool(
    pre: Fcfs,
    waiting: Seq<SeqView>,
    running: Seq<SeqView>,
    pool: PoolView,
    plan: PlanView,
    post: Fcfs,
)
    requires
        Fcfs::plans(pre, waiting, running, pool, plan, post),
    ensures
        fills(running, waiting, pool.refs.len(), fcfs_order(running, waiting), plan),
{
    let queues = Queues { running, waiting };
    let ahead = fcfs_order(running, waiting);
    assert forall|a: Slot, b: Slot| #[trigger]
        rank::precedes::<Fcfs>(queues, a, b) == ahead(number_of(queues, a), number_of(queues, b))
        || !queues.has(a) || !queues.has(b) by {
        let live = running + waiting;
        if queues.has(a) && queues.has(b) {
            assert(queues.at(a) == live[number_of(queues, a)]);
            assert(queues.at(b) == live[number_of(queues, b)]);
        }
    }
    lemma_ranked_plan_fills::<Fcfs>(queues, pool.total(), ahead);
}

/// **The priority policy fills the pool in order of priority.** Its plan runs a
/// request iff the request fits into the pool together with all that go ahead of
/// it.
pub proof fn law_priority_fills_the_pool(
    pre: Priority,
    waiting: Seq<SeqView>,
    running: Seq<SeqView>,
    pool: PoolView,
    plan: PlanView,
    post: Priority,
)
    requires
        Priority::plans(pre, waiting, running, pool, plan, post),
    ensures
        fills(running, waiting, pool.refs.len(), priority_order(running, waiting), plan),
{
    let queues = Queues { running, waiting };
    let ahead = priority_order(running, waiting);
    assert forall|a: Slot, b: Slot| #[trigger]
        rank::precedes::<Priority>(queues, a, b) == ahead(
            number_of(queues, a),
            number_of(queues, b),
        ) || !queues.has(a) || !queues.has(b) by {
        let live = running + waiting;
        if queues.has(a) && queues.has(b) {
            assert(queues.at(a) == live[number_of(queues, a)]);
            assert(queues.at(b) == live[number_of(queues, b)]);
        }
    }
    lemma_ranked_plan_fills::<Priority>(queues, pool.total(), ahead);
}

/// **No room is left unused.** A plan that fills the pool leaves a request
/// waiting, or does not decode a running one, only if the request and all that
/// go ahead of it need more blocks than the whole pool has.
pub proof fn law_no_room_is_left_unused(
    running: Seq<SeqView>,
    waiting: Seq<SeqView>,
    total: nat,
    ahead: spec_fn(int, int) -> bool,
    plan: PlanView,
)
    requires
        fills(running, waiting, total, ahead, plan),
    ensures
        forall|i: int|
            0 <= i < waiting.len() && !plan.prefill.contains((#[trigger] waiting[i]).id) ==> due(
                running + waiting,
                ahead,
                running.len() + i,
            ) > total,
        forall|i: int|
            0 <= i < running.len() && !plan.decode.contains((#[trigger] running[i]).id) ==> due(
                running + waiting,
                ahead,
                i,
            ) > total,
{
    let live = running + waiting;
    let n = running.len();
    assert forall|i: int|
        0 <= i < waiting.len() && !plan.prefill.contains((#[trigger] waiting[i]).id) implies due(
        live,
        ahead,
        n + i,
    ) > total by {
        let keep = |j: int| due(live, ahead, n + j) <= total;
        if keep(i) {
            lemma_ids_at_contains(waiting, keep, i);
        }
    }
    assert forall|i: int|
        0 <= i < running.len() && !plan.decode.contains((#[trigger] running[i]).id) implies due(
        live,
        ahead,
        i,
    ) > total by {
        let keep = |j: int| due(live, ahead, j) <= total;
        if keep(i) {
            lemma_ids_at_contains(running, keep, i);
        }
    }
}

/// Listing every place lists everybody.
proof fn lemma_everybody_listed(seqs: Seq<SeqView>, keep: spec_fn(int) -> bool, all: bool)
    requires
        forall|i: int| 0 <= i < seqs.len() ==> #[trigger] keep(i) == all,
    ensures
        ids_at(seqs, keep) == if all {
            all_ids(seqs)
        } else {
            Seq::empty()
        },
    decreases seqs.len(),
{
    lemma_ids_at(seqs, keep);
    if seqs.len() > 0 {
        lemma_everybody_listed(seqs.drop_last(), keep, all);
        lemma_ids_at(seqs.drop_last(), keep);
        assert(keep(seqs.len() - 1) == all);
        assert(all_ids(seqs) =~= all_ids(seqs.drop_last()).push(seqs.last().id));
    } else {
        assert(all_ids(seqs) =~= Seq::empty());
    }
}

/// What is due up to one request is at most what all need.
proof fn lemma_due_within(live: Seq<SeqView>, ahead: spec_fn(int, int) -> bool, number: int)
    ensures
        due(live, ahead, number) <= all_due(live),
{
    let weight = |i: int| need(live[i]);
    counting::lemma_sum_le(numbers(live.len()), need_up_to(live, ahead, number), weight);
    counting::lemma_sum_zip(numbers(live.len()), live, weight, |seq: SeqView| need(seq));
}

/// **What fits runs.** If all requests together fit into the pool, a plan that
/// fills it admits every waiting request, decodes every running one and preempts
/// none.
pub proof fn law_everything_that_fits_runs(
    running: Seq<SeqView>,
    waiting: Seq<SeqView>,
    total: nat,
    ahead: spec_fn(int, int) -> bool,
    plan: PlanView,
)
    requires
        fills(running, waiting, total, ahead, plan),
        all_due(running + waiting) <= total,
    ensures
        plan.prefill == all_ids(waiting),
        plan.decode == all_ids(running),
        plan.preempt.len() == 0,
{
    let live = running + waiting;
    let n = running.len();
    assert forall|i: int| due(live, ahead, i) <= total by {
        lemma_due_within(live, ahead, i);
    }
    lemma_everybody_listed(waiting, |i: int| due(live, ahead, n + i) <= total, true);
    lemma_everybody_listed(running, |i: int| due(live, ahead, i) <= total, true);
    lemma_everybody_listed(running, |i: int| due(live, ahead, i) > total, false);
}

/// The request that a candidate names.
pub open spec fn named_by(
    running: Seq<SeqView>,
    waiting: Seq<SeqView>,
    candidate: Candidate,
) -> SeqView {
    match candidate {
        Candidate::Running(i) => running[i as int],
        Candidate::Waiting(i) => waiting[i as int],
    }
}

/// The first `n` candidates of `order` need at most `total` blocks together, and
/// `candidate` is one of them.
pub open spec fn packed(
    running: Seq<SeqView>,
    waiting: Seq<SeqView>,
    order: Seq<Candidate>,
    total: nat,
    n: nat,
    candidate: Candidate,
) -> bool {
    &&& n <= order.len()
    &&& counting::sum(
        order.take(n as int),
        |c: Candidate| need(named_by(running, waiting, c)),
    ) <= total
    &&& order.take(n as int).contains(candidate)
}

/// `candidate` is among the first candidates of `order` that fit into `total`
/// blocks together.
pub open spec fn selected(
    running: Seq<SeqView>,
    waiting: Seq<SeqView>,
    order: Seq<Candidate>,
    total: nat,
    candidate: Candidate,
) -> bool {
    exists|n: nat| #[trigger] packed(running, waiting, order, total, n, candidate)
}

/// The demand of the first places of an order is what its candidates need.
proof fn lemma_demand(queues: Queues, order: Seq<Candidate>, n: int)
    requires
        0 <= n <= order.len(),
    ensures
        queues.demand(scheduler::slots_of(order), n) == counting::sum(
            order.take(n),
            |c: Candidate| need(named_by(queues.running, queues.waiting, c)),
        ),
{
    let slots = scheduler::slots_of(order).take(n);
    let weight = |c: Candidate| need(named_by(queues.running, queues.waiting, c));
    assert forall|i: int| 0 <= i < slots.len() implies queues.footprints()(#[trigger] slots[i])
        == weight(order.take(n)[i]) by {
        lemma_footprint(queues.at(slots[i]));
    }
    counting::lemma_sum_zip(slots, order.take(n), queues.footprints(), weight);
}

/// **Selection stops at the first that does not fit.** The plan selected from an
/// order of candidates runs exactly those that are among the first candidates
/// which fit into the pool together, each list in the order of its queue.
pub proof fn law_selection_packs_in_order(queues: Queues, order: Seq<Candidate>, total: nat)
    requires
        queues.running.len() <= usize::MAX,
        queues.waiting.len() <= usize::MAX,
    ensures
        ({
            let plan = queues.plan_for(queues.fitting(scheduler::slots_of(order), total));
            let (running, waiting) = (queues.running, queues.waiting);
            &&& plan.prefill == ids_at(
                waiting,
                |i: int| selected(running, waiting, order, total, Candidate::Waiting(i as usize)),
            )
            &&& plan.decode == ids_at(
                running,
                |i: int| selected(running, waiting, order, total, Candidate::Running(i as usize)),
            )
            &&& plan.preempt == ids_at(
                running,
                |i: int| !selected(running, waiting, order, total, Candidate::Running(i as usize)),
            )
        }),
{
    let (running, waiting) = (queues.running, queues.waiting);
    let slots = scheduler::slots_of(order);
    let chosen = queues.fitting(slots, total);
    let candidate_at = |slot: Slot|
        match slot {
            Slot::Running(i) => Candidate::Running(i as usize),
            Slot::Waiting(i) => Candidate::Waiting(i as usize),
        };
    assert forall|slot: Slot| #[trigger] queues.has(slot) implies chosen(slot) == selected(
        running,
        waiting,
        order,
        total,
        candidate_at(slot),
    ) by {
        let candidate = candidate_at(slot);
        assert(candidate@ == slot);
        if queues.fits(slots, total, slot) {
            let j = choose|j: int|
                0 <= j < slots.len() && slots[j] == slot && #[trigger] queues.demand(slots, j + 1)
                    <= total;
            lemma_demand(queues, order, j + 1);
            assert(order[j]@ == slot);
            assert(order[j] == candidate);
            assert(order.take(j + 1)[j] == candidate);
            assert(packed(running, waiting, order, total, (j + 1) as nat, candidate));
        }
        if selected(running, waiting, order, total, candidate) {
            let n = choose|n: nat| #[trigger]
                packed(running, waiting, order, total, n, candidate);
            let j = choose|j: int| 0 <= j < n && order.take(n as int)[j] == candidate;
            lemma_demand(queues, order, n as int);
            scheduler::lemma_demand_grows(queues, slots, j + 1, n as int);
            assert(slots[j] == slot);
            assert(queues.demand(slots, j + 1) <= total);
        }
    }
    assert forall|i: int| 0 <= i < running.len() implies chosen(Slot::Running(i)) == selected(
        running,
        waiting,
        order,
        total,
        Candidate::Running(i as usize),
    ) by {
        assert(queues.has(Slot::Running(i)));
    }
    assert forall|i: int| 0 <= i < waiting.len() implies chosen(Slot::Waiting(i)) == selected(
        running,
        waiting,
        order,
        total,
        Candidate::Waiting(i as usize),
    ) by {
        assert(queues.has(Slot::Waiting(i)));
    }
    lemma_ids_at(waiting, scheduler::at_waiting(chosen));
    lemma_ids_at(running, scheduler::at_running(chosen));
    lemma_ids_at(running, scheduler::not_at_running(chosen));
    lemma_ids_at_same(
        waiting,
        scheduler::at_waiting(chosen),
        |i: int| selected(running, waiting, order, total, Candidate::Waiting(i as usize)),
    );
    lemma_ids_at_same(
        running,
        scheduler::at_running(chosen),
        |i: int| selected(running, waiting, order, total, Candidate::Running(i as usize)),
    );
    lemma_ids_at_same(
        running,
        scheduler::not_at_running(chosen),
        |i: int| !selected(running, waiting, order, total, Candidate::Running(i as usize)),
    );
}

} // verus!
