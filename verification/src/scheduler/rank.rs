//! Ranking the scheduling candidates by value.
use std::collections::VecDeque;
use vstd::prelude::*;

use super::{Candidate, Queues, Slot};
use crate::counting;
use crate::sequence::Sequence;

verus! {

/// A sort key, compared from the first number to the last.
pub struct RankKey {
    pub first: int,
    pub second: int,
    pub third: int,
    pub fourth: int,
}

impl RankKey {
    /// This key sorts before `other`.
    pub open spec fn less(self, other: RankKey) -> bool {
        if self.first != other.first {
            self.first < other.first
        } else if self.second != other.second {
            self.second < other.second
        } else if self.third != other.third {
            self.third < other.third
        } else {
            self.fourth < other.fourth
        }
    }
}

/// How a policy ranks the candidates, from the highest value to the lowest.
pub trait Ranking: Sized {
    /// The sort key of the sequence at `slot`.
    spec fn key(queues: Queues, slot: Slot) -> RankKey;

    /// No two candidates have the same key.
    proof fn lemma_distinct(queues: Queues, a: Slot, b: Slot)
        requires
            Self::key(queues, a) == Self::key(queues, b),
        ensures
            a == b,
    ;

    /// Does `a` rank before `b`?
    fn is_before(
        running: &[Sequence],
        waiting: &VecDeque<Sequence>,
        a: Candidate,
        b: Candidate,
    ) -> (before: bool)
        requires
            super::queues(running@, waiting@).has(a@),
            super::queues(running@, waiting@).has(b@),
        ensures
            before == Self::key(super::queues(running@, waiting@), a@).less(
                Self::key(super::queues(running@, waiting@), b@),
            ),
    ;
}

/// `a` ranks before `b`.
pub open spec fn precedes<K: Ranking>(queues: Queues, a: Slot, b: Slot) -> bool {
    K::key(queues, a).less(K::key(queues, b))
}

/// The footprint of `slot` and of every place that ranks before it.
pub open spec fn footprints_through<K: Ranking>(queues: Queues, slot: Slot) -> spec_fn(
    Slot,
) -> nat {
    |other: Slot|
        if other == slot || precedes::<K>(queues, other, slot) {
            queues.footprint(other)
        } else {
            0
        }
}

/// Blocks that the sequence at `slot` and all that rank before it need together.
pub open spec fn demand_through<K: Ranking>(queues: Queues, slot: Slot) -> nat {
    counting::sum(queues.slots(), footprints_through::<K>(queues, slot))
}

/// The places whose sequence fits into `total` blocks together with everything
/// that ranks before it.
pub open spec fn affordable<K: Ranking>(queues: Queues, total: nat) -> spec_fn(Slot) -> bool {
    |slot: Slot| demand_through::<K>(queues, slot) <= total
}

/// The plan of a policy that ranks by `K`: a sequence is active iff it fits into
/// the pool together with everything that ranks before it.
pub open spec fn ranked_plan<K: Ranking>(queues: Queues, total: nat) -> super::PlanView {
    queues.plan_for(affordable::<K>(queues, total))
}

/// All candidates of `order` are places in the queues.
pub open spec fn all_valid(queues: Queues, order: Seq<Candidate>) -> bool {
    forall|j: int| 0 <= j < order.len() ==> queues.has((#[trigger] order[j])@)
}

/// `order` goes from the highest rank to the lowest, without repetitions.
pub open spec fn ranked<K: Ranking>(queues: Queues, order: Seq<Candidate>) -> bool {
    forall|i: int, j: int|
        0 <= i < j < order.len() ==> precedes::<K>(
            queues,
            (#[trigger] order[i])@,
            (#[trigger] order[j])@,
        )
}

/// Merges two ranked runs.
fn merge<K: Ranking>(
    running: &[Sequence],
    waiting: &VecDeque<Sequence>,
    a: &Vec<Candidate>,
    b: &Vec<Candidate>,
) -> (merged: Vec<Candidate>)
    requires
        all_valid(super::queues(running@, waiting@), a@),
        all_valid(super::queues(running@, waiting@), b@),
        ranked::<K>(super::queues(running@, waiting@), a@),
        ranked::<K>(super::queues(running@, waiting@), b@),
        a@.disjoint(b@),
    ensures
        all_valid(super::queues(running@, waiting@), merged@),
        ranked::<K>(super::queues(running@, waiting@), merged@),
        merged@.to_multiset() == a@.to_multiset().add(b@.to_multiset()),
{
    broadcast use vstd::seq_lib::group_to_multiset_ensures;
    broadcast use vstd::multiset::group_multiset_axioms;

    let ghost q = super::queues(running@, waiting@);
    let mut merged: Vec<Candidate> = Vec::new();
    let mut i: usize = 0;
    let mut j: usize = 0;
    proof {
        assert(a@.take(0) =~= Seq::empty());
        assert(b@.take(0) =~= Seq::empty());
        assert(merged@.to_multiset() =~= a@.take(0).to_multiset().add(b@.take(0).to_multiset()));
    }
    while i < a.len() || j < b.len()
        invariant
            q == super::queues(running@, waiting@),
            all_valid(q, a@),
            all_valid(q, b@),
            ranked::<K>(q, a@),
            ranked::<K>(q, b@),
            a@.disjoint(b@),
            i <= a@.len(),
            j <= b@.len(),
            all_valid(q, merged@),
            ranked::<K>(q, merged@),
            forall|m: int, k: int|
                0 <= m < merged@.len() && i <= k < a@.len() ==> precedes::<K>(
                    q,
                    (#[trigger] merged@[m])@,
                    (#[trigger] a@[k])@,
                ),
            forall|m: int, k: int|
                0 <= m < merged@.len() && j <= k < b@.len() ==> precedes::<K>(
                    q,
                    (#[trigger] merged@[m])@,
                    (#[trigger] b@[k])@,
                ),
            merged@.to_multiset() == a@.take(i as int).to_multiset().add(
                b@.take(j as int).to_multiset(),
            ),
        decreases a@.len() - i + b@.len() - j,
    {
        let from_a: bool = if i >= a.len() {
            false
        } else if j >= b.len() {
            true
        } else {
            K::is_before(running, waiting, a[i], b[j])
        };
        proof {
            if i < a@.len() && j < b@.len() && !from_a {
                if K::key(q, a@[i as int]@) == K::key(q, b@[j as int]@) {
                    K::lemma_distinct(q, a@[i as int]@, b@[j as int]@);
                    assert(a@[i as int] == b@[j as int]);
                }
                assert(precedes::<K>(q, b@[j as int]@, a@[i as int]@));
            }
        }
        let ghost before = merged@;
        if from_a {
            proof {
                assert(a@.take(i + 1) =~= a@.take(i as int).push(a@[i as int]));
                vstd::seq_lib::to_multiset_build(a@.take(i as int), a@[i as int]);
                vstd::seq_lib::to_multiset_build(before, a@[i as int]);
            }
            merged.push(a[i]);
            i = i + 1;
        } else {
            proof {
                assert(b@.take(j + 1) =~= b@.take(j as int).push(b@[j as int]));
                vstd::seq_lib::to_multiset_build(b@.take(j as int), b@[j as int]);
                vstd::seq_lib::to_multiset_build(before, b@[j as int]);
            }
            merged.push(b[j]);
            j = j + 1;
        }
        assert(merged@.to_multiset() =~= a@.take(i as int).to_multiset().add(
            b@.take(j as int).to_multiset(),
        ));
    }
    assert(a@.take(i as int) =~= a@);
    assert(b@.take(j as int) =~= b@);
    merged
}

/// Sorts candidates from the highest rank to the lowest.
fn sort<K: Ranking>(
    running: &[Sequence],
    waiting: &VecDeque<Sequence>,
    items: Vec<Candidate>,
) -> (sorted: Vec<Candidate>)
    requires
        all_valid(super::queues(running@, waiting@), items@),
        items@.no_duplicates(),
    ensures
        all_valid(super::queues(running@, waiting@), sorted@),
        ranked::<K>(super::queues(running@, waiting@), sorted@),
        sorted@.to_multiset() == items@.to_multiset(),
    decreases items@.len(),
{
    if items.len() <= 1 {
        return items;
    }
    let ghost all = items@;
    let middle: usize = items.len() / 2;
    let mut head: Vec<Candidate> = items;
    let tail: Vec<Candidate> = head.split_off(middle);
    let ghost head_items = head@;
    let ghost tail_items = tail@;
    assert(all =~= head_items + tail_items);
    assert(all_valid(super::queues(running@, waiting@), head_items)) by {
        assert forall|j: int| 0 <= j < head_items.len() implies super::queues(
            running@,
            waiting@,
        ).has((#[trigger] head_items[j])@) by {
            assert(all[j] == head_items[j]);
        }
    }
    assert(all_valid(super::queues(running@, waiting@), tail_items)) by {
        assert forall|j: int| 0 <= j < tail_items.len() implies super::queues(
            running@,
            waiting@,
        ).has((#[trigger] tail_items[j])@) by {
            assert(all[middle + j] == tail_items[j]);
        }
    }
    let left: Vec<Candidate> = sort::<K>(running, waiting, head);
    let right: Vec<Candidate> = sort::<K>(running, waiting, tail);
    proof {
        assert forall|i: int, j: int| 0 <= i < left@.len() && 0 <= j < right@.len() implies left@[i]
            != right@[j] by {
            let item = left@[i];
            vstd::seq_lib::to_multiset_contains(left@, item);
            vstd::seq_lib::to_multiset_contains(head_items, item);
            assert(left@.contains(item));
            if right@[j] == item {
                vstd::seq_lib::to_multiset_contains(right@, item);
                vstd::seq_lib::to_multiset_contains(tail_items, item);
                assert(right@.contains(item));
                let m = choose|m: int| 0 <= m < head_items.len() && head_items[m] == item;
                let n = choose|n: int| 0 <= n < tail_items.len() && tail_items[n] == item;
                assert(all[m] == all[middle + n]);
            }
        }
        vstd::seq_lib::lemma_multiset_commutative(head_items, tail_items);
    }
    merge::<K>(running, waiting, &left, &right)
}

/// Lists every candidate: the running set, then the waiting queue.
fn list_candidates(running: &[Sequence], waiting: &VecDeque<Sequence>) -> (items: Vec<Candidate>)
    ensures
        all_valid(super::queues(running@, waiting@), items@),
        items@.no_duplicates(),
        super::slots_of(items@) == super::queues(running@, waiting@).slots(),
{
    let ghost slots = super::queues(running@, waiting@).slots();
    let mut items: Vec<Candidate> = Vec::new();
    let mut index: usize = 0;
    while index < running.len()
        invariant
            index <= running@.len(),
            items@.len() == index,
            forall|i: int| 0 <= i < index ==> #[trigger] items@[i] == Candidate::Running(i as usize),
        decreases running@.len() - index,
    {
        items.push(Candidate::Running(index));
        index = index + 1;
    }
    index = 0;
    while index < waiting.len()
        invariant
            index <= waiting@.len(),
            items@.len() == running@.len() + index,
            forall|i: int|
                0 <= i < running@.len() ==> #[trigger] items@[i] == Candidate::Running(i as usize),
            forall|i: int|
                running@.len() <= i < items@.len() ==> #[trigger] items@[i] == Candidate::Waiting(
                    (i - running@.len()) as usize,
                ),
            running@.len() <= usize::MAX,
        decreases waiting@.len() - index,
    {
        items.push(Candidate::Waiting(index));
        index = index + 1;
    }
    assert(super::slots_of(items@) =~= slots);
    items
}

/// In a ranked order, the demand of a prefix is the demand of its last candidate
/// and everything that ranks before it.
proof fn lemma_ranked_demand<K: Ranking>(
    queues: Queues,
    listed: Seq<Candidate>,
    order: Seq<Candidate>,
    j: int,
)
    requires
        super::slots_of(listed) == queues.slots(),
        order.to_multiset() == listed.to_multiset(),
        ranked::<K>(queues, order),
        0 <= j < order.len(),
    ensures
        queues.demand(super::slots_of(order), j + 1) == demand_through::<K>(queues, order[j]@),
{
    let slot = order[j]@;
    let slots = super::slots_of(order);
    let image = |cand: Candidate| cand@;
    let footprint = queues.footprints();
    let weight = footprints_through::<K>(queues, slot);
    let head = slots.take(j + 1);
    let rest = slots.skip(j + 1);
    counting::lemma_sum_permuted(order, listed, |cand: Candidate| weight(image(cand)));
    counting::lemma_sum_map(order, image, weight);
    counting::lemma_sum_map(listed, image, weight);
    assert(slots =~= order.map_values(image));
    assert(queues.slots() =~= listed.map_values(image));
    assert(counting::sum(slots, weight) == counting::sum(queues.slots(), weight));
    assert(slots =~= head + rest);
    counting::lemma_sum_add(head, rest, weight);
    assert forall|i: int| 0 <= i < head.len() implies footprint(#[trigger] head[i]) == weight(
        head[i],
    ) by {
        assert(head[i] == order[i]@);
    }
    counting::lemma_sum_same(head, footprint, weight);
    assert forall|i: int| 0 <= i < rest.len() implies weight(#[trigger] rest[i]) == 0 by {
        assert(rest[i] == order[j + 1 + i]@);
        assert(precedes::<K>(queues, order[j]@, order[j + 1 + i]@));
    }
    counting::lemma_sum_nothing(rest, weight);
}

/// Plans a step by ranking all candidates and packing them into the pool.
pub(crate) fn plan_by_rank<K: Ranking>(
    running: &[Sequence],
    waiting: &VecDeque<Sequence>,
    total_blocks: usize,
) -> (plan: super::StepPlan)
    ensures
        plan@ == ranked_plan::<K>(super::queues(running@, waiting@), total_blocks as nat),
{
    let ghost q = super::queues(running@, waiting@);
    let listed: Vec<Candidate> = list_candidates(running, waiting);
    let ghost listed_items = listed@;
    let order: Vec<Candidate> = sort::<K>(running, waiting, listed);
    proof {
        let slots = super::slots_of(order@);
        let total = total_blocks as nat;
        assert forall|slot: Slot| #[trigger] q.has(slot) implies q.fits(slots, total, slot) == (
        demand_through::<K>(q, slot) <= total) by {
            let k = match slot {
                Slot::Running(i) => i,
                Slot::Waiting(i) => q.running.len() + i,
            };
            assert(q.slots()[k] == slot);
            assert(super::slots_of(listed_items).len() == q.slots().len());
            assert(super::slots_of(listed_items)[k] == slot);
            let cand = listed_items[k];
            vstd::seq_lib::to_multiset_contains(listed_items, cand);
            vstd::seq_lib::to_multiset_contains(order@, cand);
            assert(listed_items.contains(cand));
            let j = choose|j: int| 0 <= j < order@.len() && order@[j] == cand;
            assert(slots[j] == slot);
            lemma_ranked_demand::<K>(q, listed_items, order@, j);
            if q.fits(slots, total, slot) {
                let m = choose|m: int|
                    0 <= m < slots.len() && slots[m] == slot && #[trigger] q.demand(slots, m + 1)
                        <= total;
                lemma_ranked_demand::<K>(q, listed_items, order@, m);
            }
        }
        let fits = q.fitting(slots, total);
        let chosen = affordable::<K>(q, total);
        assert forall|i: int| 0 <= i < q.running.len() implies fits(Slot::Running(i)) == chosen(
            Slot::Running(i),
        ) by {
            assert(q.has(Slot::Running(i)));
        }
        assert forall|i: int| 0 <= i < q.waiting.len() implies fits(Slot::Waiting(i)) == chosen(
            Slot::Waiting(i),
        ) by {
            assert(q.has(Slot::Waiting(i)));
        }
        super::lemma_ids_where_same(
            q.running,
            super::at_running(fits),
            super::at_running(chosen),
        );
        super::lemma_ids_where_same(
            q.running,
            super::not_at_running(fits),
            super::not_at_running(chosen),
        );
        super::lemma_ids_where_same(
            q.waiting,
            super::at_waiting(fits),
            super::at_waiting(chosen),
        );
    }
    super::select_plan(running, waiting, &order, total_blocks)
}

} // verus!
