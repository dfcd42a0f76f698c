//! Scheduling policies: deciding the per-step plan under the block budget.
//!
//! A [`SchedulerPolicy`] is pure decision-making: it inspects the waiting queue,
//! the running set, and the pool size, and returns a [`StepPlan`]. It does not
//! touch the runtime, allocate blocks, or mutate sequences; the engine owns all
//! of that.
mod fcfs;
mod priority;
pub mod rank;

use std::collections::VecDeque;
use vstd::prelude::*;

pub use fcfs::Fcfs;
pub use priority::Priority;
pub use rank::{RankKey, Ranking};

use crate::block::{BlockAllocator, PoolView};
use crate::counting;
use crate::ids::SeqId;
use crate::sequence::{self, SeqView, Sequence};

verus! {

/// The work a single engine step should perform.
#[derive(Debug, Default, Clone, PartialEq, Eq)]
pub struct StepPlan {
    /// Sequences to admit and run (fresh prefill, or resume of a preempted one).
    pub prefill: Vec<SeqId>,
    /// Running sequences to advance by one token this step.
    pub decode: Vec<SeqId>,
    /// Running sequences to evict this step to reclaim their blocks.
    pub preempt: Vec<SeqId>,
}

/// The contents of a [`StepPlan`].
#[verifier::ext_equal]
pub struct PlanView {
    /// Sequences to admit.
    pub prefill: Seq<SeqId>,
    /// Running sequences to advance.
    pub decode: Seq<SeqId>,
    /// Running sequences to evict.
    pub preempt: Seq<SeqId>,
}

impl View for StepPlan {
    type V = PlanView;

    open spec fn view(&self) -> PlanView {
        PlanView { prefill: self.prefill@, decode: self.decode@, preempt: self.preempt@ }
    }
}

/// A pluggable scheduling policy.
///
/// Given the waiting queue, the running set, and the block pool, a policy
/// returns the [`StepPlan`] for the next step. Implementations must never plan
/// allocations that exceed the pool; the engine treats overspend as a bug.
///
/// An implementation says what it may plan in a relation, which every contract
/// of the engine refers to.
pub trait SchedulerPolicy: Sized {
    /// In state `pre`, shown these queues and this pool, the policy may return
    /// `plan` and be in state `post` afterwards.
    open spec fn plans(
        pre: Self,
        waiting: Seq<SeqView>,
        running: Seq<SeqView>,
        pool: PoolView,
        plan: PlanView,
        post: Self,
    ) -> bool {
        true
    }

    /// Produce the plan for the next step.
    fn plan(
        &mut self,
        waiting: &VecDeque<Sequence>,
        running: &[Sequence],
        alloc: &BlockAllocator,
    ) -> (plan: StepPlan)
        ensures
            Self::plans(
                *old(self),
                sequence::seq_views(waiting@),
                sequence::seq_views(running@),
                alloc@,
                plan@,
                *final(self),
            ),
    ;
}

/// A scheduling candidate: an index into the running set or the waiting list.
#[derive(Debug, Clone, Copy, PartialEq, Eq, Structural)]
pub enum Candidate {
    /// A sequence of the running set.
    Running(usize),
    /// A sequence of the waiting queue.
    Waiting(usize),
}

/// A place in the running set or the waiting queue.
pub enum Slot {
    /// A place in the running set.
    Running(int),
    /// A place in the waiting queue.
    Waiting(int),
}

impl View for Candidate {
    type V = Slot;

    open spec fn view(&self) -> Slot {
        match self {
            Candidate::Running(i) => Slot::Running(*i as int),
            Candidate::Waiting(i) => Slot::Waiting(*i as int),
        }
    }
}

/// The running set and the waiting queue that a plan is made for.
pub struct Queues {
    /// The running set.
    pub running: Seq<SeqView>,
    /// The waiting queue.
    pub waiting: Seq<SeqView>,
}

impl Queues {
    /// `slot` is a place in one of the queues.
    pub open spec fn has(self, slot: Slot) -> bool {
        match slot {
            Slot::Running(i) => 0 <= i < self.running.len(),
            Slot::Waiting(i) => 0 <= i < self.waiting.len(),
        }
    }

    /// The sequence at `slot`.
    pub open spec fn at(self, slot: Slot) -> SeqView {
        match slot {
            Slot::Running(i) => self.running[i],
            Slot::Waiting(i) => self.waiting[i],
        }
    }

    /// Blocks that the sequence at `slot` will hold after its next token.
    pub open spec fn footprint(self, slot: Slot) -> nat {
        self.at(slot).footprint()
    }

    /// The footprint of every place.
    pub open spec fn footprints(self) -> spec_fn(Slot) -> nat {
        |slot: Slot| self.footprint(slot)
    }

    /// All places: the running set, then the waiting queue.
    pub open spec fn slots(self) -> Seq<Slot> {
        Seq::new(self.running.len(), |i: int| Slot::Running(i)) + Seq::new(
            self.waiting.len(),
            |i: int| Slot::Waiting(i),
        )
    }

    /// Blocks that the first `n` places of `order` need together.
    pub open spec fn demand(self, order: Seq<Slot>, n: int) -> nat {
        counting::sum(order.take(n), self.footprints())
    }

    /// `slot` is in the longest prefix of `order` that fits into `total` blocks.
    pub open spec fn fits(self, order: Seq<Slot>, total: nat, slot: Slot) -> bool {
        exists|j: int|
            0 <= j < order.len() && order[j] == slot && #[trigger] self.demand(order, j + 1)
                <= total
    }

    /// The places in that prefix.
    pub open spec fn fitting(self, order: Seq<Slot>, total: nat) -> spec_fn(Slot) -> bool {
        |slot: Slot| self.fits(order, total, slot)
    }

    /// The plan that keeps exactly the `chosen` sequences active.
    pub open spec fn plan_for(self, chosen: spec_fn(Slot) -> bool) -> PlanView {
        PlanView {
            prefill: ids_where(self.waiting, at_waiting(chosen)),
            decode: ids_where(self.running, at_running(chosen)),
            preempt: ids_where(self.running, not_at_running(chosen)),
        }
    }
}

/// The places in the waiting queue that are chosen.
pub open spec fn at_waiting(chosen: spec_fn(Slot) -> bool) -> spec_fn(int) -> bool {
    |i: int| chosen(Slot::Waiting(i))
}

/// The places in the running set that are chosen.
pub open spec fn at_running(chosen: spec_fn(Slot) -> bool) -> spec_fn(int) -> bool {
    |i: int| chosen(Slot::Running(i))
}

/// The places in the running set that are not chosen.
pub open spec fn not_at_running(chosen: spec_fn(Slot) -> bool) -> spec_fn(int) -> bool {
    |i: int| !chosen(Slot::Running(i))
}

/// The queues that hold the given sequences.
pub open spec fn queues(running: Seq<Sequence>, waiting: Seq<Sequence>) -> Queues {
    Queues { running: sequence::seq_views(running), waiting: sequence::seq_views(waiting) }
}

/// Ids of the sequences whose index satisfies `keep`, in order.
pub open spec fn ids_where(seqs: Seq<SeqView>, keep: spec_fn(int) -> bool) -> Seq<SeqId>
    decreases seqs.len(),
{
    if seqs.len() == 0 {
        Seq::empty()
    } else {
        let rest = ids_where(seqs.drop_last(), keep);
        if keep(seqs.len() - 1) {
            rest.push(seqs.last().id)
        } else {
            rest
        }
    }
}

/// The places of `candidates`.
pub open spec fn slots_of(candidates: Seq<Candidate>) -> Seq<Slot> {
    candidates.map_values(|cand: Candidate| cand@)
}

/// Selection depends on whether each index of the sequences is kept, and on
/// nothing else.
pub proof fn lemma_ids_where_same(
    seqs: Seq<SeqView>,
    keep: spec_fn(int) -> bool,
    other: spec_fn(int) -> bool,
)
    requires
        forall|i: int| 0 <= i < seqs.len() ==> #[trigger] keep(i) == other(i),
    ensures
        ids_where(seqs, keep) == ids_where(seqs, other),
    decreases seqs.len(),
{
    if seqs.len() > 0 {
        lemma_ids_where_same(seqs.drop_last(), keep, other);
        assert(keep(seqs.len() - 1) == other(seqs.len() - 1));
    }
}

/// Taking more of an order never needs fewer blocks.
pub proof fn lemma_demand_grows(queues: Queues, order: Seq<Slot>, m: int, n: int)
    requires
        0 <= m <= n <= order.len(),
    ensures
        queues.demand(order, m) <= queues.demand(order, n),
{
    let weight = queues.footprints();
    assert(order.take(n) =~= order.take(m) + order.subrange(m, n));
    counting::lemma_sum_add(order.take(m), order.subrange(m, n), weight);
}

/// Counts the leading candidates of `order` whose cumulative footprint fits
/// into `total_blocks`; the first that does not fit stops the count.
fn count_fitting(
    running: &[Sequence],
    waiting: &VecDeque<Sequence>,
    order: &Vec<Candidate>,
    total_blocks: usize,
) -> (fitting: usize)
    requires
        forall|j: int|
            0 <= j < order@.len() ==> queues(running@, waiting@).has((#[trigger] order@[j])@),
    ensures
        fitting <= order@.len(),
        queues(running@, waiting@).demand(slots_of(order@), fitting as int) <= total_blocks,
        fitting < order@.len() ==> queues(running@, waiting@).demand(
            slots_of(order@),
            fitting + 1,
        ) > total_blocks,
{
    let ghost q = queues(running@, waiting@);
    let ghost slots = slots_of(order@);
    let ghost weight = q.footprints();
    let mut used: usize = 0;
    let mut next: usize = 0;
    assert(slots.take(0) =~= Seq::empty());
    while next < order.len()
        invariant
            q == queues(running@, waiting@),
            slots == slots_of(order@),
            weight == q.footprints(),
            forall|j: int| 0 <= j < order@.len() ==> q.has((#[trigger] order@[j])@),
            next <= order@.len(),
            used == q.demand(slots, next as int),
            used <= total_blocks,
        decreases order@.len() - next,
    {
        assert(q.has(order@[next as int]@));
        let footprint: usize = match order[next] {
            Candidate::Running(i) => running[i].footprint_after_next(),
            Candidate::Waiting(i) => waiting[i].footprint_after_next(),
        };
        proof {
            assert(slots.take(next + 1) =~= slots.take(next as int).push(slots[next as int]));
            counting::lemma_sum_push(slots.take(next as int), slots[next as int], weight);
        }
        if footprint > total_blocks - used {
            return next;
        }
        used = used + footprint;
        next = next + 1;
    }
    next
}

/// Collects the ids of the running sequences that are flagged, or of those that
/// are not.
fn running_ids(running: &[Sequence], flags: &Vec<bool>, wanted: bool) -> (ids: Vec<SeqId>)
    requires
        flags@.len() == running@.len(),
    ensures
        ids@ == ids_where(
            sequence::seq_views(running@),
            |i: int| flags@[i] == wanted,
        ),
{
    let ghost views = sequence::seq_views(running@);
    let ghost keep = |i: int| flags@[i] == wanted;
    let mut ids: Vec<SeqId> = Vec::new();
    let mut index: usize = 0;
    assert(views.take(0) =~= Seq::empty());
    while index < running.len()
        invariant
            views == sequence::seq_views(running@),
            keep == (|i: int| flags@[i] == wanted),
            flags@.len() == running@.len(),
            index <= running@.len(),
            ids@ == ids_where(views.take(index as int), keep),
        decreases running@.len() - index,
    {
        assert(views.take(index + 1).drop_last() =~= views.take(index as int));
        if flags[index] == wanted {
            ids.push(running[index].id());
        }
        index = index + 1;
    }
    assert(views.take(index as int) =~= views);
    ids
}

/// Collects the ids of the waiting sequences that are flagged.
fn waiting_ids(waiting: &VecDeque<Sequence>, flags: &Vec<bool>) -> (ids: Vec<SeqId>)
    requires
        flags@.len() == waiting@.len(),
    ensures
        ids@ == ids_where(sequence::seq_views(waiting@), |i: int| flags@[i]),
{
    let ghost views = sequence::seq_views(waiting@);
    let ghost keep = |i: int| flags@[i];
    let mut ids: Vec<SeqId> = Vec::new();
    let mut index: usize = 0;
    assert(views.take(0) =~= Seq::empty());
    while index < waiting.len()
        invariant
            views == sequence::seq_views(waiting@),
            keep == (|i: int| flags@[i]),
            flags@.len() == waiting@.len(),
            index <= waiting@.len(),
            ids@ == ids_where(views.take(index as int), keep),
        decreases waiting@.len() - index,
    {
        assert(views.take(index + 1).drop_last() =~= views.take(index as int));
        if flags[index] {
            ids.push(waiting[index].id());
        }
        index = index + 1;
    }
    assert(views.take(index as int) =~= views);
    ids
}

/// Select the active set greedily in `order`, packing post-step block footprints
/// into `total_blocks`, and classify the result into a [`StepPlan`].
///
/// Candidates are visited highest-value first; each is selected while the
/// cumulative footprint still fits, and the first that does not fit stops
/// selection (head-of-line). A running candidate left unselected becomes a
/// preemption, so a higher-value waiting candidate can displace a lower-value
/// running one. Because the selected footprints together fit into `total_blocks`
/// and the engine frees preempted blocks before allocating, applying the plan
/// never exceeds the pool.
pub fn select_plan(
    running: &[Sequence],
    waiting: &VecDeque<Sequence>,
    order: &Vec<Candidate>,
    total_blocks: usize,
) -> (plan: StepPlan)
    requires
        forall|j: int|
            0 <= j < order@.len() ==> queues(running@, waiting@).has((#[trigger] order@[j])@),
    ensures
        plan@ == queues(running@, waiting@).plan_for(
            queues(running@, waiting@).fitting(slots_of(order@), total_blocks as nat),
        ),
{
    let ghost q = queues(running@, waiting@);
    let ghost slots = slots_of(order@);
    let ghost chosen = q.fitting(slots, total_blocks as nat);
    let fitting: usize = count_fitting(running, waiting, order, total_blocks);
    let mut run_selected: Vec<bool> = vec![false; running.len()];
    let mut wait_selected: Vec<bool> = vec![false; waiting.len()];
    let mut next: usize = 0;
    while next < fitting
        invariant
            q == queues(running@, waiting@),
            slots == slots_of(order@),
            forall|j: int| 0 <= j < order@.len() ==> q.has((#[trigger] order@[j])@),
            next <= fitting <= order@.len(),
            run_selected@.len() == running@.len(),
            wait_selected@.len() == waiting@.len(),
            forall|i: int|
                0 <= i < running@.len() ==> (#[trigger] run_selected@[i] <==> exists|j: int|
                    0 <= j < next && #[trigger] slots[j] == Slot::Running(i)),
            forall|i: int|
                0 <= i < waiting@.len() ==> (#[trigger] wait_selected@[i] <==> exists|j: int|
                    0 <= j < next && #[trigger] slots[j] == Slot::Waiting(i)),
        decreases fitting - next,
    {
        assert(q.has(order@[next as int]@));
        assert(slots[next as int] == order@[next as int]@);
        match order[next] {
            Candidate::Running(i) => {
                run_selected[i] = true;
            },
            Candidate::Waiting(i) => {
                wait_selected[i] = true;
            },
        }
        next = next + 1;
    }
    proof {
        assert forall|slot: Slot| #[trigger] chosen(slot) <==> exists|j: int|
            0 <= j < fitting && #[trigger] slots[j] == slot by {
            if q.fits(slots, total_blocks as nat, slot) {
                let j = choose|j: int|
                    0 <= j < slots.len() && slots[j] == slot && #[trigger] q.demand(slots, j + 1)
                        <= total_blocks;
                if j >= fitting {
                    lemma_demand_grows(q, slots, fitting + 1, j + 1);
                }
                assert(slots[j] == slot);
            }
            if exists|j: int| 0 <= j < fitting && #[trigger] slots[j] == slot {
                let j = choose|j: int| 0 <= j < fitting && #[trigger] slots[j] == slot;
                lemma_demand_grows(q, slots, j + 1, fitting as int);
                assert(q.demand(slots, j + 1) <= total_blocks);
            }
        }
        assert forall|i: int| 0 <= i < running@.len() implies run_selected@[i] == chosen(
            Slot::Running(i),
        ) by {}
        lemma_ids_where_same(
            q.running,
            |i: int| run_selected@[i] == true,
            at_running(chosen),
        );
        lemma_ids_where_same(
            q.running,
            |i: int| run_selected@[i] == false,
            not_at_running(chosen),
        );
        lemma_ids_where_same(
            q.waiting,
            |i: int| wait_selected@[i],
            at_waiting(chosen),
        );
    }
    StepPlan {
        prefill: waiting_ids(waiting, &wait_selected),
        decode: running_ids(running, &run_selected, true),
        preempt: running_ids(running, &run_selected, false),
    }
}

} // verus!
