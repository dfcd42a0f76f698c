//! Priority scheduling with preemption.
use std::collections::VecDeque;
use vstd::prelude::*;

use super::rank::{self, plan_by_rank, RankKey, Ranking};
use super::{Candidate, PlanView, Queues, SchedulerPolicy, Slot, StepPlan};
use crate::block::{BlockAllocator, PoolView};
use crate::clock::{self, is_earlier};
use crate::sequence::{SeqView, Sequence};

verus! {

/// Admits the highest-priority sequences first and preempts the lowest-priority
/// running sequences first, so a high-priority arrival can displace a
/// lower-priority running sequence under memory pressure. Ties prefer sequences
/// already running, to limit churn, and then fall back to arrival order (FCFS).
#[derive(Debug, Default, Clone, Copy)]
pub struct Priority;

impl Ranking for Priority {
    /// Highest priority first; on a tie prefer the already-running sequence,
    /// then the oldest arrival, then the one further ahead.
    open spec fn key(queues: Queues, slot: Slot) -> RankKey {
        RankKey {
            first: -(queues.at(slot).priority as int),
            second: match slot {
                Slot::Running(_) => 0,
                Slot::Waiting(_) => 1,
            },
            third: clock::instant_position(queues.at(slot).arrival),
            fourth: match slot {
                Slot::Running(i) => i,
                Slot::Waiting(i) => i,
            },
        }
    }

    proof fn lemma_distinct(queues: Queues, a: Slot, b: Slot) {
    }

    fn is_before(
        running: &[Sequence],
        waiting: &VecDeque<Sequence>,
        a: Candidate,
        b: Candidate,
    ) -> (before: bool) {
        let (seq_a, waits_a, index_a): (&Sequence, bool, usize) = match a {
            Candidate::Running(i) => (&running[i], false, i),
            Candidate::Waiting(i) => (&waiting[i], true, i),
        };
        let (seq_b, waits_b, index_b): (&Sequence, bool, usize) = match b {
            Candidate::Running(i) => (&running[i], false, i),
            Candidate::Waiting(i) => (&waiting[i], true, i),
        };
        if seq_a.priority() != seq_b.priority() {
            return seq_a.priority() > seq_b.priority();
        }
        if waits_a != waits_b {
            return waits_b;
        }
        if is_earlier(seq_a.arrival(), seq_b.arrival()) {
            return true;
        }
        if is_earlier(seq_b.arrival(), seq_a.arrival()) {
            return false;
        }
        index_a < index_b
    }
}

impl SchedulerPolicy for Priority {
    open spec fn plans(
        pre: Self,
        waiting: Seq<SeqView>,
        running: Seq<SeqView>,
        pool: PoolView,
        plan: PlanView,
        post: Self,
    ) -> bool {
        plan == rank::ranked_plan::<Priority>((Queues { running, waiting }), pool.total())
    }

    fn plan(
        &mut self,
        waiting: &VecDeque<Sequence>,
        running: &[Sequence],
        alloc: &BlockAllocator,
    ) -> (plan: StepPlan) {
        plan_by_rank::<Priority>(running, waiting, alloc.total_blocks())
    }
}

} // verus!
