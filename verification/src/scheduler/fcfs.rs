//! First-come, first-served scheduling.
use std::collections::VecDeque;
use vstd::prelude::*;

use super::rank::{self, plan_by_rank, RankKey, Ranking};
use super::{Candidate, PlanView, Queues, SchedulerPolicy, Slot, StepPlan};
use crate::block::{BlockAllocator, PoolView};
use crate::clock::{self, is_earlier};
use crate::sequence::{SeqView, Sequence};

verus! {

/// Admits and retains sequences in arrival order. Under memory pressure the
/// newest (latest-arrived) running sequences are preempted first, so the oldest
/// requests are protected and the queue drains in order. Admission stops at the
/// first request that does not fit (head-of-line blocking).
#[derive(Debug, Default, Clone, Copy)]
pub struct Fcfs;

impl Ranking for Fcfs {
    /// Oldest arrival first; on a tie prefer the already-running sequence, then
    /// the one further ahead.
    open spec fn key(queues: Queues, slot: Slot) -> RankKey {
        RankKey {
            first: clock::instant_position(queues.at(slot).arrival),
            second: match slot {
                Slot::Running(_) => 0,
                Slot::Waiting(_) => 1,
            },
            third: match slot {
                Slot::Running(i) => i,
                Slot::Waiting(i) => i,
            },
            fourth: 0,
        }
    }

    proof fn lemma_distinct(queues: Queues, a: Slot, b: Slot) {
    }

    fn is_before(
        running: &[Sequence],
        waiting: &VecDeque<Sequence>,
        a: Candidate,
        b: Candidate,
    ) -> (before: bool) {
        let arrival_a = match a {
            Candidate::Running(i) => running[i].arrival(),
            Candidate::Waiting(i) => waiting[i].arrival(),
        };
        let arrival_b = match b {
            Candidate::Running(i) => running[i].arrival(),
            Candidate::Waiting(i) => waiting[i].arrival(),
        };
        if is_earlier(arrival_a, arrival_b) {
            return true;
        }
        if is_earlier(arrival_b, arrival_a) {
            return false;
        }
        match (a, b) {
            (Candidate::Running(i), Candidate::Running(j)) => i < j,
            (Candidate::Running(_), Candidate::Waiting(_)) => true,
            (Candidate::Waiting(_), Candidate::Running(_)) => false,
            (Candidate::Waiting(i), Candidate::Waiting(j)) => i < j,
        }
    }
}

impl SchedulerPolicy for Fcfs {
    open spec fn plans(
        pre: Self,
        waiting: Seq<SeqView>,
        running: Seq<SeqView>,
        pool: PoolView,
        plan: PlanView,
        post: Self,
    ) -> bool {
        plan == rank::ranked_plan::<Fcfs>((Queues { running, waiting }), pool.total())
    }

    fn plan(
        &mut self,
        waiting: &VecDeque<Sequence>,
        running: &[Sequence],
        alloc: &BlockAllocator,
    ) -> (plan: StepPlan) {
        plan_by_rank::<Fcfs>(running, waiting, alloc.total_blocks())
    }
}

} // verus!
