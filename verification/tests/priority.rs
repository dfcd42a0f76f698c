use std::collections::VecDeque;
use std::time::{Duration, Instant};

use tessera::{
    BlockAllocator, Priority, SamplingParams, SchedulerPolicy, SeqId, SeqState, Sequence, TokenId,
};

fn seq(id: u64, prompt_len: usize, priority: u8) -> Sequence {
    let prompt = (0..prompt_len as u32).map(TokenId).collect();
    Sequence::new(SeqId(id), prompt, SamplingParams::default(), priority)
}

#[test]
fn high_priority_admitted_first_under_budget() {
    // Room for one block; the second prompt outranks the first.
    let alloc = BlockAllocator::new(1);
    let mut waiting = VecDeque::new();
    waiting.push_back(seq(1, 4, 0));
    waiting.push_back(seq(2, 4, 9));

    let plan = Priority.plan(&waiting, &[], &alloc);
    assert_eq!(plan.prefill, vec![SeqId(2)]);
}

#[test]
fn high_priority_waiting_preempts_low_priority_running() {
    // One block of capacity, one low-priority sequence running in it. A
    // higher-priority arrival must preempt it to be admitted this step.
    let alloc = BlockAllocator::new(1);
    let mut running_seq = seq(1, 4, 0);
    running_seq.set_state(SeqState::Running);
    running_seq.push_output(TokenId(50));
    let running = [running_seq];

    let mut waiting = VecDeque::new();
    waiting.push_back(seq(2, 4, 9));

    let plan = Priority.plan(&waiting, &running, &alloc);
    assert_eq!(plan.prefill, vec![SeqId(2)]);
    assert_eq!(plan.preempt, vec![SeqId(1)]);
}

fn seq_at(id: u64, priority: u8, arrival: Instant) -> Sequence {
    let sampling = SamplingParams::default();
    Sequence::arriving_at(SeqId(id), vec![TokenId(1)], sampling, priority, arrival)
}

#[test]
fn on_equal_priority_running_goes_before_older_waiting() {
    let now = Instant::now();
    let alloc = BlockAllocator::new(1);
    let running = [seq_at(1, 3, now + Duration::from_millis(8))];
    let mut waiting = VecDeque::new();
    waiting.push_back(seq_at(2, 3, now));
    let plan = Priority.plan(&waiting, &running, &alloc);
    assert_eq!(plan.decode, vec![SeqId(1)]);
    assert!(plan.prefill.is_empty());
    assert!(plan.preempt.is_empty());
}

#[test]
fn on_equal_priority_the_oldest_waits_least() {
    let now = Instant::now();
    let alloc = BlockAllocator::new(2);
    let mut waiting = VecDeque::new();
    waiting.push_back(seq_at(1, 3, now + Duration::from_millis(8)));
    waiting.push_back(seq_at(2, 3, now));
    waiting.push_back(seq_at(3, 2, now));
    waiting.push_back(seq_at(4, 7, now + Duration::from_millis(9)));
    let plan = Priority.plan(&waiting, &[], &alloc);
    assert_eq!(plan.prefill, vec![SeqId(2), SeqId(4)]);
}
