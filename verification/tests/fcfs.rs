use std::collections::VecDeque;
use std::time::{Duration, Instant};

use tessera::{
    BlockAllocator, Fcfs, SamplingParams, SchedulerPolicy, SeqId, Sequence, TokenId,
};

fn waiting_seq(id: u64, prompt_len: usize) -> Sequence {
    let prompt = (0..prompt_len as u32).map(TokenId).collect();
    Sequence::new(SeqId(id), prompt, SamplingParams::default(), 0)
}

#[test]
fn admits_in_order_until_budget_exhausted() {
    // Pool of 2 blocks; three one-block prompts queued.
    let alloc = BlockAllocator::new(2);
    let mut waiting = VecDeque::new();
    waiting.push_back(waiting_seq(1, 4));
    waiting.push_back(waiting_seq(2, 4));
    waiting.push_back(waiting_seq(3, 4));

    let plan = Fcfs.plan(&waiting, &[], &alloc);

    assert_eq!(plan.prefill, vec![SeqId(1), SeqId(2)]);
    assert!(plan.decode.is_empty());
    assert!(plan.preempt.is_empty());
}

#[test]
fn stops_at_first_oversized_prompt() {
    // One free block, but the head prompt spans two: admit nothing.
    let alloc = BlockAllocator::new(1);
    let mut waiting = VecDeque::new();
    waiting.push_back(waiting_seq(1, 20));

    let plan = Fcfs.plan(&waiting, &[], &alloc);
    assert!(plan.prefill.is_empty());
}

fn seq_at(id: u64, prompt_len: usize, arrival: Instant) -> Sequence {
    let prompt = (0..prompt_len as u32).map(TokenId).collect();
    Sequence::arriving_at(SeqId(id), prompt, SamplingParams::default(), 0, arrival)
}

#[test]
fn arrival_decides_not_queue_position() {
    let now = Instant::now();
    let alloc = BlockAllocator::new(1);
    let mut waiting = VecDeque::new();
    waiting.push_back(seq_at(1, 4, now + Duration::from_millis(5)));
    waiting.push_back(seq_at(2, 4, now));

    let plan = Fcfs.plan(&waiting, &[], &alloc);
    assert_eq!(plan.prefill, vec![SeqId(2)]);
}

#[test]
fn the_newest_running_sequence_is_preempted_first() {
    let now = Instant::now();
    let alloc = BlockAllocator::new(2);
    // Three sequences run in two blocks' worth of budget; the newest must go.
    let running = [
        seq_at(1, 4, now + Duration::from_millis(9)),
        seq_at(2, 4, now),
        seq_at(3, 4, now + Duration::from_millis(3)),
    ];
    let plan = Fcfs.plan(&VecDeque::new(), &running, &alloc);
    assert_eq!(plan.decode, vec![SeqId(2), SeqId(3)]);
    assert_eq!(plan.preempt, vec![SeqId(1)]);
    assert!(plan.prefill.is_empty());
}

#[test]
fn an_older_waiting_sequence_displaces_a_newer_running_one() {
    let now = Instant::now();
    let alloc = BlockAllocator::new(1);
    let running = [seq_at(1, 4, now + Duration::from_millis(1))];
    let mut waiting = VecDeque::new();
    waiting.push_back(seq_at(2, 4, now));
    let plan = Fcfs.plan(&waiting, &running, &alloc);
    assert_eq!(plan.prefill, vec![SeqId(2)]);
    assert_eq!(plan.preempt, vec![SeqId(1)]);
}

#[test]
fn on_equal_arrival_running_goes_first_and_then_queue_order() {
    let now = Instant::now();
    let alloc = BlockAllocator::new(2);
    let running = [seq_at(1, 4, now)];
    let mut waiting = VecDeque::new();
    waiting.push_back(seq_at(2, 4, now));
    waiting.push_back(seq_at(3, 4, now));
    let plan = Fcfs.plan(&waiting, &running, &alloc);
    assert_eq!(plan.decode, vec![SeqId(1)]);
    assert_eq!(plan.prefill, vec![SeqId(2)]);
    assert!(plan.preempt.is_empty());
}

#[test]
fn the_first_misfit_blocks_the_line() {
    let now = Instant::now();
    let alloc = BlockAllocator::new(3);
    let mut waiting = VecDeque::new();
    waiting.push_back(seq_at(1, 4, now));
    waiting.push_back(seq_at(2, 40, now + Duration::from_millis(1)));
    waiting.push_back(seq_at(3, 4, now + Duration::from_millis(2)));
    let plan = Fcfs.plan(&waiting, &[], &alloc);
    assert_eq!(plan.prefill, vec![SeqId(1)]);
}
