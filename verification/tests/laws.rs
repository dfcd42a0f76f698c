use tessera::block::chained_block_hashes;
use tessera::{
    BlockAllocator, Engine, EngineConfig, EngineError, Fcfs, MockRuntime, Priority, SamplingParams,
    SchedulerPolicy, SeqId, Sequence, StepTrace, TokenId, BLOCK_SIZE,
};

const EOS: TokenId = TokenId(0);

/// (prompt length, generated length, priority, token limit) of each request.
const REQUESTS: [(usize, usize, u8, usize); 7] = [
    (5, 40, 0, 0),
    (17, 9, 3, 0),
    (1, 30, 1, 12),
    (33, 2, 2, 0),
    (16, 16, 0, 0),
    (33, 25, 3, 20),
    (2, 0, 1, 0),
];

fn tokens(n: usize) -> Vec<TokenId> {
    (0..n).map(|i| TokenId(100 + i as u32)).collect()
}

fn workload<P: SchedulerPolicy>(policy: P, pool: usize, threshold: usize) -> Engine<MockRuntime, P> {
    let mut rt = MockRuntime::new();
    let mut seqs = Vec::new();
    for (i, &(prompt_len, gen_len, priority, limit)) in REQUESTS.iter().enumerate() {
        let id = SeqId(i as u64 + 1);
        let mut script = tokens(gen_len);
        script.push(EOS);
        rt.script(id, script);
        let prompt = (1..=prompt_len as u32).map(TokenId).collect();
        let sampling = SamplingParams {
            max_tokens: limit,
            ..SamplingParams::default()
        };
        seqs.push(Sequence::new(id, prompt, sampling, priority));
    }
    let mut engine = Engine::new(
        BlockAllocator::new(pool),
        rt,
        policy,
        EngineConfig {
            eos_token: Some(EOS),
            swap_threshold_tokens: threshold,
        },
    );
    for seq in seqs {
        engine.submit(seq);
    }
    engine
}

fn sorted_outputs<P: SchedulerPolicy>(engine: &Engine<MockRuntime, P>) -> Vec<(u64, Vec<TokenId>)> {
    let mut out: Vec<(u64, Vec<TokenId>)> = engine
        .finished()
        .iter()
        .map(|seq| (seq.id().0, seq.output_tokens().to_vec()))
        .collect();
    out.sort();
    out
}

fn expected_outputs() -> Vec<(u64, Vec<TokenId>)> {
    REQUESTS
        .iter()
        .enumerate()
        .map(|(i, &(_, gen_len, _, limit))| {
            let len = if limit > 0 { gen_len.min(limit) } else { gen_len };
            (i as u64 + 1, tokens(len))
        })
        .collect()
}

#[test]
fn output_is_independent_of_the_schedule() {
    for pool in [4, 5, 7, 64] {
        let mut fcfs = workload(Fcfs, pool, usize::MAX);
        let mut priority = workload(Priority, pool, 20);
        fcfs.run_to_idle().unwrap();
        priority.run_to_idle().unwrap();
        assert_eq!(sorted_outputs(&fcfs), expected_outputs());
        assert_eq!(sorted_outputs(&priority), expected_outputs());
    }
}

#[test]
fn the_pool_is_whole_again_after_every_run() {
    for pool in [4, 6, 9] {
        let mut engine = workload(Priority, pool, 0);
        engine.run_to_idle().unwrap();
        assert_eq!(engine.free_blocks(), pool);
        assert_eq!(engine.finished().len(), REQUESTS.len());
    }
}

#[test]
fn runs_can_be_replayed() {
    let first: Vec<StepTrace> = workload(Fcfs, 5, usize::MAX).run_to_idle().unwrap();
    let second: Vec<StepTrace> = workload(Fcfs, 5, usize::MAX).run_to_idle().unwrap();
    assert_eq!(first, second);
}

#[test]
fn the_running_set_never_exceeds_the_pool() {
    for pool in [4, 5, 6] {
        let traces = workload(Fcfs, pool, usize::MAX).run_to_idle().unwrap();
        for trace in &traces {
            assert!(trace.running_after <= pool);
            assert!(trace.free_blocks_after <= pool);
        }
    }
}

#[test]
fn runs_take_no_more_steps_than_there_are_tokens() {
    let budget: usize = REQUESTS.iter().map(|&(_, gen_len, _, _)| gen_len + 1).sum();
    for pool in [4, 5, 64] {
        let traces = workload(Priority, pool, usize::MAX).run_to_idle().unwrap();
        assert!(traces.len() <= budget);
    }
}

#[test]
fn counters_agree_with_the_traces() {
    let mut engine = workload(Priority, 4, 18);
    let traces = engine.run_to_idle().unwrap();
    let m = engine.metrics();
    let total = |pick: fn(&StepTrace) -> usize| traces.iter().map(pick).sum::<usize>() as u64;
    assert_eq!(m.steps, traces.len() as u64);
    assert_eq!(m.sequences_admitted, total(|t| t.admitted.len()));
    assert_eq!(m.sequences_finished, total(|t| t.finished.len()));
    assert_eq!(m.preemptions, total(|t| t.preempted.len()));
    assert!(m.preemptions > 0);
    assert_eq!(m.preemptions, m.preemptions_recompute + m.preemptions_swap);
    for (i, trace) in traces.iter().enumerate() {
        assert_eq!(trace.step, i as u64);
    }
}

#[test]
fn every_request_is_kept_at_every_step() {
    let mut engine = workload(Fcfs, 4, usize::MAX);
    while !engine.is_idle() {
        engine.step().unwrap();
        let held = engine.waiting_len() + engine.running_len() + engine.finished().len();
        assert_eq!(held, REQUESTS.len());
    }
    let mut ids: Vec<u64> = engine.finished().iter().map(|seq| seq.id().0).collect();
    ids.sort();
    assert_eq!(ids, (1..=REQUESTS.len() as u64).collect::<Vec<u64>>());
    for seq in engine.finished() {
        let (prompt_len, _, priority, limit) = REQUESTS[seq.id().0 as usize - 1];
        assert_eq!(seq.prompt_tokens().len(), prompt_len);
        assert_eq!(seq.priority(), priority);
        assert_eq!(seq.sampling().max_tokens, limit);
    }
}

#[test]
fn two_equal_prompts_need_their_blocks_once() {
    let prompt: Vec<TokenId> = (1..=3 * BLOCK_SIZE as u32).map(TokenId).collect();
    let mut rt = MockRuntime::new();
    let mut engine_seqs = Vec::new();
    for id in [1, 2, 3] {
        rt.script(SeqId(id), vec![TokenId(9), TokenId(9), EOS]);
        engine_seqs.push(Sequence::new(
            SeqId(id),
            prompt.clone(),
            SamplingParams::default(),
            0,
        ));
    }
    let mut engine = Engine::new(
        BlockAllocator::new(12),
        rt,
        Fcfs,
        EngineConfig {
            eos_token: Some(EOS),
            ..EngineConfig::default()
        },
    );
    for seq in engine_seqs {
        engine.submit(seq);
    }
    let trace = engine.step().unwrap();
    // Three shared prompt blocks and one private block for each request.
    assert_eq!(trace.free_blocks_after, 12 - 3 - 3);
    assert_eq!(engine.metrics().blocks_shared, 6);
    engine.run_to_idle().unwrap();
    assert_eq!(engine.free_blocks(), 12);
}

#[test]
fn an_oversized_request_of_high_priority_is_reported() {
    let mut engine = workload(Priority, 4, usize::MAX);
    engine.step().unwrap();
    let prompt = (0..200u32).map(TokenId).collect();
    engine.submit(Sequence::new(
        SeqId(99),
        prompt,
        SamplingParams::default(),
        200,
    ));
    assert_eq!(
        engine.run_to_idle(),
        Err(EngineError::Unschedulable {
            needed: 13,
            capacity: 4
        })
    );
    // Everybody is back in the queue and every block is free.
    assert_eq!(engine.running_len(), 0);
    assert_eq!(engine.free_blocks(), 4);
}

#[test]
fn many_equal_requests_wait_their_turn() {
    let prompt: Vec<TokenId> = (1..=BLOCK_SIZE as u32).map(TokenId).collect();
    let mut rt = MockRuntime::new();
    for id in 0..300 {
        rt.script(SeqId(id), vec![TokenId(7), EOS]);
    }
    let mut engine = Engine::new(
        BlockAllocator::new(6),
        rt,
        Fcfs,
        EngineConfig {
            eos_token: Some(EOS),
            ..EngineConfig::default()
        },
    );
    for id in 0..300 {
        engine.submit(Sequence::new(
            SeqId(id),
            prompt.clone(),
            SamplingParams::default(),
            0,
        ));
    }
    let traces = engine.run_to_idle().unwrap();
    assert!(traces.iter().all(|trace| trace.running_after <= 3));
    assert_eq!(engine.finished().len(), 300);
    assert_eq!(engine.free_blocks(), 6);
}

fn limited_run(pool: usize, prompt_len: usize, limit: usize) -> Result<usize, EngineError> {
    let mut rt = MockRuntime::new();
    let prompt = (1..=prompt_len as u32).map(TokenId).collect();
    rt.script(SeqId(1), tokens(limit));
    let sampling = SamplingParams {
        max_tokens: limit,
        ..SamplingParams::default()
    };
    let mut engine = Engine::new(BlockAllocator::new(pool), rt, Fcfs, EngineConfig::default());
    engine.submit(Sequence::new(SeqId(1), prompt, sampling, 0));
    engine.run_to_idle()?;
    Ok(engine.finished()[0].output_tokens().len())
}

#[test]
fn a_request_is_served_if_it_fits_until_its_last_token() {
    // The last token fills the last slot of the only block.
    assert_eq!(limited_run(1, BLOCK_SIZE - 2, 2), Ok(2));
    // One token more does not fit any more, and is found out only then.
    assert_eq!(
        limited_run(1, BLOCK_SIZE - 2, 3),
        Err(EngineError::Unschedulable {
            needed: 2,
            capacity: 1
        })
    );
    assert_eq!(limited_run(2, BLOCK_SIZE - 2, 3), Ok(3));
}

#[test]
fn the_tightest_pool_that_fits_each_request_serves_all() {
    // The largest request has 33 prompt tokens and is limited to 20 more.
    let mut fcfs = workload(Fcfs, 4, 0);
    let mut priority = workload(Priority, 4, 0);
    assert!(fcfs.run_to_idle().is_ok());
    assert!(priority.run_to_idle().is_ok());
    assert!(priority.metrics().preemptions > 0);
    assert!(workload(Fcfs, 3, 0).run_to_idle().is_err());
}

#[test]
fn failing_runs_fail_alike() {
    let first = workload(Fcfs, 3, usize::MAX).run_to_idle();
    let second = workload(Fcfs, 3, usize::MAX).run_to_idle();
    assert!(first.is_err());
    assert_eq!(first, second);
}

#[test]
fn a_whole_run_adds_up() {
    let mut engine = workload(Priority, 5, usize::MAX);
    let traces = engine.run_to_idle().unwrap();
    let listed: Vec<SeqId> = traces.iter().flat_map(|t| t.finished.clone()).collect();
    let finished: Vec<SeqId> = engine.finished().iter().map(|seq| seq.id()).collect();
    assert_eq!(listed, finished);
    let m = engine.metrics();
    assert_eq!(m.sequences_finished as usize, REQUESTS.len());
    let generated: usize = engine
        .finished()
        .iter()
        .map(|seq| seq.output_tokens().len())
        .sum();
    assert_eq!(m.tokens_generated as usize, generated);
}

#[test]
fn one_different_token_changes_every_later_block_hash() {
    let prompt: Vec<TokenId> = (1..=4 * BLOCK_SIZE as u32).map(TokenId).collect();
    let hashes = chained_block_hashes(&prompt);
    for pos in [0, 15, 16, 37, 63] {
        for other in [0, 0x100, 0xffff_ffff, 0x0100_0000] {
            let mut changed = prompt.clone();
            changed[pos] = TokenId(other);
            let new = chained_block_hashes(&changed);
            for i in 0..4 {
                assert_eq!(hashes[i] == new[i], i < pos / BLOCK_SIZE);
            }
        }
    }
}
