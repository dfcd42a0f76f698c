use std::collections::VecDeque;

use tessera::{
    AllocError, BlockAllocator, Engine, EngineConfig, EngineError, EngineMetrics, Fcfs, MockRuntime,
    ModelRuntime, Priority, RuntimeError, SamplingParams, SchedulerPolicy, SeqId, SeqState,
    Sequence, StepPlan, StepTrace, TokenId, BLOCK_SIZE,
};

/// A runtime that always emits the same token: handy for exercising the
/// completion paths without scripting.
struct ConstRuntime(TokenId);

impl ModelRuntime for ConstRuntime {
    fn prefill(&mut self, _seq: SeqId, _prompt: &[TokenId]) -> Result<TokenId, RuntimeError> {
        Ok(self.0)
    }

    fn decode(&mut self, _seq: SeqId, _last: TokenId) -> Result<TokenId, RuntimeError> {
        Ok(self.0)
    }
}

#[test]
fn max_tokens_bounds_generation() {
    let mut engine = Engine::new(
        BlockAllocator::new(8),
        ConstRuntime(TokenId(42)),
        Fcfs,
        EngineConfig::default(),
    );
    let sampling = SamplingParams {
        max_tokens: 3,
        ..SamplingParams::default()
    };
    engine.submit(Sequence::new(SeqId(1), vec![TokenId(1)], sampling, 0));

    engine.run_to_idle().unwrap();

    assert!(engine.is_idle());
    assert_eq!(engine.finished().len(), 1);
    assert_eq!(engine.finished()[0].output_tokens().len(), 3);
    assert_eq!(engine.metrics().tokens_generated, 3);
    assert_eq!(engine.free_blocks(), 8, "blocks reclaimed on completion");
}

#[test]
fn eos_token_finishes_without_appending() {
    let mut engine = Engine::new(
        BlockAllocator::new(8),
        ConstRuntime(TokenId(7)),
        Fcfs,
        EngineConfig {
            eos_token: Some(TokenId(7)),
            ..Default::default()
        },
    );
    engine.submit(Sequence::new(
        SeqId(1),
        vec![TokenId(1)],
        SamplingParams::default(),
        0,
    ));

    engine.run_to_idle().unwrap();

    assert_eq!(engine.finished().len(), 1);
    assert!(engine.finished()[0].output_tokens().is_empty());
    assert_eq!(engine.metrics().tokens_generated, 0);
}

#[test]
fn oversized_request_is_unschedulable() {
    // A prompt that needs more blocks than the whole pool can never run.
    let mut engine = Engine::new(
        BlockAllocator::new(1),
        ConstRuntime(TokenId(9)),
        Fcfs,
        EngineConfig::default(),
    );
    let big_prompt = (0..40u32).map(TokenId).collect();
    engine.submit(Sequence::new(
        SeqId(1),
        big_prompt,
        SamplingParams::default(),
        0,
    ));

    assert!(matches!(
        engine.step(),
        Err(EngineError::Unschedulable { capacity: 1, .. })
    ));
}

fn prompt(len: usize) -> Vec<TokenId> {
    (1..=len as u32).map(TokenId).collect()
}

fn limited(id: u64, prompt_len: usize, max_tokens: usize, priority: u8) -> Sequence {
    let sampling = SamplingParams {
        max_tokens,
        ..SamplingParams::default()
    };
    Sequence::new(SeqId(id), prompt(prompt_len), sampling, priority)
}

/// Admits everything that waits and decodes everything that runs, whatever the
/// pool holds.
struct Spendthrift;

impl SchedulerPolicy for Spendthrift {
    fn plan(
        &mut self,
        waiting: &VecDeque<Sequence>,
        running: &[Sequence],
        _alloc: &BlockAllocator,
    ) -> StepPlan {
        StepPlan {
            prefill: waiting.iter().map(Sequence::id).collect(),
            decode: running.iter().map(Sequence::id).collect(),
            preempt: Vec::new(),
        }
    }
}

/// Schedules nothing.
struct Idler;

impl SchedulerPolicy for Idler {
    fn plan(
        &mut self,
        _waiting: &VecDeque<Sequence>,
        _running: &[Sequence],
        _alloc: &BlockAllocator,
    ) -> StepPlan {
        StepPlan::default()
    }
}

#[test]
fn a_new_engine_is_idle() {
    let engine = Engine::new(
        BlockAllocator::new(3),
        MockRuntime::new(),
        Fcfs,
        EngineConfig::default(),
    );
    assert!(engine.is_idle());
    assert_eq!(engine.metrics(), EngineMetrics::default());
    assert!(engine.finished().is_empty());
    assert_eq!(engine.running_len(), 0);
    assert_eq!(engine.waiting_len(), 0);
    assert_eq!(engine.free_blocks(), 3);
    assert_eq!(EngineConfig::default().eos_token, None);
    assert_eq!(EngineConfig::default().swap_threshold_tokens, usize::MAX);
}

#[test]
fn an_idle_engine_steps_without_effect() {
    let mut engine = Engine::new(
        BlockAllocator::new(3),
        MockRuntime::new(),
        Fcfs,
        EngineConfig::default(),
    );
    assert_eq!(engine.run_to_idle().unwrap(), Vec::new());
    let trace = engine.step().unwrap();
    assert_eq!(
        trace,
        StepTrace {
            free_blocks_after: 3,
            ..StepTrace::default()
        }
    );
    assert_eq!(engine.metrics().steps, 1);
}

#[test]
fn traces_list_what_each_step_did() {
    let mut engine = Engine::new(
        BlockAllocator::new(4),
        ConstRuntime(TokenId(5)),
        Fcfs,
        EngineConfig::default(),
    );
    engine.submit(limited(1, 3, 2, 0));
    engine.submit(limited(2, 3, 1, 0));
    assert_eq!(engine.waiting_len(), 2);
    assert!(!engine.is_idle());

    let first = engine.step().unwrap();
    assert_eq!(first.step, 0);
    assert_eq!(first.admitted, vec![SeqId(1), SeqId(2)]);
    assert!(first.decoded.is_empty());
    assert!(first.preempted.is_empty());
    assert_eq!(first.finished, vec![SeqId(2)]);
    assert_eq!(first.running_after, 1);
    assert_eq!(first.free_blocks_after, 3);
    assert_eq!(engine.running_len(), 1);

    let second = engine.step().unwrap();
    assert_eq!(second.step, 1);
    assert!(second.admitted.is_empty());
    assert_eq!(second.decoded, vec![SeqId(1)]);
    assert_eq!(second.finished, vec![SeqId(1)]);
    assert_eq!(second.running_after, 0);
    assert_eq!(second.free_blocks_after, 4);

    assert!(engine.is_idle());
    let m = engine.metrics();
    assert_eq!(m.steps, 2);
    assert_eq!(m.sequences_admitted, 2);
    assert_eq!(m.sequences_finished, 2);
    assert_eq!(m.tokens_generated, 3);
    assert_eq!(engine.finished()[0].id(), SeqId(2));
    assert_eq!(engine.finished()[1].id(), SeqId(1));
    assert_eq!(engine.finished()[1].state(), SeqState::Finished);
    assert!(engine.finished()[1].block_table().is_empty());
}

#[test]
fn an_exhausted_script_stops_the_step() {
    let mut rt = MockRuntime::new();
    rt.script(SeqId(1), vec![TokenId(10)]);
    let mut engine = Engine::new(BlockAllocator::new(4), rt, Fcfs, EngineConfig::default());
    engine.submit(limited(1, 1, 0, 0));
    engine.step().unwrap();
    assert_eq!(
        engine.step(),
        Err(EngineError::Runtime(RuntimeError::Exhausted(SeqId(1))))
    );
    assert_eq!(engine.metrics().steps, 1);
}

#[test]
fn overspending_plans_exhaust_the_pool() {
    let mut engine = Engine::new(
        BlockAllocator::new(1),
        ConstRuntime(TokenId(5)),
        Spendthrift,
        EngineConfig::default(),
    );
    engine.submit(limited(1, 1, 0, 0));
    engine.submit(limited(2, 1, 0, 0));
    assert_eq!(
        engine.step(),
        Err(EngineError::Alloc(AllocError::Exhausted))
    );
    // The first sequence got its token before the second ran out of blocks.
    assert_eq!(engine.metrics().tokens_generated, 1);
    assert_eq!(engine.running_len(), 2);
}

#[test]
fn overspending_on_a_prompt_exhausts_the_pool() {
    let mut engine = Engine::new(
        BlockAllocator::new(1),
        ConstRuntime(TokenId(5)),
        Spendthrift,
        EngineConfig::default(),
    );
    engine.submit(limited(1, 2 * BLOCK_SIZE, 0, 0));
    assert_eq!(
        engine.run_to_idle(),
        Err(EngineError::Alloc(AllocError::Exhausted))
    );
    assert_eq!(engine.free_blocks(), 0);
}

#[test]
fn unschedulable_names_the_need_that_exceeds_the_pool() {
    let mut engine = Engine::new(
        BlockAllocator::new(2),
        ConstRuntime(TokenId(5)),
        Fcfs,
        EngineConfig::default(),
    );
    engine.submit(limited(1, 5 * BLOCK_SIZE, 1, 0));
    engine.submit(limited(2, 1, 1, 0));
    engine.submit(limited(3, 3 * BLOCK_SIZE, 1, 0));
    assert_eq!(
        engine.step(),
        Err(EngineError::Unschedulable {
            needed: 4,
            capacity: 2
        })
    );
    assert_eq!(engine.waiting_len(), 3);
    assert_eq!(engine.free_blocks(), 2);
}

#[test]
fn a_policy_that_schedules_nothing_is_reported_with_the_smallest_need() {
    let mut engine = Engine::new(
        BlockAllocator::new(8),
        ConstRuntime(TokenId(5)),
        Idler,
        EngineConfig::default(),
    );
    engine.submit(limited(1, 2 * BLOCK_SIZE, 1, 0));
    engine.submit(limited(2, BLOCK_SIZE, 1, 0));
    assert_eq!(
        engine.step(),
        Err(EngineError::Unschedulable {
            needed: 2,
            capacity: 8
        })
    );
}

#[test]
fn errors_convert_into_engine_errors() {
    assert_eq!(
        EngineError::from(AllocError::Exhausted),
        EngineError::Alloc(AllocError::Exhausted)
    );
    assert_eq!(
        EngineError::from(RuntimeError::NotPrefilled(SeqId(6))),
        EngineError::Runtime(RuntimeError::NotPrefilled(SeqId(6)))
    );
}

#[test]
fn victims_go_to_the_head_of_the_queue() {
    // Two one-block requests fill the pool; a higher priority displaces both.
    let mut engine = Engine::new(
        BlockAllocator::new(2),
        ConstRuntime(TokenId(5)),
        Priority,
        EngineConfig {
            swap_threshold_tokens: 3,
            ..EngineConfig::default()
        },
    );
    engine.submit(limited(1, 2, 9, 0));
    engine.submit(limited(2, 3, 9, 0));
    engine.step().unwrap();
    engine.submit(limited(3, BLOCK_SIZE, 1, 7));
    let trace = engine.step().unwrap();
    assert_eq!(trace.preempted, vec![SeqId(1), SeqId(2)]);
    assert_eq!(trace.admitted, vec![SeqId(3)]);
    assert_eq!(trace.finished, vec![SeqId(3)]);
    // Three tokens are within the threshold, four are not.
    let m = engine.metrics();
    assert_eq!(m.preemptions, 2);
    assert_eq!(m.preemptions_recompute, 1);
    assert_eq!(m.preemptions_swap, 1);
    // Resumed sequences are admitted again and not counted as decoded.
    let resumed = engine.step().unwrap();
    assert_eq!(resumed.admitted, vec![SeqId(2), SeqId(1)]);
    assert!(resumed.decoded.is_empty());
    engine.run_to_idle().unwrap();
    assert_eq!(engine.finished().len(), 3);
    assert_eq!(engine.free_blocks(), 2);
}
