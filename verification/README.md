# Tessera

Tessera is the core of a serving engine for language models. It batches requests
step by step (continuous batching) and manages attention memory with a paged
KV-cache: fixed-size blocks, per-sequence block tables, and copy-on-write prefix
sharing. The model sits behind the `ModelRuntime` trait; a scripted runtime
drives the engine without one.

The core is written in Verus: every function's contract is proved, and so are
the laws that hold of the library as a whole.

## Layout

| Path | Content |
|------|---------|
| `src/block.rs` | The block allocator: free list, reference counts, prefix index |
| `src/sequence.rs` | Requests, their tokens and their block tables |
| `src/scheduler/` | The policy trait, FCFS and priority scheduling |
| `src/engine/` | The step loop: schedule, preempt, admit, execute, reconcile |
| `src/runtime.rs`, `src/mock.rs` | The runtime trait and the scripted runtime |
| `src/metrics.rs` | Counters |
| `src/clock.rs` | The monotonic clock; the only code that is trusted, not proved |
| `src/counting.rs` | Counting and summing over sequences |
| `src/laws/` | The laws |
| `app/` | Error messages and floating-point sampling parameters |

## Models

Each type has a view: an allocator is a `PoolView`, a sequence a `SeqView`, an
engine an `EngineView` together with its runtime and its policy. The contracts
say what a call does to the view. What a policy may plan and what a runtime may
answer are relations of their traits (`plans`, `prefills`, `decodes`); an
implementation can leave them open or pin them down, as FCFS, the priority
policy and the scripted runtime do.

## Laws

| Module | What it states |
|--------|----------------|
| `pool` | Nothing is handed out twice; freeing undoes allocating; copy-on-write |
| `prefix` | Equal prompts share their blocks, an uncached one shares nothing |
| `sharing` | Running requests share blocks only where their prompts agree; what they generate is their own |
| `hashing` | One different token changes every later block hash |
| `mapping` | Every token of a running request has a place |
| `accounts`, `capacity` | A correct plan never exhausts the pool; nothing leaks |
| `plans` | What the policies choose, whom they protect, what is unschedulable |
| `room` | When no reference count can overflow |
| `roster` | No request is lost, repeated or mixed up |
| `replay` | Whatever the schedule, the output is the script's |
| `progress` | Every step makes progress; runs come to an end |
| `completion` | Cooperative input is served: no run fails |
| `determinism` | Runs can be replayed, failing ones too |
| `counters` | The counters agree with what happened |
| `service` | What a caller can rely on, from submission to completion |
