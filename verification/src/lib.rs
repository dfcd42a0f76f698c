//! Tessera: a serving engine for language models, built on a paged KV-cache.
//!
//! The crate owns the engine's authoritative state (block allocator, sequences,
//! queues) and the traits that decouple it from any concrete model runtime or
//! scheduling policy. Runtimes are injected through the [`ModelRuntime`] trait.
//!
//! The engine admits requests only when their blocks fit the pool, preempts
//! running requests under memory pressure, and shares identical prompt-prefix
//! blocks across requests through a refcounted prefix cache, with copy-on-write
//! on divergent writes ([`BlockAllocator::copy_on_write`]).
//!
//! Every type has a mathematical view, and every function's contract says what
//! it returns and changes in terms of the views. What holds of the library as a
//! whole is stated and proved by the functions whose names begin with `law_`.
pub mod block;
pub mod clock;
pub mod counting;
pub mod engine;
mod ids;
pub mod laws;
pub mod metrics;
pub mod mock;
pub mod runtime;
pub mod scheduler;
pub mod sequence;

pub use block::{AllocError, BlockAllocator, BlockHash, PhysicalBlockId, BLOCK_SIZE};
pub use engine::{Engine, EngineConfig, EngineError, StepTrace};
pub use ids::{SeqId, TokenId};
pub use metrics::EngineMetrics;
pub use mock::MockRuntime;
pub use runtime::{ModelRuntime, RuntimeError};
pub use scheduler::{Fcfs, Priority, SchedulerPolicy, StepPlan};
pub use sequence::{SamplingParams, SeqState, Sequence};
