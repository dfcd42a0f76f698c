//! Engine-internal counters.
//!
//! Transport-agnostic by design: the engine only increments these, and an API
//! layer maps them onto a metrics exposition format. Keeping the type here means
//! the core has no dependency on any metrics/HTTP crate.
use vstd::prelude::*;

verus! {

/// Cumulative engine counters, snapshotted by value. A counter that reaches
/// `u64::MAX` wraps around to zero.
#[derive(Debug, Clone, Copy, PartialEq, Eq, Structural)]
pub struct EngineMetrics {
    /// Engine steps executed.
    pub steps: u64,
    /// Sequences admitted from the waiting queue (prefill starts).
    pub sequences_admitted: u64,
    /// Sequences that reached completion.
    pub sequences_finished: u64,
    /// Output tokens generated across all sequences.
    pub tokens_generated: u64,
    /// Preemptions performed (running sequences evicted under memory pressure).
    pub preemptions: u64,
    /// Preemptions recovered by recompute (drop blocks, rebuild on resume).
    pub preemptions_recompute: u64,
    /// Preemptions recovered by swap (evict blocks to host, restore on resume).
    pub preemptions_swap: u64,
    /// Prompt blocks shared with an existing sequence via prefix caching.
    pub blocks_shared: u64,
}

/// A counter after `n` more events.
pub open spec fn bumped(counter: u64, n: nat) -> u64 {
    ((counter + n) % 0x1_0000_0000_0000_0000) as u64
}

/// Counts `n` more events.
pub(crate) fn bump(counter: u64, n: usize) -> (next: u64)
    ensures
        next == bumped(counter, n as nat),
{
    counter.wrapping_add(n as u64)
}

impl EngineMetrics {
    /// Counters of an engine that has done nothing yet.
    pub open spec fn zero() -> EngineMetrics {
        EngineMetrics {
            steps: 0,
            sequences_admitted: 0,
            sequences_finished: 0,
            tokens_generated: 0,
            preemptions: 0,
            preemptions_recompute: 0,
            preemptions_swap: 0,
            blocks_shared: 0,
        }
    }
}

impl Default for EngineMetrics {
    /// All counters at zero.
    fn default() -> (metrics: Self)
        ensures
            metrics == EngineMetrics::zero(),
    {
        EngineMetrics {
            steps: 0,
            sequences_admitted: 0,
            sequences_finished: 0,
            tokens_generated: 0,
            preemptions: 0,
            preemptions_recompute: 0,
            preemptions_swap: 0,
            blocks_shared: 0,
        }
    }
}

} // verus!
