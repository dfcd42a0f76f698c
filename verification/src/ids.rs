//! Strongly-typed identifiers shared across the engine.
//!
//! Newtypes keep identifiers from being mixed up: a token value can never be
//! passed where a sequence id is expected, and vice versa.
use vstd::prelude::*;

verus! {

/// Identifier for a vocabulary token.
#[derive(Debug, Clone, Copy, PartialEq, Eq, Structural, Hash, PartialOrd, Ord)]
pub struct TokenId(pub u32);

/// Identifier for an in-flight sequence (one generation request).
#[derive(Debug, Clone, Copy, PartialEq, Eq, Structural, Hash, PartialOrd, Ord)]
pub struct SeqId(pub u64);

} // verus!
