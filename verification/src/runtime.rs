//! The model-runtime boundary.
//!
//! [`ModelRuntime`] is the single seam between the engine and whatever produces
//! next-token predictions: a deterministic mock, or a tensor backend. The engine
//! references only this trait, never a concrete runtime.
use vstd::prelude::*;

use crate::ids::{SeqId, TokenId};

verus! {

/// Errors a runtime can return from a prefill or decode call.
#[derive(Debug, Clone, Copy, PartialEq, Eq, Structural)]
pub enum RuntimeError {
    /// The runtime has no remaining continuation for this sequence.
    Exhausted(SeqId),
    /// The sequence was decoded before it was prefilled.
    NotPrefilled(SeqId),
}

/// Produces next-token predictions for the engine.
///
/// The contract is split into the two passes the engine distinguishes:
/// [`prefill`](ModelRuntime::prefill) consumes a full prompt for a newly
/// admitted sequence, and [`decode`](ModelRuntime::decode) advances an already
/// running sequence by one token. Both return the next token to append.
///
/// An implementation says what it may answer in two relations, which every
/// contract of the engine refers to.
pub trait ModelRuntime: Sized {
    /// Asked in state `pre` to prefill `seq` with `prompt`, the runtime may
    /// answer `reply` and be in state `post` afterwards.
    open spec fn prefills(
        pre: Self,
        seq: SeqId,
        prompt: Seq<TokenId>,
        reply: Result<TokenId, RuntimeError>,
        post: Self,
    ) -> bool {
        true
    }

    /// Asked in state `pre` to decode `seq` from its most recent token `last`,
    /// the runtime may answer `reply` and be in state `post` afterwards.
    open spec fn decodes(
        pre: Self,
        seq: SeqId,
        last: TokenId,
        reply: Result<TokenId, RuntimeError>,
        post: Self,
    ) -> bool {
        true
    }

    /// Run the full prompt for a freshly admitted sequence and return its first
    /// generated token.
    fn prefill(&mut self, seq: SeqId, prompt: &[TokenId]) -> (reply: Result<TokenId, RuntimeError>)
        ensures
            Self::prefills(*old(self), seq, prompt@, reply, *final(self)),
    ;

    /// Advance a running sequence by one token, given its most recent token.
    fn decode(&mut self, seq: SeqId, last: TokenId) -> (reply: Result<TokenId, RuntimeError>)
        ensures
            Self::decodes(*old(self), seq, last, reply, *final(self)),
    ;
}

} // verus!
