//! A deterministic [`ModelRuntime`] for building and testing the engine with
//! zero ML dependency.
//!
//! [`MockRuntime`] replays a script: each sequence is given a fixed list of
//! tokens to emit, in order, one per prefill/decode call. Because output is
//! fully scripted, the scheduler and allocator can be exercised reproducibly.
use std::collections::HashMap;
use vstd::prelude::*;

use crate::ids::{SeqId, TokenId};
use crate::runtime::{ModelRuntime, RuntimeError};

verus! {

broadcast use vstd::std_specs::hash::group_hash_axioms;

/// The state of one script.
pub struct ScriptView {
    /// The tokens to emit, in order.
    pub tokens: Seq<TokenId>,
    /// How many of them have been emitted.
    pub cursor: nat,
    /// The sequence has been prefilled.
    pub prefilled: bool,
}

impl ScriptView {
    /// The script once the sequence has been prefilled.
    pub open spec fn started(self) -> ScriptView {
        ScriptView { prefilled: true, ..self }
    }

    /// The script after one more token has been emitted.
    pub open spec fn advanced(self) -> ScriptView {
        ScriptView { cursor: self.cursor + 1, ..self }
    }
}

/// The scripts after those of `seq`, if there are any, were advanced by one
/// token.
pub open spec fn advanced(scripts: Map<u64, ScriptView>, seq: SeqId) -> Map<u64, ScriptView> {
    if can_advance(scripts, seq) {
        scripts.insert(seq.0, scripts[seq.0].advanced())
    } else {
        scripts
    }
}

/// The scripts once `seq`, if it is scripted, has been prefilled.
pub open spec fn started(scripts: Map<u64, ScriptView>, seq: SeqId) -> Map<u64, ScriptView> {
    if scripts.contains_key(seq.0) {
        scripts.insert(seq.0, scripts[seq.0].started())
    } else {
        scripts
    }
}

/// `seq` is scripted and has tokens left.
pub open spec fn can_advance(scripts: Map<u64, ScriptView>, seq: SeqId) -> bool {
    scripts.contains_key(seq.0) && scripts[seq.0].cursor < scripts[seq.0].tokens.len()
}

/// The next scripted token of `seq`, or that it has none.
pub open spec fn next_reply(scripts: Map<u64, ScriptView>, seq: SeqId) -> Result<
    TokenId,
    RuntimeError,
> {
    if can_advance(scripts, seq) {
        Ok(scripts[seq.0].tokens[scripts[seq.0].cursor as int])
    } else {
        Err(RuntimeError::Exhausted(seq))
    }
}

#[derive(Debug)]
struct Script {
    tokens: Vec<TokenId>,
    cursor: usize,
    prefilled: bool,
}

impl Script {
    spec fn view(&self) -> ScriptView {
        ScriptView {
            tokens: self.tokens@,
            cursor: self.cursor as nat,
            prefilled: self.prefilled,
        }
    }
}

/// A runtime that emits pre-scripted tokens per sequence.
#[derive(Debug)]
pub struct MockRuntime {
    scripts: HashMap<u64, Script>,
}

impl View for MockRuntime {
    type V = Map<u64, ScriptView>;

    closed spec fn view(&self) -> Map<u64, ScriptView> {
        self.scripts@.map_values(|script: Script| script.view())
    }
}

impl Default for MockRuntime {
    /// An empty runtime.
    fn default() -> (runtime: Self)
        ensures
            runtime@ == Map::<u64, ScriptView>::empty(),
    {
        MockRuntime::new()
    }
}

impl MockRuntime {
    /// Create an empty runtime with no scripted sequences.
    pub fn new() -> (runtime: Self)
        ensures
            runtime@ == Map::<u64, ScriptView>::empty(),
    {
        let runtime = MockRuntime { scripts: HashMap::new() };
        assert(runtime@ =~= Map::<u64, ScriptView>::empty());
        runtime
    }

    /// Register the tokens `seq` should emit, in order. The first token is
    /// returned by [`prefill`](ModelRuntime::prefill); each subsequent token by
    /// a [`decode`](ModelRuntime::decode) call.
    pub fn script(&mut self, seq: SeqId, tokens: Vec<TokenId>)
        ensures
            final(self)@ == old(self)@.insert(
                seq.0,
                (ScriptView { tokens: tokens@, cursor: 0, prefilled: false }),
            ),
    {
        let ghost script = ScriptView { tokens: tokens@, cursor: 0, prefilled: false };
        self.scripts.insert(seq.0, Script { tokens, cursor: 0, prefilled: false });
        assert(self@ =~= old(self)@.insert(seq.0, script));
    }

    /// Emits the next scripted token of `seq`.
    fn advance(&mut self, seq: SeqId) -> (reply: Result<TokenId, RuntimeError>)
        ensures
            reply == next_reply(old(self)@, seq),
            final(self)@ == advanced(old(self)@, seq),
    {
        match self.scripts.remove(&seq.0) {
            None => {
                assert(self@ =~= old(self)@);
                Err(RuntimeError::Exhausted(seq))
            },
            Some(mut script) => {
                let reply: Result<TokenId, RuntimeError> = if script.cursor < script.tokens.len() {
                    let token: TokenId = script.tokens[script.cursor];
                    script.cursor = script.cursor + 1;
                    Ok(token)
                } else {
                    Err(RuntimeError::Exhausted(seq))
                };
                self.scripts.insert(seq.0, script);
                assert(self@ =~= advanced(old(self)@, seq));
                reply
            },
        }
    }
}

impl ModelRuntime for MockRuntime {
    open spec fn prefills(
        pre: Self,
        seq: SeqId,
        prompt: Seq<TokenId>,
        reply: Result<TokenId, RuntimeError>,
        post: Self,
    ) -> bool {
        &&& reply == next_reply(pre@, seq)
        &&& post@ == advanced(started(pre@, seq), seq)
    }

    open spec fn decodes(
        pre: Self,
        seq: SeqId,
        last: TokenId,
        reply: Result<TokenId, RuntimeError>,
        post: Self,
    ) -> bool {
        if pre@.contains_key(seq.0) && !pre@[seq.0].prefilled {
            reply == Err::<TokenId, RuntimeError>(RuntimeError::NotPrefilled(seq)) && post@ == pre@
        } else {
            reply == next_reply(pre@, seq) && post@ == advanced(pre@, seq)
        }
    }

    fn prefill(&mut self, seq: SeqId, _prompt: &[TokenId]) -> (reply: Result<
        TokenId,
        RuntimeError,
    >) {
        if let Some(mut script) = self.scripts.remove(&seq.0) {
            script.prefilled = true;
            self.scripts.insert(seq.0, script);
        }
        assert(self@ =~= started(old(self)@, seq));
        self.advance(seq)
    }

    fn decode(&mut self, seq: SeqId, _last: TokenId) -> (reply: Result<TokenId, RuntimeError>) {
        let not_prefilled: bool = match self.scripts.get(&seq.0) {
            Some(script) => !script.prefilled,
            None => false,
        };
        if not_prefilled {
            Err(RuntimeError::NotPrefilled(seq))
        } else {
            self.advance(seq)
        }
    }
}

} // verus!
