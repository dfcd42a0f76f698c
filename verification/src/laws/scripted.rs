//! What the scripted runtime answers.
use vstd::prelude::*;

use crate::ids::{SeqId, TokenId};
use crate::mock::{MockRuntime, ScriptView};
use crate::runtime::{ModelRuntime, RuntimeError};

verus! {

/// Nothing changes for any sequence but `seq`.
pub open spec fn others_kept(
    before: Map<u64, ScriptView>,
    after: Map<u64, ScriptView>,
    seq: SeqId,
) -> bool {
    &&& forall|id: u64| #[trigger] after.contains_key(id) <==> before.contains_key(id)
    &&& forall|id: u64| #[trigger]
        before.contains_key(id) && id != seq.0 ==> after[id] == before[id]
}

/// **A prefill emits the next token of the script.** From then on the sequence is
/// prefilled. At the end of the script, or without one, there is nothing to emit.
pub proof fn law_prefill_emits_the_next_token(
    pre: MockRuntime,
    seq: SeqId,
    prompt: Seq<TokenId>,
    reply: Result<TokenId, RuntimeError>,
    post: MockRuntime,
)
    requires
        MockRuntime::prefills(pre, seq, prompt, reply, post),
    ensures
        others_kept(pre@, post@, seq),
        !pre@.contains_key(seq.0) ==> reply == Err::<TokenId, RuntimeError>(
            RuntimeError::Exhausted(seq),
        ),
        pre@.contains_key(seq.0) ==> {
            let (old_script, new_script) = (pre@[seq.0], post@[seq.0]);
            &&& new_script.tokens == old_script.tokens
            &&& new_script.prefilled
            &&& if old_script.cursor < old_script.tokens.len() {
                &&& reply == Ok::<TokenId, RuntimeError>(
                    old_script.tokens[old_script.cursor as int],
                )
                &&& new_script.cursor == old_script.cursor + 1
            } else {
                &&& reply == Err::<TokenId, RuntimeError>(RuntimeError::Exhausted(seq))
                &&& new_script.cursor == old_script.cursor
            }
        },
{
}

/// **A decode emits the next token of the script**, whatever the last one was. A
/// sequence that has a script and was not prefilled is refused. At the end of the
/// script, or without one, there is nothing to emit.
pub proof fn law_decode_emits_the_next_token(
    pre: MockRuntime,
    seq: SeqId,
    last: TokenId,
    reply: Result<TokenId, RuntimeError>,
    post: MockRuntime,
)
    requires
        MockRuntime::decodes(pre, seq, last, reply, post),
    ensures
        others_kept(pre@, post@, seq),
        !pre@.contains_key(seq.0) ==> reply == Err::<TokenId, RuntimeError>(
            RuntimeError::Exhausted(seq),
        ),
        pre@.contains_key(seq.0) ==> {
            let (old_script, new_script) = (pre@[seq.0], post@[seq.0]);
            &&& new_script.tokens == old_script.tokens
            &&& new_script.prefilled == old_script.prefilled
            &&& if !old_script.prefilled {
                &&& reply == Err::<TokenId, RuntimeError>(RuntimeError::NotPrefilled(seq))
                &&& new_script.cursor == old_script.cursor
            } else if old_script.cursor < old_script.tokens.len() {
                &&& reply == Ok::<TokenId, RuntimeError>(
                    old_script.tokens[old_script.cursor as int],
                )
                &&& new_script.cursor == old_script.cursor + 1
            } else {
                &&& reply == Err::<TokenId, RuntimeError>(RuntimeError::Exhausted(seq))
                &&& new_script.cursor == old_script.cursor
            }
        },
{
}

/// The calls for `seq` that take the runtime through `states`: a prefill, then
/// decodes.
pub open spec fn called(
    seq: SeqId,
    prompt: Seq<TokenId>,
    lasts: Seq<TokenId>,
    states: Seq<MockRuntime>,
    replies: Seq<Result<TokenId, RuntimeError>>,
    k: int,
) -> bool {
    if k == 0 {
        MockRuntime::prefills(states[0], seq, prompt, replies[0], states[1])
    } else {
        MockRuntime::decodes(states[k], seq, lasts[k], replies[k], states[k + 1])
    }
}

/// **A script is emitted in order.** A prefill and decodes after it answer a fresh
/// script token by token; when it is used up there is nothing to emit.
pub proof fn law_script_is_emitted_in_order(
    seq: SeqId,
    prompt: Seq<TokenId>,
    lasts: Seq<TokenId>,
    states: Seq<MockRuntime>,
    replies: Seq<Result<TokenId, RuntimeError>>,
    n: int,
)
    requires
        0 <= n < replies.len(),
        states.len() == replies.len() + 1,
        states[0]@.contains_key(seq.0),
        states[0]@[seq.0].cursor == 0,
        forall|k: int|
            0 <= k < replies.len() ==> #[trigger] called(seq, prompt, lasts, states, replies, k),
    ensures
        ({
            let tokens = states[0]@[seq.0].tokens;
            replies[n] == if n < tokens.len() {
                Ok(tokens[n])
            } else {
                Err(RuntimeError::Exhausted(seq))
            }
        }),
        states[n + 1]@.contains_key(seq.0),
        states[n + 1]@[seq.0].tokens == states[0]@[seq.0].tokens,
        states[n + 1]@[seq.0].prefilled,
        states[n + 1]@[seq.0].cursor == if n < states[0]@[seq.0].tokens.len() {
            (n + 1) as nat
        } else {
            states[0]@[seq.0].tokens.len()
        },
    decreases n,
{
    assert(called(seq, prompt, lasts, states, replies, n));
    if n == 0 {
        law_prefill_emits_the_next_token(states[0], seq, prompt, replies[0], states[1]);
    } else {
        law_script_is_emitted_in_order(seq, prompt, lasts, states, replies, n - 1);
        law_decode_emits_the_next_token(states[n], seq, lasts[n], replies[n], states[n + 1]);
    }
    assert(states[n]@.contains_key(seq.0));
    assert(states[n + 1]@.contains_key(seq.0));
}

} // verus!
