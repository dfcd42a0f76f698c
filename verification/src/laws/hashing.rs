//! Prompts that differ in one token have different hashes from there on.
//!
//! The hash folds bytes into a 64-bit state: it exchanges the low byte, then
//! multiplies by an odd prime. Multiplying loses nothing, and the prime is so
//! far from a power of 256 that the four bytes of a token cannot cancel.
use vstd::prelude::*;

use crate::block::{self, FNV_PRIME};
use crate::ids::TokenId;

verus! {

/// Number of states.
pub open spec fn states() -> int {
    0x1_0000_0000_0000_0000
}

/// The multiplier.
pub open spec fn prime() -> int {
    0x0000_0100_0000_01b3
}

/// Folding a byte in exchanges the low byte of the state for another and
/// multiplies. Returns the state before it is multiplied, and how often the
/// product wraps around.
proof fn lemma_fold(acc: u64, byte: u8) -> (folded: (u64, int))
    ensures
        folded.0 == acc ^ (byte as u64),
        folded.0 / 256 == acc / 256,
        block::fnv1a_step(acc, byte) == folded.0 * prime() - folded.1 * states(),
{
    reveal(block::fnv1a_step);
    let mixed = acc ^ (byte as u64);
    assert(mixed / 256 == acc / 256) by (bit_vector)
        requires
            mixed == acc ^ (byte as u64),
    ;
    assert(FNV_PRIME == prime());
    assert(block::fnv1a_step(acc, byte) == (mixed * prime()) % states());
    (mixed, (mixed * prime()) / states())
}

/// Multiplying by the prime loses nothing: it has an inverse.
proof fn lemma_multiplying_loses_nothing(x: u64, y: u64, wraps: int)
    requires
        x * prime() - y * prime() == wraps * states(),
    ensures
        x == y,
{
    let inverse: int = 0xce96_5057_aff6_957b;
    let excess: int = 887285111055;
    let d = x - y;
    assert(prime() * inverse == 1 + excess * states());
    assert(d * prime() == wraps * states());
    assert(d + d * (excess * states()) == wraps * (inverse * states())) by (nonlinear_arith)
        requires
            d * prime() == wraps * states(),
            prime() * inverse == 1 + excess * states(),
    ;
    let times = wraps * inverse - d * excess;
    assert(d == times * states()) by (nonlinear_arith)
        requires
            d + d * (excess * states()) == wraps * (inverse * states()),
            times == wraps * inverse - d * excess,
    ;
    assert(times == 0);
}

/// The same byte takes different states to different states.
proof fn lemma_step_is_injective(a: u64, b: u64, byte: u8)
    requires
        block::fnv1a_step(a, byte) == block::fnv1a_step(b, byte),
    ensures
        a == b,
{
    let x = lemma_fold(a, byte);
    let y = lemma_fold(b, byte);
    let wraps = x.1 - y.1;
    assert(x.0 * prime() - y.0 * prime() == wraps * states());
    lemma_multiplying_loses_nothing(x.0, y.0, wraps);
    let (p, q) = (x.0, y.0);
    assert(a == b) by (bit_vector)
        requires
            p == a ^ (byte as u64),
            q == b ^ (byte as u64),
            p == q,
    ;
}

/// A difference in the low byte does not vanish in one step.
proof fn lemma_one_step_keeps(d: int, e: int, wraps: int)
    requires
        -255 <= d <= 255,
        -510 <= e <= 510,
        d * prime() + e == wraps * states(),
    ensures
        d == 0,
{
    let low = 435 * d + e;
    assert(low == 0x100_0000_0000 * (wraps * 0x100_0000 - d));
}

/// Nor in two.
proof fn lemma_two_steps_keep(d: int, e: int, f: int, wraps: int)
    requires
        -255 <= d <= 255,
        -510 <= e <= 510,
        -510 <= f <= 510,
        d * (prime() * prime()) + e * prime() + f == wraps * states(),
    ensures
        d == 0,
{
    // The square of the prime, less its multiple of the number of states.
    let rest: int = 870int * 0x100_0000_0000int + 189225int;
    assert(prime() * prime() == 65536 * states() + rest);
    let times = wraps - 65536 * d;
    let (p, m) = (prime(), states());
    assert(d * rest + e * p + f == times * m) by (nonlinear_arith)
        requires
            d * (p * p) + e * p + f == wraps * m,
            p * p == 65536 * m + rest,
            times == wraps - 65536 * d,
    ;
    let low = 189225 * d + 435 * e + f;
    let high = 870 * d + e;
    assert(low == 0x100_0000_0000 * (times * 0x100_0000 - high)) by (nonlinear_arith)
        requires
            d * rest + e * p + f == times * m,
            rest == 870 * 0x100_0000_0000 + 189225,
            p == 0x100_0000_0000 + 435,
            m == 0x100_0000_0000 * 0x100_0000,
            low == 189225 * d + 435 * e + f,
            high == 870 * d + e,
    ;
    assert(low == 0);
    assert(high == 0x100_0000 * times);
    assert(high == 0);
}

/// Nor in three.
proof fn lemma_three_steps_keep(d: int, e: int, f: int, g: int, wraps: int)
    requires
        -255 <= d <= 255,
        -510 <= e <= 510,
        -510 <= f <= 510,
        -510 <= g <= 510,
        d * (prime() * prime() * prime()) + e * (prime() * prime()) + f * prime() + g == wraps
            * states(),
    ensures
        d == 0,
{
    let square: int = 870int * 0x100_0000_0000int + 189225int;
    let cube: int = 567675int * 0x100_0000_0000int + 82312875int;
    assert(prime() * prime() == 65536 * states() + square);
    assert(prime() * prime() * prime() == 72057594123452416 * states() + cube);
    let times = wraps - 72057594123452416 * d - 65536 * e;
    let (p, m) = (prime(), states());
    assert(d * cube + e * square + f * p + g == times * m) by (nonlinear_arith)
        requires
            d * (p * p * p) + e * (p * p) + f * p + g == wraps * m,
            p * p == 65536 * m + square,
            p * p * p == 72057594123452416 * m + cube,
            times == wraps - 72057594123452416 * d - 65536 * e,
    ;
    let low = 82312875 * d + 189225 * e + 435 * f + g;
    let high = 567675 * d + 870 * e + f;
    assert(low == 0x100_0000_0000 * (times * 0x100_0000 - high)) by (nonlinear_arith)
        requires
            d * cube + e * square + f * p + g == times * m,
            square == 870 * 0x100_0000_0000 + 189225,
            cube == 567675 * 0x100_0000_0000 + 82312875,
            p == 0x100_0000_0000 + 435,
            m == 0x100_0000_0000 * 0x100_0000,
            low == 82312875 * d + 189225 * e + 435 * f + g,
            high == 567675 * d + 870 * e + f,
    ;
    assert(low == 0);
    assert(-1 <= d <= 1);
    assert(high == 0x100_0000 * times);
    assert(high == 0);
}

/// Folding two bytes into one state: how far apart the states are then.
proof fn lemma_same_high_bytes(x: u64, y: u64)
    requires
        x / 256 == y / 256,
    ensures
        -255 <= x - y <= 255,
{
}

/// Different bytes take a state to different states.
proof fn lemma_bytes_differ(acc: u64, a: u8, b: u8)
    requires
        acc ^ (a as u64) == acc ^ (b as u64),
    ensures
        a == b,
{
    assert(a == b) by (bit_vector)
        requires
            acc ^ (a as u64) == acc ^ (b as u64),
    ;
}

/// The four bytes of a token cannot cancel: from the same state, different bytes
/// lead to different states.
proof fn lemma_four_bytes_are_injective(acc: u64, b: Seq<u8>, c: Seq<u8>)
    requires
        b.len() == 4,
        c.len() == 4,
        block::fnv1a_step(
            block::fnv1a_step(block::fnv1a_step(block::fnv1a_step(acc, b[0]), b[1]), b[2]),
            b[3],
        ) == block::fnv1a_step(
            block::fnv1a_step(block::fnv1a_step(block::fnv1a_step(acc, c[0]), c[1]), c[2]),
            c[3],
        ),
    ensures
        b == c,
{
    let p = prime();
    let m = states();
    let x0 = lemma_fold(acc, b[0]);
    let y0 = lemma_fold(acc, c[0]);
    let (f0, g0) = (block::fnv1a_step(acc, b[0]), block::fnv1a_step(acc, c[0]));
    let x1 = lemma_fold(f0, b[1]);
    let y1 = lemma_fold(g0, c[1]);
    let (f1, g1) = (block::fnv1a_step(f0, b[1]), block::fnv1a_step(g0, c[1]));
    let x2 = lemma_fold(f1, b[2]);
    let y2 = lemma_fold(g1, c[2]);
    let (f2, g2) = (block::fnv1a_step(f1, b[2]), block::fnv1a_step(g1, c[2]));
    let x3 = lemma_fold(f2, b[3]);
    let y3 = lemma_fold(g2, c[3]);
    lemma_multiplying_loses_nothing(x3.0, y3.0, x3.1 - y3.1);
    // The differences before each multiplication, and what the new bytes add.
    let d0 = x0.0 - y0.0;
    let d1 = x1.0 - y1.0;
    let d2 = x2.0 - y2.0;
    let e1 = (x1.0 - f0) - (y1.0 - g0);
    let e2 = (x2.0 - f1) - (y2.0 - g1);
    let e3 = (x3.0 - f2) - (y3.0 - g2);
    let (w0, w1, w2) = (x0.1 - y0.1, x1.1 - y1.1, x2.1 - y2.1);
    assert(d1 == d0 * p + e1 - w0 * m);
    assert(d2 == d1 * p + e2 - w1 * m);
    assert(0 == d2 * p + e3 - w2 * m);
    lemma_same_high_bytes(x0.0, y0.0);
    let last = w1 * p + w2;
    assert(d1 * (p * p) + e2 * p + e3 == last * m) by (nonlinear_arith)
        requires
            d2 == d1 * p + e2 - w1 * m,
            0 == d2 * p + e3 - w2 * m,
            last == w1 * p + w2,
    ;
    let all = w0 * (p * p) + last;
    assert(d0 * (p * p * p) + e1 * (p * p) + e2 * p + e3 == all * m) by (nonlinear_arith)
        requires
            d1 == d0 * p + e1 - w0 * m,
            d1 * (p * p) + e2 * p + e3 == last * m,
            all == w0 * (p * p) + last,
    ;
    lemma_three_steps_keep(d0, e1, e2, e3, all);
    lemma_bytes_differ(acc, b[0], c[0]);
    lemma_same_high_bytes(x1.0, y1.0);
    lemma_two_steps_keep(d1, e2, e3, last);
    lemma_bytes_differ(f0, b[1], c[1]);
    lemma_same_high_bytes(x2.0, y2.0);
    lemma_one_step_keeps(d2, e3, w2);
    lemma_bytes_differ(f1, b[2], c[2]);
    lemma_bytes_differ(f2, b[3], c[3]);
    assert(b =~= c);
}

/// The hash of a prefix as a state.
pub open spec fn state_after(tokens: Seq<TokenId>) -> u64 {
    block::prefix_hash(tokens).0
}

/// The same token takes different states to different states.
proof fn lemma_same_token(a: Seq<TokenId>, b: Seq<TokenId>, token: TokenId)
    requires
        state_after(a.push(token)) == state_after(b.push(token)),
    ensures
        state_after(a) == state_after(b),
{
    let t = block::le_bytes(token);
    block::lemma_hash_token(a, token);
    block::lemma_hash_token(b, token);
    let (x, y) = (state_after(a), state_after(b));
    let (x0, y0) = (block::fnv1a_step(x, t[0]), block::fnv1a_step(y, t[0]));
    let (x1, y1) = (block::fnv1a_step(x0, t[1]), block::fnv1a_step(y0, t[1]));
    let (x2, y2) = (block::fnv1a_step(x1, t[2]), block::fnv1a_step(y1, t[2]));
    lemma_step_is_injective(x2, y2, t[3]);
    lemma_step_is_injective(x1, y1, t[2]);
    lemma_step_is_injective(x0, y0, t[1]);
    lemma_step_is_injective(x, y, t[0]);
}

/// Different tokens take a state to different states.
proof fn lemma_different_tokens(tokens: Seq<TokenId>, s: TokenId, t: TokenId)
    requires
        state_after(tokens.push(s)) == state_after(tokens.push(t)),
    ensures
        s == t,
{
    let (b, c) = (block::le_bytes(s), block::le_bytes(t));
    block::lemma_hash_token(tokens, s);
    block::lemma_hash_token(tokens, t);
    lemma_four_bytes_are_injective(state_after(tokens), b, c);
    assert(b[0] == c[0] && b[1] == c[1] && b[2] == c[2] && b[3] == c[3]);
    assert(s.0 == b[0] + 256 * b[1] + 65536 * b[2] + 16777216 * b[3]);
    assert(t.0 == c[0] + 256 * c[1] + 65536 * c[2] + 16777216 * c[3]);
}

/// **One different token changes the hash.** Two prefixes of the same length that
/// differ in exactly one token have different hashes.
pub proof fn law_one_token_changes_the_hash(a: Seq<TokenId>, b: Seq<TokenId>, pos: int)
    requires
        a.len() == b.len(),
        0 <= pos < a.len(),
        a[pos] != b[pos],
        forall|i: int| 0 <= i < a.len() && i != pos ==> #[trigger] a[i] == b[i],
    ensures
        block::prefix_hash(a) != block::prefix_hash(b),
    decreases a.len(),
{
    let (x, y) = (a.drop_last(), b.drop_last());
    let last = a.len() - 1;
    assert(a =~= x.push(a[last]));
    assert(b =~= y.push(b[last]));
    if pos == last {
        assert forall|i: int| 0 <= i < x.len() implies x[i] == y[i] by {
            assert(a[i] == b[i]);
        }
        assert(x =~= y);
        if block::prefix_hash(a) == block::prefix_hash(b) {
            lemma_different_tokens(x, a[last], b[last]);
        }
    } else {
        assert forall|i: int| 0 <= i < x.len() && i != pos implies #[trigger] x[i] == y[i] by {
            assert(a[i] == b[i]);
        }
        law_one_token_changes_the_hash(x, y, pos);
        assert(a[last] == b[last]);
        if block::prefix_hash(a) == block::prefix_hash(b) {
            lemma_same_token(x, y, a[last]);
        }
    }
}

/// **One different token changes every later block hash.** If two prompts of the
/// same length differ in exactly one token, every complete block from that
/// token's block on has a different hash.
pub proof fn law_one_token_changes_every_later_block(
    a: Seq<TokenId>,
    b: Seq<TokenId>,
    pos: int,
    index: int,
)
    requires
        a.len() == b.len(),
        0 <= pos < a.len(),
        a[pos] != b[pos],
        forall|i: int| 0 <= i < a.len() && i != pos ==> #[trigger] a[i] == b[i],
        pos / block::BLOCK_SIZE as int <= index < block::prefix_hashes(a).len(),
    ensures
        block::prefix_hashes(a)[index] != block::prefix_hashes(b)[index],
{
    let end = (index + 1) * block::BLOCK_SIZE;
    let (x, y) = (a.take(end), b.take(end));
    assert(x[pos] == a[pos] && y[pos] == b[pos]);
    assert forall|i: int| 0 <= i < x.len() && i != pos implies #[trigger] x[i] == y[i] by {
        assert(a[i] == b[i]);
    }
    law_one_token_changes_the_hash(x, y, pos);
}

} // verus!
