use tessera::{
    BlockAllocator, Engine, EngineConfig, Fcfs, MockRuntime, SamplingParams, SeqId, Sequence,
    TokenId, BLOCK_SIZE,
};

const EOS: TokenId = TokenId(0);

/// `blocks` complete blocks and `extra` tokens; from token `split` on they differ
/// by `seed`.
fn prompt(blocks: usize, extra: usize, split: usize, seed: u32) -> Vec<TokenId> {
    (0..blocks * BLOCK_SIZE + extra)
        .map(|i| TokenId(1 + i as u32 + if i < split { 0 } else { seed }))
        .collect()
}

/// A sequence that mapped its prompt and one generated token, and how many blocks
/// it shared.
fn mapped(id: u64, prompt: Vec<TokenId>, alloc: &mut BlockAllocator) -> (Sequence, usize) {
    let mut seq = Sequence::new(SeqId(id), prompt, SamplingParams::default(), 0);
    let shared = seq.share_prefix(alloc).unwrap();
    seq.push_output(TokenId(900 + id as u32));
    seq.reserve(alloc).unwrap();
    (seq, shared)
}

/// Every block that two places in the tables hold lies within both prompts, which
/// agree up to its end; every block past a prompt's complete blocks has one
/// reference.
fn assert_only_prefixes_shared(seqs: &[&Sequence], alloc: &BlockAllocator) {
    for (i, a) in seqs.iter().enumerate() {
        for (k, block) in a.block_table().iter().enumerate() {
            if k >= a.prompt_tokens().len() / BLOCK_SIZE {
                assert_eq!(alloc.refcount(*block), 1);
            }
            for (j, b) in seqs.iter().enumerate() {
                for (m, other) in b.block_table().iter().enumerate() {
                    if (i, k) != (j, m) && block == other {
                        let a_end = (k + 1) * BLOCK_SIZE;
                        let b_end = (m + 1) * BLOCK_SIZE;
                        assert!(a_end <= a.prompt_tokens().len());
                        assert!(b_end <= b.prompt_tokens().len());
                        assert_eq!(a.prompt_tokens()[..a_end], b.prompt_tokens()[..b_end]);
                    }
                }
            }
        }
    }
}

#[test]
fn sequences_share_only_equal_prefixes_as_they_come_and_go() {
    let mut alloc = BlockAllocator::new(16);

    let (mut a, a_shared) = mapped(1, prompt(2, 8, usize::MAX, 0), &mut alloc);
    assert_eq!(a_shared, 0);
    let (b, b_shared) = mapped(2, prompt(3, 0, BLOCK_SIZE, 5000), &mut alloc);
    assert_eq!(b_shared, 1);
    let (mut c, c_shared) = mapped(3, prompt(2, 3, usize::MAX, 0), &mut alloc);
    assert_eq!(c_shared, 2);

    assert_eq!(a.block_table()[0], b.block_table()[0]);
    assert_ne!(a.block_table()[1], b.block_table()[1]);
    assert_eq!(a.block_table()[..2], c.block_table()[..2]);
    assert_eq!(alloc.refcount(a.block_table()[0]), 3);
    assert_eq!(alloc.refcount(a.block_table()[1]), 2);
    assert_only_prefixes_shared(&[&a, &b, &c], &alloc);

    // What `a` held alone goes to `d`; what others hold stays theirs.
    let a_tail = a.block_table()[2];
    a.free_blocks(&mut alloc);
    assert_only_prefixes_shared(&[&b, &c], &alloc);
    let (d, d_shared) = mapped(4, prompt(2, 0, 2 * BLOCK_SIZE - 1, 7000), &mut alloc);
    assert_eq!(d_shared, 1);
    assert_eq!(d.block_table()[1], a_tail);
    assert_only_prefixes_shared(&[&b, &c, &d], &alloc);

    // The second block of `a` and `c` is gone once both are.
    c.free_blocks(&mut alloc);
    let (e, e_shared) = mapped(5, prompt(2, 8, usize::MAX, 0), &mut alloc);
    assert_eq!(e_shared, 1);
    assert_only_prefixes_shared(&[&b, &d, &e], &alloc);
}

#[test]
fn generated_tokens_lie_in_private_blocks() {
    let mut alloc = BlockAllocator::new(16);
    let (mut a, _) = mapped(1, prompt(1, 9, usize::MAX, 0), &mut alloc);
    let (mut b, shared) = mapped(2, prompt(1, 9, usize::MAX, 0), &mut alloc);
    assert_eq!(shared, 1);
    for i in 0..2 * BLOCK_SIZE as u32 {
        a.push_output(TokenId(1000 + i));
        a.reserve(&mut alloc).unwrap();
        b.push_output(TokenId(1000 + i));
        b.reserve(&mut alloc).unwrap();
    }
    for seq in [&a, &b] {
        for pos in seq.prompt_tokens().len()..seq.len() {
            let (block, offset) = seq.locate(pos).unwrap();
            assert_eq!(block, seq.block_table()[pos / BLOCK_SIZE]);
            assert_eq!(offset, pos % BLOCK_SIZE);
            assert_eq!(alloc.refcount(block), 1);
        }
    }
    // The first block is the only one in common, although the outputs are equal.
    assert_eq!(a.block_table()[0], b.block_table()[0]);
    for block in &a.block_table()[1..] {
        assert!(!b.block_table().contains(block));
    }
}

#[test]
fn engine_holds_a_common_prefix_once() {
    let mut rt = MockRuntime::new();
    for id in 1..=3u64 {
        rt.script(SeqId(id), vec![TokenId(7), TokenId(8), EOS]);
    }
    let mut engine = Engine::new(
        BlockAllocator::new(32),
        rt,
        Fcfs,
        EngineConfig {
            eos_token: Some(EOS),
            ..Default::default()
        },
    );
    // Two equal prompts, and one that leaves them after the first block.
    for (id, split) in [(1u64, usize::MAX), (2, usize::MAX), (3, BLOCK_SIZE)] {
        engine.submit(Sequence::new(
            SeqId(id),
            prompt(2, 0, split, 5000),
            SamplingParams::default(),
            0,
        ));
    }
    engine.step().unwrap();
    // One first block, two second ones, and one of its own for each output.
    assert_eq!(engine.metrics().blocks_shared, 3);
    assert_eq!(engine.free_blocks(), 32 - (1 + 2 + 3));
    engine.run_to_idle().unwrap();
    assert_eq!(engine.free_blocks(), 32);
    for seq in engine.finished() {
        assert_eq!(seq.output_tokens(), &[TokenId(7), TokenId(8)]);
    }
}
