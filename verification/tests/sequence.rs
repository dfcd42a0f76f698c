use std::time::{Duration, Instant};

use tessera::{
    AllocError, BlockAllocator, SamplingParams, SeqId, SeqState, Sequence, TokenId, BLOCK_SIZE,
};

fn tokens(n: usize) -> Vec<TokenId> {
    (0..n as u32).map(TokenId).collect()
}

#[test]
fn locate_maps_position_to_block_and_offset() {
    let mut alloc = BlockAllocator::new(8);
    let mut seq = Sequence::new(
        SeqId(1),
        tokens(BLOCK_SIZE + 3),
        SamplingParams::default(),
        0,
    );
    seq.reserve(&mut alloc).unwrap();
    assert_eq!(seq.block_table().len(), 2);

    assert_eq!(seq.locate(0), Some((seq.block_table()[0], 0)));
    assert_eq!(seq.locate(BLOCK_SIZE), Some((seq.block_table()[1], 0)));
    assert_eq!(seq.locate(BLOCK_SIZE + 2), Some((seq.block_table()[1], 2)));
    assert_eq!(seq.locate(2 * BLOCK_SIZE), None);
}

#[test]
fn allocate_grow_free_round_trip() {
    let total = 16;
    let mut alloc = BlockAllocator::new(total);
    let mut seq = Sequence::new(SeqId(7), tokens(BLOCK_SIZE), SamplingParams::default(), 0);

    // A one-block prompt reserves exactly one block.
    assert_eq!(seq.reserve(&mut alloc).unwrap(), 1);
    assert_eq!(seq.block_table().len(), 1);
    assert_eq!(alloc.allocated_blocks(), 1);

    // Generate a block's worth of tokens, then grow by one block.
    for _ in 0..BLOCK_SIZE {
        seq.push_output(TokenId(99));
    }
    assert_eq!(seq.blocks_needed(seq.len()), 1);
    assert_eq!(seq.reserve(&mut alloc).unwrap(), 1);
    assert_eq!(seq.block_table().len(), 2);
    assert_eq!(alloc.allocated_blocks(), 2);

    // Freeing returns every block to the pool.
    seq.free_blocks(&mut alloc);
    assert!(seq.block_table().is_empty());
    assert_eq!(alloc.free_blocks(), total);
    assert_eq!(alloc.allocated_blocks(), 0);
}

#[test]
fn reserve_is_all_or_nothing_on_exhaustion() {
    let mut alloc = BlockAllocator::new(1);
    let mut seq = Sequence::new(
        SeqId(1),
        tokens(BLOCK_SIZE * 3),
        SamplingParams::default(),
        0,
    );

    assert_eq!(seq.blocks_needed(seq.len()), 3);
    assert_eq!(seq.reserve(&mut alloc), Err(AllocError::Exhausted));
    assert!(seq.block_table().is_empty());
    assert_eq!(
        alloc.free_blocks(),
        1,
        "no blocks consumed on a failed reserve"
    );
}

#[test]
fn first_token_time_recorded_once() {
    let mut seq = Sequence::new(SeqId(1), tokens(2), SamplingParams::default(), 0);
    assert!(seq.first_token_at().is_none());

    seq.push_output(TokenId(5));
    let first = seq.first_token_at().unwrap();
    seq.push_output(TokenId(6));

    assert_eq!(seq.first_token_at(), Some(first));
    assert_eq!(seq.output_tokens().len(), 2);
    assert_eq!(seq.len(), 4);
}

#[test]
fn defaults_sample_at_one_without_a_limit() {
    let params = SamplingParams::default();
    assert_eq!(f32::from_bits(params.temperature_bits), 1.0);
    assert_eq!(f32::from_bits(params.top_p_bits), 1.0);
    assert_eq!(params.max_tokens, 0);
}

#[test]
fn a_new_sequence_waits_without_output_or_blocks() {
    let seq = Sequence::new(SeqId(3), tokens(5), SamplingParams::default(), 4);
    assert_eq!(seq.id(), SeqId(3));
    assert_eq!(seq.state(), SeqState::Waiting);
    assert_eq!(seq.prompt_tokens(), tokens(5).as_slice());
    assert!(seq.output_tokens().is_empty());
    assert!(seq.block_table().is_empty());
    assert_eq!(seq.priority(), 4);
    assert_eq!(seq.sampling(), SamplingParams::default());
    assert_eq!(seq.len(), 5);
    assert!(!seq.is_empty());
    assert!(Sequence::new(SeqId(4), tokens(0), SamplingParams::default(), 0).is_empty());
}

#[test]
fn later_sequences_do_not_arrive_earlier() {
    let first = Sequence::new(SeqId(1), tokens(1), SamplingParams::default(), 0);
    let second = Sequence::new(SeqId(2), tokens(1), SamplingParams::default(), 0);
    assert!(first.arrival() <= second.arrival());
}

#[test]
fn a_given_arrival_and_token_time_are_kept() {
    let now = Instant::now();
    let later = now + Duration::from_secs(2);
    let mut seq = Sequence::arriving_at(SeqId(1), tokens(1), SamplingParams::default(), 0, now);
    assert_eq!(seq.arrival(), now);
    seq.push_output_at(TokenId(8), later);
    seq.push_output_at(TokenId(9), now);
    assert_eq!(seq.first_token_at(), Some(later));
    assert_eq!(seq.output_tokens(), &[TokenId(8), TokenId(9)]);
}

#[test]
fn footprints_count_the_next_token() {
    let mut alloc = BlockAllocator::new(8);
    let mut seq = Sequence::new(SeqId(1), tokens(BLOCK_SIZE), SamplingParams::default(), 0);
    assert_eq!(seq.footprint_after_next(), 2);
    assert_eq!(seq.blocks_needed_for_next(), 2);
    seq.reserve(&mut alloc).unwrap();
    assert_eq!(seq.blocks_needed_for_next(), 1);
    assert_eq!(seq.blocks_needed(BLOCK_SIZE), 0);
    assert_eq!(seq.footprint_after_next(), 2);

    let short = Sequence::new(SeqId(2), tokens(BLOCK_SIZE - 1), SamplingParams::default(), 0);
    assert_eq!(short.footprint_after_next(), 1);
    let empty = Sequence::new(SeqId(3), tokens(0), SamplingParams::default(), 0);
    assert_eq!(empty.footprint_after_next(), 1);
}

#[test]
fn every_token_of_a_reserved_sequence_has_a_place() {
    let mut alloc = BlockAllocator::new(8);
    let mut seq = Sequence::new(SeqId(1), tokens(37), SamplingParams::default(), 0);
    seq.reserve(&mut alloc).unwrap();
    for pos in 0..37 {
        let (block, offset) = seq.locate(pos).unwrap();
        assert_eq!(block, seq.block_table()[pos / BLOCK_SIZE]);
        assert_eq!(offset, pos % BLOCK_SIZE);
    }
    assert_eq!(seq.reserve(&mut alloc), Ok(0));
}

#[test]
fn sharing_maps_complete_prompt_blocks_only() {
    let mut alloc = BlockAllocator::new(8);
    let prompt = tokens(2 * BLOCK_SIZE + 5);
    let mut first = Sequence::new(SeqId(1), prompt.clone(), SamplingParams::default(), 0);
    let mut second = Sequence::new(SeqId(2), prompt, SamplingParams::default(), 0);

    assert_eq!(first.share_prefix(&mut alloc), Ok(0));
    assert_eq!(first.block_table().len(), 2);
    assert_eq!(alloc.free_blocks(), 6);

    assert_eq!(second.share_prefix(&mut alloc), Ok(2));
    assert_eq!(second.block_table(), first.block_table());
    assert_eq!(alloc.free_blocks(), 6);
    assert_eq!(alloc.refcount(first.block_table()[0]), 2);

    // What follows the shared prefix is private.
    assert_eq!(second.reserve(&mut alloc), Ok(1));
    assert_eq!(alloc.free_blocks(), 5);

    first.free_blocks(&mut alloc);
    assert_eq!(alloc.free_blocks(), 5);
    second.free_blocks(&mut alloc);
    assert_eq!(alloc.free_blocks(), 8);
}

#[test]
fn sharing_stops_where_prompts_diverge() {
    let mut alloc = BlockAllocator::new(8);
    let mut other = tokens(3 * BLOCK_SIZE);
    other[BLOCK_SIZE + 1] = TokenId(999);
    let mut first = Sequence::new(
        SeqId(1),
        tokens(3 * BLOCK_SIZE),
        SamplingParams::default(),
        0,
    );
    let mut second = Sequence::new(SeqId(2), other, SamplingParams::default(), 0);
    assert_eq!(first.share_prefix(&mut alloc), Ok(0));
    assert_eq!(second.share_prefix(&mut alloc), Ok(1));
    assert_eq!(second.block_table()[0], first.block_table()[0]);
    assert_ne!(second.block_table()[1], first.block_table()[1]);
    assert_ne!(second.block_table()[2], first.block_table()[2]);
    assert_eq!(alloc.free_blocks(), 3);
}

#[test]
fn sharing_keeps_what_it_mapped_when_the_pool_runs_out() {
    let mut alloc = BlockAllocator::new(1);
    let mut seq = Sequence::new(
        SeqId(1),
        tokens(2 * BLOCK_SIZE),
        SamplingParams::default(),
        0,
    );
    assert_eq!(seq.share_prefix(&mut alloc), Err(AllocError::Exhausted));
    assert_eq!(seq.block_table().len(), 1);
    seq.free_blocks(&mut alloc);
    assert_eq!(alloc.free_blocks(), 1);
}

#[test]
fn states_are_set() {
    let mut seq = Sequence::new(SeqId(1), tokens(1), SamplingParams::default(), 0);
    for state in [SeqState::Running, SeqState::Preempted, SeqState::Finished] {
        seq.set_state(state);
        assert_eq!(seq.state(), state);
    }
}

fn sampling(temperature: f32, top_p: f32, max_tokens: usize) -> SamplingParams {
    SamplingParams {
        temperature_bits: temperature.to_bits(),
        top_p_bits: top_p.to_bits(),
        max_tokens,
    }
}

#[test]
fn sampling_numbers_compare_as_numbers() {
    let numbers = [
        0.0,
        -0.0,
        1.0,
        -1.0,
        0.5,
        f32::MIN_POSITIVE,
        f32::from_bits(1),
        f32::from_bits(0x8000_0001),
        f32::MAX,
        f32::INFINITY,
        f32::NEG_INFINITY,
        f32::NAN,
        -f32::NAN,
        f32::from_bits(0x7f80_0001),
        f32::from_bits(0xffff_ffff),
    ];
    for a in numbers {
        for b in numbers {
            assert_eq!(sampling(a, 1.0, 3) == sampling(b, 1.0, 3), a == b);
            assert_eq!(sampling(1.0, a, 3) == sampling(1.0, b, 3), a == b);
        }
    }
    assert_ne!(sampling(1.0, 1.0, 3), sampling(1.0, 1.0, 4));
    assert_eq!(SamplingParams::default(), sampling(1.0, 1.0, 0));
}
