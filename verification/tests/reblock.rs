use diode::packet::Packet;
use diode::receive::reblock::{Block, Reblock};

fn packet(block: u8, symbol: u32) -> Packet {
    Packet { block, symbol, data: vec![block, symbol as u8] }
}

fn numbers(blocks: &[Block]) -> Vec<u8> {
    blocks.iter().map(|b| b.number).collect()
}

fn symbols(block: &Block) -> Vec<u32> {
    block.packets.iter().map(|p| p.symbol).collect()
}

/// A fixed permutation of `0..len`, different for each seed.
fn shuffled(len: u32, seed: u64) -> Vec<u32> {
    let mut order: Vec<u32> = (0..len).collect();
    let mut state = seed.wrapping_mul(6364136223846793005).wrapping_add(1442695040888963407);
    for i in (1..order.len()).rev() {
        state = state.wrapping_mul(6364136223846793005).wrapping_add(1442695040888963407);
        let j = (state >> 33) as usize % (i + 1);
        order.swap(i, j);
    }
    order
}

#[test]
fn new_stage_expects_the_first_block() {
    let stage = Reblock::new(7, 3, 500);
    assert_eq!(stage.expected(), 7);
    assert_eq!(stage.gathered(7), 0);
    assert_eq!(stage.gathered(8), 0);
}

#[test]
fn block_is_released_when_complete() {
    let mut stage = Reblock::new(0, 3, 500);
    assert!(stage.push(packet(0, 0), 10).is_empty());
    assert!(stage.push(packet(0, 1), 11).is_empty());
    assert_eq!(stage.gathered(0), 2);
    let released = stage.push(packet(0, 2), 12);
    assert_eq!(numbers(&released), vec![0]);
    assert_eq!(released[0].packets, vec![packet(0, 0), packet(0, 1), packet(0, 2)]);
    assert_eq!(stage.expected(), 1);
    assert_eq!(stage.gathered(0), 0);
}

#[test]
fn randomly_ordered_batches_group_into_one_block() {
    let count = 41u32;
    let mut in_order = Reblock::new(5, u64::from(count), 500);
    let released = in_order.push_batch((0..count).map(|s| packet(5, s)).collect(), 0);
    assert_eq!(numbers(&released), vec![5]);
    let mut expected = symbols(&released[0]);
    expected.sort();

    for seed in 0..20u64 {
        let order = shuffled(count, seed);
        let mut stage = Reblock::new(5, u64::from(count), 500);
        let mut released = Vec::new();
        for (i, batch) in order.chunks(1 + seed as usize % 7).enumerate() {
            let packets = batch.iter().map(|s| packet(5, *s)).collect();
            released.extend(stage.push_batch(packets, i as u64));
        }
        assert_eq!(numbers(&released), vec![5]);
        assert_eq!(symbols(&released[0]), order);
        let mut got = symbols(&released[0]);
        got.sort();
        assert_eq!(got, expected);
        assert_eq!(stage.expected(), 6);
    }
}

#[test]
fn interleaved_blocks_are_kept_apart() {
    let mut stage = Reblock::new(0, 2, 500);
    assert!(stage.push(packet(1, 0), 0).is_empty());
    assert!(stage.push(packet(0, 0), 0).is_empty());
    assert_eq!(stage.gathered(0), 1);
    assert_eq!(stage.gathered(1), 1);
    let released = stage.push(packet(0, 1), 0);
    assert_eq!(numbers(&released), vec![0]);
    assert_eq!(symbols(&released[0]), vec![0, 1]);
    let released = stage.push(packet(1, 1), 0);
    assert_eq!(numbers(&released), vec![1]);
    assert_eq!(symbols(&released[0]), vec![0, 1]);
    assert_eq!(stage.expected(), 2);
}

#[test]
fn block_short_of_packets_is_released_after_the_timeout() {
    let mut stage = Reblock::new(0, 3, 500);
    assert!(stage.push(packet(0, 0), 100).is_empty());
    assert!(stage.push(packet(0, 1), 400).is_empty());
    assert!(stage.flush(599).is_empty());
    assert_eq!(stage.expected(), 0);
    let released = stage.flush(600);
    assert_eq!(numbers(&released), vec![0]);
    assert_eq!(symbols(&released[0]), vec![0, 1]);
    assert_eq!(stage.expected(), 1);
    // the next block's packets are taken in
    assert!(stage.push(packet(1, 0), 601).is_empty());
    assert_eq!(stage.gathered(1), 1);
    assert!(stage.push(packet(1, 1), 602).is_empty());
    let released = stage.push(packet(1, 2), 603);
    assert_eq!(numbers(&released), vec![1]);
    assert_eq!(stage.expected(), 2);
}

#[test]
fn flush_without_packets_releases_nothing() {
    let mut stage = Reblock::new(9, 3, 500);
    assert!(stage.flush(u64::MAX).is_empty());
    assert_eq!(stage.expected(), 9);
}

#[test]
fn deadline_counts_from_the_first_packet() {
    let mut stage = Reblock::new(0, 10, 500);
    stage.push(packet(0, 0), 1000);
    stage.push(packet(0, 1), 1400);
    assert!(stage.flush(1499).is_empty());
    assert_eq!(numbers(&stage.flush(1500)), vec![0]);
}

#[test]
fn deadline_saturates() {
    let mut stage = Reblock::new(0, 10, 500);
    stage.push(packet(0, 0), u64::MAX - 10);
    assert!(stage.flush(u64::MAX - 1).is_empty());
    assert_eq!(numbers(&stage.flush(u64::MAX)), vec![0]);
}

#[test]
fn stuck_block_does_not_hold_back_later_blocks() {
    let mut stage = Reblock::new(0, 2, 500);
    assert!(stage.push(packet(0, 0), 0).is_empty());
    assert!(stage.push(packet(1, 0), 1).is_empty());
    let released = stage.push(packet(1, 1), 2);
    assert_eq!(numbers(&released), vec![0, 1]);
    assert_eq!(symbols(&released[0]), vec![0]);
    assert_eq!(symbols(&released[1]), vec![0, 1]);
    assert_eq!(stage.expected(), 2);
}

#[test]
fn blocks_without_packets_are_released_as_gaps() {
    let mut stage = Reblock::new(10, 1, 500);
    let released = stage.push(packet(13, 0), 0);
    assert_eq!(numbers(&released), vec![10, 11, 12, 13]);
    assert!(released[0].packets.is_empty());
    assert!(released[1].packets.is_empty());
    assert!(released[2].packets.is_empty());
    assert_eq!(released[3].packets, vec![packet(13, 0)]);
    assert_eq!(stage.expected(), 14);
}

#[test]
fn expired_block_takes_earlier_blocks_along() {
    let mut stage = Reblock::new(0, 5, 500);
    stage.push(packet(2, 0), 0);
    stage.push(packet(0, 0), 300);
    stage.push(packet(3, 0), 400);
    let released = stage.flush(500);
    assert_eq!(numbers(&released), vec![0, 1, 2]);
    assert_eq!(symbols(&released[0]), vec![0]);
    assert!(released[1].packets.is_empty());
    assert_eq!(symbols(&released[2]), vec![0]);
    assert_eq!(stage.expected(), 3);
    assert_eq!(stage.gathered(3), 1);
    assert_eq!(numbers(&stage.flush(900)), vec![3]);
}

#[test]
fn packets_for_released_blocks_are_discarded() {
    let mut stage = Reblock::new(0, 2, 500);
    stage.push(packet(0, 0), 0);
    assert_eq!(numbers(&stage.push(packet(0, 1), 0)), vec![0]);
    assert!(stage.push(packet(0, 1), 1).is_empty());
    assert!(stage.push(packet(0, 2), 1).is_empty());
    assert_eq!(stage.expected(), 1);
    assert_eq!(stage.gathered(0), 0);
    assert!(stage.flush(u64::MAX).is_empty());
}

#[test]
fn packets_behind_the_expected_block_are_discarded() {
    let mut stage = Reblock::new(100, 1, 500);
    assert!(stage.push(packet(99, 0), 0).is_empty());
    assert!(stage.push(packet(228, 0), 0).is_empty());
    assert_eq!(stage.expected(), 100);
    assert!(stage.flush(u64::MAX).is_empty());
    // the farthest block that is still ahead
    let released = stage.push(packet(227, 0), 0);
    assert_eq!(released.len(), 128);
    assert_eq!(released[0].number, 100);
    assert_eq!(released[127].number, 227);
    assert_eq!(stage.expected(), 228);
}

#[test]
fn numbering_wraps_around() {
    let mut stage = Reblock::new(254, 1, 500);
    assert_eq!(numbers(&stage.push(packet(254, 0), 0)), vec![254]);
    assert_eq!(numbers(&stage.push(packet(1, 0), 0)), vec![255, 0, 1]);
    assert_eq!(stage.expected(), 2);
    assert!(stage.push(packet(255, 0), 0).is_empty());
}

#[test]
fn threshold_of_zero_releases_every_packet() {
    let mut stage = Reblock::new(0, 0, 500);
    assert_eq!(numbers(&stage.push(packet(0, 0), 0)), vec![0]);
    assert_eq!(numbers(&stage.push(packet(1, 0), 0)), vec![1]);
}

#[test]
fn batch_releases_in_order_of_completion() {
    let mut stage = Reblock::new(0, 2, 500);
    let batch = vec![packet(0, 0), packet(1, 0), packet(0, 1), packet(1, 1), packet(2, 0)];
    let released = stage.push_batch(batch, 0);
    assert_eq!(numbers(&released), vec![0, 1]);
    assert_eq!(stage.expected(), 2);
    assert_eq!(stage.gathered(2), 1);
    assert!(stage.push_batch(Vec::new(), 0).is_empty());
}

#[test]
fn released_packets_carry_the_number_of_their_block() {
    let mut stage = Reblock::new(0, 3, 500);
    let mut released = Vec::new();
    for seed in 0..200u64 {
        let block = (seed * 7 % 5) as u8 + stage.expected();
        released.extend(stage.push(packet(block, seed as u32), seed));
    }
    released.extend(stage.flush(u64::MAX));
    assert!(!released.is_empty());
    for (i, block) in released.iter().enumerate() {
        assert_eq!(block.number, i as u8);
        for p in &block.packets {
            assert_eq!(p.block, block.number);
        }
    }
}
