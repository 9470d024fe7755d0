use crc32c_parallel::block::BlockResult;
use crc32c_parallel::crc::Checksum;
use crc32c_parallel::memory::{checksum_in_memory, read_block};
use crc32c_parallel::round::{fold_round, RoundLoop};

fn sample(len: usize) -> Vec<u8> {
    let mut state: u32 = 0x1234_5678;
    let mut out = Vec::with_capacity(len);
    for _ in 0..len {
        state = state.wrapping_mul(1_103_515_245).wrapping_add(12_345);
        out.push((state >> 16) as u8);
    }
    out
}

fn block_of(data: &[u8], block_size: usize) -> BlockResult {
    let mut buf = vec![0u8; block_size];
    buf[..data.len()].copy_from_slice(data);
    BlockResult::from_read(&mut buf, data.len(), 0, data.len(), false)
}

#[test]
fn known_vector_one_thread() {
    assert_eq!(checksum_in_memory(b"123456789", 1, 16, false), 0xE306_9283);
}

#[test]
fn known_vector_many_threads() {
    assert_eq!(checksum_in_memory(b"123456789", 3, 2, false), 0xE306_9283);
    assert_eq!(checksum_in_memory(b"123456789", 4, 1, false), 0xE306_9283);
    assert_eq!(checksum_in_memory(b"123456789", 2, 4, true), 0xE306_9283);
}

#[test]
fn sequential_known_vectors() {
    assert_eq!(Checksum::of_bytes(b"123456789").value(), 0xE306_9283);
    assert_eq!(Checksum::of_bytes(b"Hello world!").value(), 0x7B98_E751);
}

#[test]
fn empty_input_gives_zero() {
    assert_eq!(Checksum::new().value(), 0);
    assert_eq!(checksum_in_memory(&[], 1, 8, false), 0);
    assert_eq!(checksum_in_memory(&[], 5, 8, true), 0);
    assert_eq!(format!("{:08X} {}", checksum_in_memory(&[], 3, 8, false), "empty.bin"), "00000000 empty.bin");
}

#[test]
fn thread_count_does_not_change_checksum() {
    let data = sample(1000);
    let expected = Checksum::of_bytes(&data).value();
    for threads in 1..=9 {
        for block in [1usize, 7, 64, 512, 4096] {
            assert_eq!(checksum_in_memory(&data, threads, block, false), expected);
        }
    }
}

#[test]
fn size_is_whole_number_of_rounds() {
    let data = sample(4 * 64);
    let expected = Checksum::of_bytes(&data).value();
    assert_eq!(checksum_in_memory(&data, 4, 64, false), expected);
    assert_eq!(checksum_in_memory(&data, 2, 128, false), expected);
    assert_eq!(checksum_in_memory(&data, 1, 256, false), expected);
}

#[test]
fn repeated_runs_agree() {
    let data = sample(777);
    let first = checksum_in_memory(&data, 3, 100, false);
    let second = checksum_in_memory(&data, 3, 100, false);
    assert_eq!(first, second);
}

#[test]
fn zero_fill_keeps_full_reads_unchanged() {
    let data = sample(1000);
    for threads in [1usize, 2, 5] {
        assert_eq!(
            checksum_in_memory(&data, threads, 64, true),
            checksum_in_memory(&data, threads, 64, false)
        );
    }
}

#[test]
fn zero_fill_pads_short_read() {
    let mut buf = vec![7u8; 8];
    let block = BlockResult::from_read(&mut buf, 3, 16, 100, true);
    assert_eq!(buf, vec![7, 7, 7, 0, 0, 0, 0, 0]);
    assert_eq!(block.len(), 8);
    assert!(!block.is_terminal());
    assert_eq!(block.value(), Checksum::of_bytes(&[7, 7, 7, 0, 0, 0, 0, 0]).value());
}

#[test]
fn zero_fill_stops_at_file_end() {
    let mut buf = vec![9u8; 8];
    let block = BlockResult::from_read(&mut buf, 2, 16, 21, true);
    assert_eq!(buf, vec![9, 9, 0, 0, 0, 9, 9, 9]);
    assert_eq!(block.len(), 5);
    assert!(block.is_terminal());
}

#[test]
fn short_read_without_zero_fill_is_terminal() {
    let mut buf = vec![5u8; 8];
    let block = BlockResult::from_read(&mut buf, 3, 16, 100, false);
    assert_eq!(buf, vec![5u8; 8]);
    assert_eq!(block.len(), 3);
    assert!(block.is_terminal());
    assert_eq!(block.value(), Checksum::of_bytes(&[5, 5, 5]).value());
}

#[test]
fn append_joins_segments() {
    let mut sum = Checksum::of_bytes(b"123");
    sum.append(&Checksum::of_bytes(b"456789"));
    assert_eq!(sum.value(), 0xE306_9283);
    assert_eq!(sum.len(), 9);
    let mut same = Checksum::of_bytes(b"123456789");
    same.append(&Checksum::new());
    assert_eq!(same.value(), 0xE306_9283);
}

#[test]
fn extend_continues_checksum() {
    let mut sum = Checksum::new();
    sum.extend(b"1234");
    sum.extend(b"");
    sum.extend(b"56789");
    assert_eq!(sum.value(), 0xE306_9283);
    assert_eq!(sum.len(), 9);
}

#[test]
fn fold_stops_after_first_short_block() {
    let results = vec![
        Some(block_of(b"1234", 4)),
        Some(block_of(b"56", 4)),
        Some(block_of(b"zzzz", 4)),
        None,
    ];
    let round = fold_round(&results).unwrap();
    assert!(round.terminal);
    assert_eq!(round.sum.len(), 6);
    assert_eq!(round.sum.value(), Checksum::of_bytes(b"123456").value());
}

#[test]
fn fold_of_full_blocks_continues() {
    let results = vec![Some(block_of(b"1234", 4)), Some(block_of(b"5678", 4))];
    let round = fold_round(&results).unwrap();
    assert!(!round.terminal);
    assert_eq!(round.sum.value(), Checksum::of_bytes(b"12345678").value());
}

#[test]
fn failed_read_before_end_fails_round() {
    let results = vec![Some(block_of(b"1234", 4)), None, Some(block_of(b"9", 4))];
    assert!(fold_round(&results).is_none());
}

#[test]
fn round_loop_offsets_and_progress() {
    let mut rounds = RoundLoop::new(3, 4);
    assert_eq!(rounds.offsets(), Some(vec![0, 4, 8]));
    let full = vec![
        Some(block_of(b"1234", 4)),
        Some(block_of(b"5678", 4)),
        Some(block_of(b"9abc", 4)),
    ];
    assert_eq!(rounds.advance(&full), Some(false));
    assert_eq!(rounds.start(), 12);
    assert_eq!(rounds.offsets(), Some(vec![12, 16, 20]));
    let empty = vec![Some(block_of(b"", 4)), Some(block_of(b"", 4)), Some(block_of(b"", 4))];
    assert_eq!(rounds.advance(&empty), Some(true));
    assert_eq!(rounds.start(), 12);
    assert_eq!(rounds.checksum(), Checksum::of_bytes(b"123456789abc").value());
}

#[test]
fn round_loop_failed_read_leaves_state() {
    let mut rounds = RoundLoop::new(2, 4);
    let results = vec![None, Some(block_of(b"12", 4))];
    assert_eq!(rounds.advance(&results), None);
    assert_eq!(rounds.start(), 0);
    assert_eq!(rounds.checksum(), 0);
}

#[test]
fn offsets_that_overflow_are_refused() {
    let rounds = RoundLoop::new(4, usize::MAX / 2);
    assert_eq!(rounds.offsets(), None);
}

#[test]
fn read_block_copies_what_is_there() {
    let data = b"abcdefghij";
    let mut buf = vec![0u8; 4];
    assert_eq!(read_block(data, &mut buf, 4), 4);
    assert_eq!(buf, b"efgh".to_vec());
    assert_eq!(read_block(data, &mut buf, 8), 2);
    assert_eq!(&buf[..2], b"ij");
    assert_eq!(read_block(data, &mut buf, 12), 0);
}
