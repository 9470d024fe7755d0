//! The round engine run over bytes held in memory, with the reads of a round
//! served one after another into one scratch buffer. It computes what the
//! threaded engine computes over a file holding the same bytes.

use vstd::prelude::*;

use crate::block::{BlockResult, full_read_len, lemma_fill_zero_transparent};
use crate::crc::crc32c_of;
use crate::model::{clamp, honest_block, honest_round, lemma_honest_round};
use crate::round::{round_bytes, RoundLoop};

verus! {

/// Reads the block at `offset` of `data` into `buf`, as a positional read that
/// returns all the data there is: copies up to `buf`'s length of bytes and
/// returns how many.
pub fn read_block(data: &[u8], buf: &mut Vec<u8>, offset: usize) -> (n: usize)
    ensures
        n == full_read_len(offset as int, data@.len() as int, old(buf)@.len() as int),
        final(buf)@.len() == old(buf)@.len(),
        forall|j: int| 0 <= j < n ==> final(buf)@[j] == data@[offset + j],
{
    let block = buf.len();
    let len = data.len();
    let n = if len <= offset {
        0
    } else if data.len() - offset < block {
        data.len() - offset
    } else {
        block
    };
    let mut j: usize = 0;
    while j < n
        invariant
            j <= n <= block,
            len == data@.len(),
            n == 0 || offset + n <= data@.len(),
            n == full_read_len(offset as int, data@.len() as int, block as int),
            buf@.len() == block,
            forall|k: int| 0 <= k < j ==> buf@[k] == data@[offset + k],
        decreases n - j,
    {
        assert(offset + j < data@.len());
        buf.set(j, data[offset + j]);
        j = j + 1;
    }
    n
}

/// The CRC32C of `data`, computed by rounds of `threads` blocks of `block_size`
/// bytes folded in offset order, with or without zero-fill. Whatever the
/// number of blocks per round, it is the CRC32C of a single pass over `data`.
pub fn checksum_in_memory(data: &[u8], threads: usize, block_size: usize, fill_zero: bool) -> (r: u32)
    requires
        threads >= 1,
        block_size >= 1,
        data@.len() + threads * block_size <= usize::MAX,
    ensures
        r == crc32c_of(data@),
{
    let mut rounds = RoundLoop::new(threads, block_size);
    let mut buf: Vec<u8> = vec![0u8; block_size];
    proof {
        assert(data@.take(0) =~= Seq::<u8>::empty());
    }
    loop
        invariant
            rounds.wf(),
            rounds.spec_threads() == threads,
            rounds.spec_block_size() == block_size,
            rounds.spec_start() <= data@.len(),
            rounds.spec_total() == data@.take(rounds.spec_start() as int),
            buf@.len() == block_size,
            data@.len() + threads * block_size <= usize::MAX,
            threads >= 1,
            block_size >= 1,
        ensures
            rounds.wf(),
            rounds.spec_total() == data@,
        decreases data@.len() - rounds.spec_start(),
    {
        let ghost start = rounds.spec_start() as int;
        let offsets = rounds.offsets().unwrap();
        let mut results: Vec<Option<BlockResult>> = Vec::new();
        let mut i: usize = 0;
        while i < offsets.len()
            invariant
                i <= offsets@.len() == threads,
                forall|k: int| 0 <= k < offsets@.len() ==> #[trigger] offsets@[k] == start + k * block_size,
                buf@.len() == block_size,
                block_size >= 1,
                results@.len() == i,
                forall|k: int|
                    0 <= k < i ==> {
                        &&& (#[trigger] results@[k]) is Some
                        &&& results@[k]->Some_0.wf()
                        &&& results@[k]->Some_0@.len() <= block_size
                        &&& honest_block(results@[k], data@, start + k * block_size, block_size as int)
                    },
            decreases offsets@.len() - i,
        {
            let offset = offsets[i];
            let n = read_block(data, &mut buf, offset);
            let ghost read = buf@;
            proof {
                lemma_fill_zero_transparent(offset as int, data@.len() as int, block_size as int);
            }
            let block = BlockResult::from_read(buf.as_mut_slice(), n, offset, data.len(), fill_zero);
            proof {
                let lo = clamp(offset as int, data@.len() as int);
                let hi = clamp(offset + block_size, data@.len() as int);
                assert(block@ =~= data@.subrange(lo, hi));
            }
            results.push(Some(block));
            i = i + 1;
        }
        proof {
            assert(honest_round(results@, data@, start, block_size as int));
            lemma_honest_round(results@, data@, start, block_size as int);
            assert forall|k: int| 0 <= k < results@.len() && results@[k] is Some implies {
                &&& (#[trigger] results@[k])->Some_0.wf()
                &&& results@[k]->Some_0@.len() <= rounds.spec_block_size()
            } by {}
        }
        let done = rounds.advance(&results).unwrap();
        proof {
            assert(threads * block_size >= 1) by (nonlinear_arith)
                requires
                    threads >= 1,
                    block_size >= 1,
            ;
            let end = clamp(start + threads * block_size, data@.len() as int);
            assert(data@.take(start) + data@.subrange(start, end) =~= data@.take(end));
        }
        if done {
            proof {
                assert(data@.take(data@.len() as int) =~= data@);
            }
            break;
        }
    }
    rounds.checksum()
}

} // verus!
