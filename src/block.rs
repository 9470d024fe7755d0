//! One block read by one worker: the zero-fill policy for short reads and the
//! block's own checksum.

use vstd::prelude::*;

use crate::crc::{Checksum, crc32c_of};

verus! {

/// How many bytes a block counts after a read of `n` bytes at `offset`, in a
/// buffer of `block` bytes, from a file of `file_size` bytes. With zero-fill, a
/// read that came back shorter than the data the file holds there is padded up
/// to that amount; otherwise the read counts as it came.
pub open spec fn filled_len(n: int, offset: int, file_size: int, fill_zero: bool, block: int) -> int {
    let expect = if file_size - offset < block {
        file_size - offset
    } else {
        block
    };
    if fill_zero && offset < file_size && n < expect {
        expect
    } else {
        n
    }
}

/// How many bytes a read of a `block`-byte buffer at `offset` returns from a
/// file of `file_size` bytes when the device never returns less than it holds.
pub open spec fn full_read_len(offset: int, file_size: int, block: int) -> int {
    if file_size <= offset {
        0
    } else if file_size - offset < block {
        file_size - offset
    } else {
        block
    }
}

/// Zero-fill never changes a block whose read returned all the data the file
/// holds there: the counted length is the length read, with or without it.
pub proof fn lemma_fill_zero_transparent(offset: int, file_size: int, block: int)
    requires
        0 <= offset,
        0 < block,
    ensures
        filled_len(full_read_len(offset, file_size, block), offset, file_size, true, block)
            == full_read_len(offset, file_size, block),
        filled_len(full_read_len(offset, file_size, block), offset, file_size, false, block)
            == full_read_len(offset, file_size, block),
{
}

/// The outcome of one successful block read: the checksum of the bytes that
/// count, and whether the block came back short, which marks the end of the file.
pub struct BlockResult {
    sum: Checksum,
    terminal: bool,
}

impl View for BlockResult {
    type V = Seq<u8>;

    /// The bytes of the block that count.
    closed spec fn view(&self) -> Seq<u8> {
        self.sum@
    }
}

impl BlockResult {
    pub closed spec fn wf(&self) -> bool {
        self.sum.wf()
    }

    /// Whether the block came back shorter than its buffer.
    pub closed spec fn spec_terminal(&self) -> bool {
        self.terminal
    }

    /// Builds the result of a read of `n` bytes into `buf` at `offset`, for a
    /// file of `file_size` bytes. With `fill_zero`, a short read within the file
    /// is padded with zero bytes in `buf` up to what the file holds there (see
    /// `filled_len`). The block is terminal when the counted length differs
    /// from the buffer's length.
    pub fn from_read(buf: &mut [u8], n: usize, offset: usize, file_size: usize, fill_zero: bool) -> (r:
        BlockResult)
        requires
            n <= old(buf)@.len(),
        ensures
            ({
                let m = filled_len(n as int, offset as int, file_size as int, fill_zero, old(buf)@.len() as int);
                &&& final(buf)@.len() == old(buf)@.len()
                &&& forall|i: int| 0 <= i < n ==> final(buf)@[i] == old(buf)@[i]
                &&& forall|i: int| n <= i < m ==> final(buf)@[i] == 0u8
                &&& forall|i: int| m <= i < old(buf)@.len() ==> final(buf)@[i] == old(buf)@[i]
                &&& r.wf()
                &&& r@ == final(buf)@.take(m)
                &&& r.spec_terminal() == (m != old(buf)@.len())
            }),
    {
        let ghost m = filled_len(n as int, offset as int, file_size as int, fill_zero, buf@.len() as int);
        let block = buf.len();
        let mut count = n;
        if fill_zero && offset < file_size {
            let expect = if file_size - offset < block {
                file_size - offset
            } else {
                block
            };
            if n < expect {
                let mut i: usize = n;
                while i < expect
                    invariant
                        n <= i <= expect <= block,
                        block == old(buf)@.len(),
                        buf@.len() == block,
                        forall|j: int| 0 <= j < n ==> buf@[j] == old(buf)@[j],
                        forall|j: int| n <= j < i ==> buf@[j] == 0u8,
                        forall|j: int| i <= j < block ==> buf@[j] == old(buf)@[j],
                    decreases expect - i,
                {
                    buf[i] = 0u8;
                    i = i + 1;
                }
                count = expect;
            }
        }
        assert(count == m);
        let counted = vstd::slice::slice_subrange(buf, 0, count);
        let sum = Checksum::of_bytes(counted);
        assert(counted@ =~= buf@.take(m));
        BlockResult { sum, terminal: count != block }
    }

    /// The checksum of the counted bytes.
    pub fn checksum(&self) -> (r: &Checksum)
        requires
            self.wf(),
        ensures
            r.wf(),
            r@ == self@,
    {
        &self.sum
    }

    /// Whether the block came back short.
    pub fn is_terminal(&self) -> (r: bool)
        ensures
            r == self.spec_terminal(),
    {
        self.terminal
    }

    /// How many bytes of the block count.
    pub fn len(&self) -> (r: usize)
        requires
            self.wf(),
        ensures
            r == self@.len(),
    {
        self.sum.len()
    }

    /// The CRC32C of the counted bytes.
    pub fn value(&self) -> (r: u32)
        requires
            self.wf(),
        ensures
            r == crc32c_of(self@),
    {
        self.sum.value()
    }
}

} // verus!
