//! What rounds of honest reads account for: the bytes of the file, in order,
//! whatever the number of blocks per round.

use vstd::prelude::*;

use crate::block::BlockResult;
use crate::crc::crc32c_of;
use crate::round::{
    block_bytes, concat, lemma_stop_index, round_bytes, round_ok, round_terminal, stops,
};

verus! {

/// `x`, capped at `n`.
pub open spec fn clamp(x: int, n: int) -> int {
    if x < n {
        x
    } else {
        n
    }
}

/// The result is what a read of a `b`-byte block at `offset` gives from a file
/// holding `f`: the file's bytes from `offset` up to the block's end or the
/// file's end, terminal exactly when that is less than a whole block.
pub open spec fn honest_block(r: Option<BlockResult>, f: Seq<u8>, offset: int, b: int) -> bool {
    match r {
        Some(x) => {
            &&& x@ == f.subrange(clamp(offset, f.len() as int), clamp(offset + b, f.len() as int))
            &&& x.spec_terminal() == (x@.len() != b)
        },
        None => false,
    }
}

/// Every result of the round is an honest read of its block, the `i`-th block
/// starting at `start + i * b`.
pub open spec fn honest_round(rs: Seq<Option<BlockResult>>, f: Seq<u8>, start: int, b: int) -> bool {
    forall|i: int| 0 <= i < rs.len() ==> honest_block(#[trigger] rs[i], f, start + i * b, b)
}

/// The bytes that rounds spanning `step` bytes each account for, from `start`
/// on, when every read is honest: each round adds the file's bytes in its span,
/// and the first round that reaches past the file's end adds what is left and ends.
pub open spec fn rounds_from(f: Seq<u8>, start: int, step: int) -> Seq<u8>
    decreases f.len() - start,
{
    if start < 0 || step <= 0 || start > f.len() {
        Seq::empty()
    } else if start + step > f.len() {
        f.subrange(start, f.len() as int)
    } else {
        f.subrange(start, start + step) + rounds_from(f, start + step, step)
    }
}

/// The bytes that a whole run accounts for on a file holding `f`, with
/// `threads` blocks of `block` bytes per round.
pub open spec fn file_rounds(f: Seq<u8>, threads: int, block: int) -> Seq<u8> {
    rounds_from(f, 0, threads * block)
}

proof fn lemma_honest_prefix(rs: Seq<Option<BlockResult>>, f: Seq<u8>, start: int, b: int, k: int)
    requires
        0 <= start,
        0 < b,
        honest_round(rs, f, start, b),
        0 <= k <= rs.len(),
        start + k * b <= f.len(),
    ensures
        concat(rs.take(k)) == f.subrange(start, start + k * b),
        forall|j: int| 0 <= j < k ==> !stops(#[trigger] rs[j]),
    decreases k,
{
    if k == 0 {
        assert(k * b == 0) by (nonlinear_arith)
            requires
                k == 0,
        ;
        assert(rs.take(0) =~= Seq::<Option<BlockResult>>::empty());
        assert(f.subrange(start, start) =~= Seq::<u8>::empty());
    } else {
        assert((k - 1) * b + b == k * b) by (nonlinear_arith);
        lemma_honest_prefix(rs, f, start, b, k - 1);
        assert(honest_block(rs[k - 1], f, start + (k - 1) * b, b));
        assert(rs.take(k).drop_last() =~= rs.take(k - 1));
        assert(rs.take(k).last() == rs[k - 1]);
        assert(concat(rs.take(k)) == concat(rs.take(k).drop_last()) + block_bytes(rs.take(k).last()));
        assert(block_bytes(rs[k - 1]) == f.subrange(start + (k - 1) * b, start + k * b));
        assert(f.subrange(start, start + (k - 1) * b) + f.subrange(start + (k - 1) * b, start + k * b)
            =~= f.subrange(start, start + k * b));
    }
}

/// One round of honest reads starting within the file never fails, accounts
/// for the file's bytes from `start` up to the round's span or the file's end,
/// and is terminal exactly when the span reaches past the file's end. In
/// particular a round starting at the end of the file adds nothing and ends the run.
pub proof fn lemma_honest_round(rs: Seq<Option<BlockResult>>, f: Seq<u8>, start: int, b: int)
    requires
        0 <= start <= f.len(),
        0 < b,
        0 < rs.len(),
        honest_round(rs, f, start, b),
    ensures
        round_ok(rs),
        round_bytes(rs) == f.subrange(start, clamp(start + rs.len() * b, f.len() as int)),
        round_terminal(rs) == (start + rs.len() * b > f.len()),
{
    let n = rs.len() as int;
    if start + n * b <= f.len() {
        lemma_honest_prefix(rs, f, start, b, n);
        lemma_stop_index(rs, n);
        assert(rs.take(n) =~= rs);
    } else {
        let x = f.len() - start;
        let k = x / b;
        vstd::arithmetic::div_mod::lemma_fundamental_div_mod(x, b);
        vstd::arithmetic::div_mod::lemma_mod_pos_bound(x, b);
        assert(0 <= k) by (nonlinear_arith)
            requires
                x >= 0,
                b > 0,
                k == x / b,
        ;
        assert(k * b <= x < k * b + b) by (nonlinear_arith)
            requires
                x == b * k + x % b,
                0 <= x % b < b,
        ;
        assert(k < n) by (nonlinear_arith)
            requires
                k * b <= x,
                x < n * b,
                b > 0,
        ;
        lemma_honest_prefix(rs, f, start, b, k);
        assert(honest_block(rs[k], f, start + k * b, b));
        assert(stops(rs[k]));
        lemma_stop_index(rs, k);
        assert(rs.take(k + 1).drop_last() =~= rs.take(k));
        assert(rs.take(k + 1).last() == rs[k]);
        assert(f.subrange(start, start + k * b) + f.subrange(start + k * b, f.len() as int)
            =~= f.subrange(start, f.len() as int));
    }
}

proof fn lemma_rounds_from(f: Seq<u8>, start: int, step: int)
    requires
        0 <= start <= f.len(),
        0 < step,
    ensures
        rounds_from(f, start, step) == f.subrange(start, f.len() as int),
    decreases f.len() - start,
{
    if start + step <= f.len() {
        lemma_rounds_from(f, start + step, step);
        assert(f.subrange(start, start + step) + f.subrange(start + step, f.len() as int)
            =~= f.subrange(start, f.len() as int));
    }
}

/// Rounds of honest reads account for every byte of the file, in order, once:
/// the run's checksum is the CRC32C of a single sequential pass over the file.
pub proof fn lemma_rounds_cover_file(f: Seq<u8>, threads: int, block: int)
    requires
        threads >= 1,
        block >= 1,
    ensures
        file_rounds(f, threads, block) == f,
        crc32c_of(file_rounds(f, threads, block)) == crc32c_of(f),
{
    assert(threads * block >= 1) by (nonlinear_arith)
        requires
            threads >= 1,
            block >= 1,
    ;
    lemma_rounds_from(f, 0, threads * block);
    assert(f.subrange(0, f.len() as int) =~= f);
}

/// The checksum of a run does not depend on how many blocks each round reads.
pub proof fn lemma_thread_count_irrelevant(f: Seq<u8>, threads1: int, threads2: int, block: int)
    requires
        threads1 >= 1,
        threads2 >= 1,
        block >= 1,
    ensures
        crc32c_of(file_rounds(f, threads1, block)) == crc32c_of(file_rounds(f, threads2, block)),
{
    lemma_rounds_cover_file(f, threads1, block);
    lemma_rounds_cover_file(f, threads2, block);
}

/// A run's checksum depends on the file's bytes alone, not on the number of
/// blocks per round nor on the block size: runs over unchanged bytes agree.
pub proof fn lemma_run_depends_on_bytes_only(
    f1: Seq<u8>,
    f2: Seq<u8>,
    threads1: int,
    block1: int,
    threads2: int,
    block2: int,
)
    requires
        f1 == f2,
        threads1 >= 1,
        block1 >= 1,
        threads2 >= 1,
        block2 >= 1,
    ensures
        crc32c_of(file_rounds(f1, threads1, block1)) == crc32c_of(file_rounds(f2, threads2, block2)),
{
    lemma_rounds_cover_file(f1, threads1, block1);
    lemma_rounds_cover_file(f2, threads2, block2);
}

} // verus!
