//! Rounds of block reads: folding one round's results in offset order, and the
//! loop state that carries the running checksum from round to round.

use vstd::prelude::*;

use crate::block::BlockResult;
use crate::crc::{Checksum, crc32c_of};

verus! {

/// Whether a round's fold stops at this result: a failed read, or a short block.
pub open spec fn stops(r: Option<BlockResult>) -> bool {
    match r {
        Some(b) => b.spec_terminal(),
        None => true,
    }
}

/// The bytes a result contributes; a failed read contributes none.
pub open spec fn block_bytes(r: Option<BlockResult>) -> Seq<u8> {
    match r {
        Some(b) => b@,
        None => Seq::empty(),
    }
}

/// The index of the first result at which the fold stops, or the number of
/// results when none stops it.
pub open spec fn stop_index(rs: Seq<Option<BlockResult>>) -> int
    decreases rs.len(),
{
    if rs.len() == 0 {
        0
    } else if stops(rs[0]) {
        0
    } else {
        1 + stop_index(rs.drop_first())
    }
}

/// The round succeeds unless a failed read comes before every short block.
pub open spec fn round_ok(rs: Seq<Option<BlockResult>>) -> bool {
    stop_index(rs) == rs.len() || rs[stop_index(rs)] is Some
}

/// The round reached the end of the file: one of its blocks came back short.
pub open spec fn round_terminal(rs: Seq<Option<BlockResult>>) -> bool {
    stop_index(rs) < rs.len()
}

/// How many results the fold takes in: up to and including the first short block.
pub open spec fn round_extent(rs: Seq<Option<BlockResult>>) -> int {
    if round_terminal(rs) {
        stop_index(rs) + 1
    } else {
        rs.len() as int
    }
}

/// The bytes of all results, in order.
pub open spec fn concat(rs: Seq<Option<BlockResult>>) -> Seq<u8>
    decreases rs.len(),
{
    if rs.len() == 0 {
        Seq::empty()
    } else {
        concat(rs.drop_last()) + block_bytes(rs.last())
    }
}

/// The bytes that a round accounts for; results past its first short block are discarded.
pub open spec fn round_bytes(rs: Seq<Option<BlockResult>>) -> Seq<u8> {
    concat(rs.take(round_extent(rs)))
}

/// The fold stops at `i` when no result before `i` stops it and `i` does (or is the end).
pub proof fn lemma_stop_index(rs: Seq<Option<BlockResult>>, i: int)
    requires
        0 <= i <= rs.len(),
        forall|j: int| 0 <= j < i ==> !stops(rs[j]),
        i == rs.len() || stops(rs[i]),
    ensures
        stop_index(rs) == i,
    decreases i,
{
    if i > 0 {
        let tail = rs.drop_first();
        assert forall|j: int| 0 <= j < i - 1 implies !stops(tail[j]) by {
            assert(tail[j] == rs[j + 1]);
        }
        if i < rs.len() {
            assert(tail[i - 1] == rs[i]);
        }
        lemma_stop_index(tail, i - 1);
    }
}

/// The stop index lies within the round.
pub proof fn lemma_stop_index_bounds(rs: Seq<Option<BlockResult>>)
    ensures
        0 <= stop_index(rs) <= rs.len(),
    decreases rs.len(),
{
    if rs.len() > 0 {
        lemma_stop_index_bounds(rs.drop_first());
    }
}

proof fn lemma_concat_take_len(rs: Seq<Option<BlockResult>>, i: int)
    requires
        0 <= i <= rs.len(),
    ensures
        concat(rs.take(i)).len() <= concat(rs).len(),
    decreases rs.len() - i,
{
    if i == rs.len() {
        assert(rs.take(i) =~= rs);
    } else {
        lemma_concat_take_len(rs, i + 1);
        assert(rs.take(i + 1).drop_last() =~= rs.take(i));
    }
}

proof fn lemma_concat_len(rs: Seq<Option<BlockResult>>, b: int)
    requires
        0 <= b,
        forall|j: int| 0 <= j < rs.len() ==> block_bytes(#[trigger] rs[j]).len() <= b,
    ensures
        concat(rs).len() <= rs.len() * b,
    decreases rs.len(),
{
    if rs.len() > 0 {
        let init = rs.drop_last();
        assert forall|j: int| 0 <= j < init.len() implies block_bytes(#[trigger] init[j]).len() <= b by {
            assert(init[j] == rs[j]);
        }
        lemma_concat_len(init, b);
        let n = rs.len() as int;
        assert((n - 1) * b + b == n * b) by (nonlinear_arith);
    }
}

/// The aggregate of one round: the checksum of the bytes it accounts for, and
/// whether it reached the end of the file.
pub struct RoundSum {
    pub sum: Checksum,
    pub terminal: bool,
}

/// Folds a round's results in ascending offset order, stopping after the first
/// short block. A failed read before that point fails the round (`None`); one
/// after it is discarded with the other results there.
pub fn fold_round(results: &Vec<Option<BlockResult>>) -> (r: Option<RoundSum>)
    requires
        forall|i: int| 0 <= i < results@.len() && results@[i] is Some ==> (#[trigger] results@[i])->Some_0.wf(),
        concat(results@).len() <= usize::MAX,
    ensures
        r is Some <==> round_ok(results@),
        r matches Some(s) ==> {
            &&& s.sum.wf()
            &&& s.sum@ == round_bytes(results@)
            &&& s.terminal == round_terminal(results@)
        },
{
    let mut acc = Checksum::new();
    let mut i: usize = 0;
    while i < results.len()
        invariant
            i <= results@.len(),
            forall|i: int| 0 <= i < results@.len() && results@[i] is Some ==> (#[trigger] results@[i])->Some_0.wf(),
            concat(results@).len() <= usize::MAX,
            forall|j: int| 0 <= j < i ==> !stops(results@[j]),
            acc.wf(),
            acc@ == concat(results@.take(i as int)),
        decreases results@.len() - i,
    {
        match &results[i] {
            None => {
                proof {
                    lemma_stop_index(results@, i as int);
                }
                return None;
            },
            Some(b) => {
                proof {
                    assert(results@.take(i + 1).drop_last() =~= results@.take(i as int));
                    lemma_concat_take_len(results@, i + 1);
                }
                acc.append(b.checksum());
                if b.is_terminal() {
                    proof {
                        lemma_stop_index(results@, i as int);
                    }
                    return Some(RoundSum { sum: acc, terminal: true });
                }
                i = i + 1;
            },
        }
    }
    proof {
        lemma_stop_index(results@, i as int);
        assert(results@.take(i as int) =~= results@);
    }
    Some(RoundSum { sum: acc, terminal: false })
}

/// The state of the round loop for one file: the cursor where the next round
/// starts and the running checksum of everything before it.
pub struct RoundLoop {
    start: usize,
    total: Checksum,
    threads: usize,
    block_size: usize,
}

impl RoundLoop {
    pub closed spec fn wf(&self) -> bool {
        &&& self.threads >= 1
        &&& self.block_size >= 1
        &&& self.total.wf()
        &&& self.total@.len() == self.start
    }

    /// The offset at which the next round starts.
    pub closed spec fn spec_start(&self) -> nat {
        self.start as nat
    }

    /// The bytes accounted for so far, in file order.
    pub closed spec fn spec_total(&self) -> Seq<u8> {
        self.total@
    }

    /// How many blocks a round reads.
    pub closed spec fn spec_threads(&self) -> nat {
        self.threads as nat
    }

    /// The size of one block.
    pub closed spec fn spec_block_size(&self) -> nat {
        self.block_size as nat
    }

    /// Whether the offsets of the next round's blocks all fit in a `usize`.
    pub open spec fn round_fits(&self) -> bool {
        self.spec_start() + self.spec_threads() * self.spec_block_size() <= usize::MAX
    }

    /// A loop at offset 0 with nothing accounted for, reading `threads` blocks
    /// of `block_size` bytes per round.
    pub fn new(threads: usize, block_size: usize) -> (r: RoundLoop)
        requires
            threads >= 1,
            block_size >= 1,
        ensures
            r.wf(),
            r.spec_start() == 0,
            r.spec_total() == Seq::<u8>::empty(),
            r.spec_threads() == threads,
            r.spec_block_size() == block_size,
    {
        RoundLoop { start: 0, total: Checksum::new(), threads, block_size }
    }

    /// The offsets of the next round's blocks, one per worker in ascending
    /// order: `start + i * block_size`. `None` when they do not fit in a `usize`.
    pub fn offsets(&self) -> (r: Option<Vec<usize>>)
        requires
            self.wf(),
        ensures
            r is Some <==> self.round_fits(),
            r matches Some(v) ==> {
                &&& v@.len() == self.spec_threads()
                &&& forall|i: int|
                    0 <= i < v@.len() ==> #[trigger] v@[i] == self.spec_start() + i
                        * self.spec_block_size()
            },
    {
        let span = self.threads.checked_mul(self.block_size);
        match span {
            None => {
                proof {
                    assert(self.spec_threads() * self.spec_block_size() > usize::MAX);
                }
                return None;
            },
            Some(span) => {
                if span > usize::MAX - self.start {
                    return None;
                }
            },
        }
        let mut v: Vec<usize> = Vec::new();
        let mut i: usize = 0;
        while i < self.threads
            invariant
                self.wf(),
                self.round_fits(),
                i <= self.threads,
                v@.len() == i,
                forall|j: int| 0 <= j < i ==> #[trigger] v@[j] == self.start + j * self.block_size,
            decreases self.threads - i,
        {
            proof {
                assert(i * self.block_size <= self.threads * self.block_size) by (nonlinear_arith)
                    requires
                        i < self.threads,
                ;
            }
            v.push(self.start + i * self.block_size);
            i = i + 1;
        }
        Some(v)
    }

    /// Folds one round's results, in ascending offset order, into the running
    /// checksum and moves the cursor past the bytes the round accounts for.
    /// Returns whether the round reached the end of the file, or `None` when a
    /// read failed before that point, leaving the state as it was.
    pub fn advance(&mut self, results: &Vec<Option<BlockResult>>) -> (r: Option<bool>)
        requires
            old(self).wf(),
            old(self).round_fits(),
            results@.len() == old(self).spec_threads(),
            forall|i: int|
                0 <= i < results@.len() && results@[i] is Some ==> {
                    &&& (#[trigger] results@[i])->Some_0.wf()
                    &&& results@[i]->Some_0@.len() <= old(self).spec_block_size()
                },
        ensures
            r is Some <==> round_ok(results@),
            r is None ==> *final(self) == *old(self),
            r matches Some(done) ==> {
                &&& final(self).wf()
                &&& final(self).spec_total() == old(self).spec_total() + round_bytes(results@)
                &&& final(self).spec_start() == old(self).spec_start() + round_bytes(results@).len()
                &&& final(self).spec_threads() == old(self).spec_threads()
                &&& final(self).spec_block_size() == old(self).spec_block_size()
                &&& done == round_terminal(results@)
            },
    {
        proof {
            assert forall|j: int| 0 <= j < results@.len() implies block_bytes(
                #[trigger] results@[j],
            ).len() <= self.block_size by {}
            lemma_concat_len(results@, self.block_size as int);
            lemma_stop_index_bounds(results@);
            lemma_concat_take_len(results@, round_extent(results@));
        }
        match fold_round(results) {
            None => None,
            Some(round) => {
                self.total.append(&round.sum);
                self.start = self.start + round.sum.len();
                Some(round.terminal)
            },
        }
    }

    /// The offset at which the next round starts.
    pub fn start(&self) -> (r: usize)
        ensures
            r == self.spec_start(),
    {
        self.start
    }

    /// The CRC32C of everything accounted for so far.
    pub fn checksum(&self) -> (r: u32)
        requires
            self.wf(),
        ensures
            r == crc32c_of(self.spec_total()),
    {
        self.total.value()
    }
}

} // verus!
