//! CRC32C values of byte segments, and the algebra that joins the values of
//! adjacent segments into the value of their concatenation.

use vstd::prelude::*;

verus! {

/// The CRC32C (Castagnoli polynomial) of a byte sequence.
pub uninterp spec fn crc32c_of(data: Seq<u8>) -> u32;

/// Relies on `crc32c::crc32c`: the CRC32C of the payload, which is 0 for an
/// empty payload (its initial value inverted twice).
#[verifier::external_body]
fn crc32c_raw(data: &[u8]) -> (r: u32)
    ensures
        r == crc32c_of(data@),
        data@.len() == 0 ==> r == 0,
{
    crc32c::crc32c(data)
}

/// Relies on `crc32c::crc32c_combine`: given the CRC32C of streams A and B and
/// the length of B, it returns the CRC32C of A followed by B; for a zero length
/// it returns the first value unchanged.
#[verifier::external_body]
fn crc32c_combine_raw(crc1: u32, crc2: u32, len2: usize) -> (r: u32)
    ensures
        forall|a: Seq<u8>, b: Seq<u8>|
            #![trigger crc32c_of(a), crc32c_of(b)]
            crc32c_of(a) == crc1 && crc32c_of(b) == crc2 && b.len() == len2 ==> r == crc32c_of(
                a + b,
            ),
        len2 == 0 ==> r == crc1,
{
    crc32c::crc32c_combine(crc1, crc2, len2)
}

/// Relies on `crc32c::crc32c_append`: starting from the CRC32C of some stream
/// A, it returns the CRC32C of A followed by the payload.
#[verifier::external_body]
fn crc32c_append_raw(crc: u32, data: &[u8]) -> (r: u32)
    ensures
        forall|a: Seq<u8>| #[trigger] crc32c_of(a) == crc ==> r == crc32c_of(a + data@),
{
    crc32c::crc32c_append(crc, data)
}

/// A running checksum: the CRC32C of a byte segment together with its length.
/// The segment itself is kept as a ghost value, so that contracts can speak of it.
pub struct Checksum {
    crc: u32,
    len: usize,
    bytes: Ghost<Seq<u8>>,
}

impl View for Checksum {
    type V = Seq<u8>;

    /// The bytes that this checksum covers.
    closed spec fn view(&self) -> Seq<u8> {
        self.bytes@
    }
}

impl Checksum {
    /// The checksum agrees with the bytes it covers.
    pub closed spec fn wf(&self) -> bool {
        &&& self.crc == crc32c_of(self.bytes@)
        &&& self.len == self.bytes@.len()
    }

    /// The CRC32C value.
    pub closed spec fn spec_value(&self) -> u32 {
        self.crc
    }

    /// The checksum of no bytes at all.
    pub fn new() -> (r: Checksum)
        ensures
            r.wf(),
            r@ == Seq::<u8>::empty(),
            r.spec_value() == 0,
    {
        let empty: [u8; 0] = [];
        let crc = crc32c_raw(&empty);
        proof {
            assert(empty@ =~= Seq::<u8>::empty());
        }
        Checksum { crc, len: 0, bytes: Ghost(Seq::empty()) }
    }

    /// The checksum of the given bytes, in one pass.
    pub fn of_bytes(data: &[u8]) -> (r: Checksum)
        ensures
            r.wf(),
            r@ == data@,
    {
        let crc = crc32c_raw(data);
        Checksum { crc, len: data.len(), bytes: Ghost(data@) }
    }

    /// The CRC32C value of the covered bytes.
    pub fn value(&self) -> (r: u32)
        requires
            self.wf(),
        ensures
            r == crc32c_of(self@),
            r == self.spec_value(),
    {
        self.crc
    }

    /// How many bytes are covered.
    pub fn len(&self) -> (r: usize)
        requires
            self.wf(),
        ensures
            r == self@.len(),
    {
        self.len
    }

    /// Extends the covered bytes by `data`, in one pass over it.
    pub fn extend(&mut self, data: &[u8])
        requires
            old(self).wf(),
            old(self)@.len() + data@.len() <= usize::MAX,
        ensures
            final(self).wf(),
            final(self)@ == old(self)@ + data@,
    {
        let crc = crc32c_append_raw(self.crc, data);
        proof {
            assert(crc32c_of(self.bytes@) == self.crc);
        }
        self.crc = crc;
        self.len = self.len + data.len();
        self.bytes = Ghost(self.bytes@ + data@);
    }

    /// Extends the covered bytes by those of `next`, which follow them.
    pub fn append(&mut self, next: &Checksum)
        requires
            old(self).wf(),
            next.wf(),
            old(self)@.len() + next@.len() <= usize::MAX,
        ensures
            final(self).wf(),
            final(self)@ == old(self)@ + next@,
    {
        let crc = crc32c_combine_raw(self.crc, next.crc, next.len);
        proof {
            assert(crc32c_of(self.bytes@) == self.crc && crc32c_of(next.bytes@) == next.crc);
        }
        self.crc = crc;
        self.len = self.len + next.len;
        self.bytes = Ghost(self.bytes@ + next.bytes@);
    }
}

} // verus!
