//! Fixed-size wire records and their decoding.
//!
//! Each record shape occupies a fixed number of bytes on the wire: its `u64`
//! fields laid out in declaration order, each encoded little-endian. Decoding
//! is total for any input of exactly the wire size; callers validate lengths.

use vstd::bytes::{
    lemma_auto_spec_u64_to_from_le_bytes, spec_u64_from_le_bytes, spec_u64_to_le_bytes,
    u64_from_le_bytes, u64_to_le_bytes,
};
use vstd::prelude::*;
use vstd::slice::slice_subrange;

verus! {

/// A record shape that can be decoded from (and re-encoded to) a fixed-width
/// byte slice.
pub trait FromBytes: Sized {
    /// The wire size of this record shape, in bytes.
    spec fn spec_size() -> int;

    /// The wire size is positive and small enough for batch arithmetic.
    proof fn lemma_size_positive()
        ensures
            0 < Self::spec_size() <= 1024,
    ;

    /// What a byte slice of exactly the wire size decodes to.
    spec fn spec_from_bytes(b: Seq<u8>) -> Self;

    /// The wire bytes of one record.
    spec fn spec_to_bytes(self) -> Seq<u8>;

    /// Encoding always yields exactly the wire size.
    proof fn lemma_to_bytes_len(self)
        ensures
            self.spec_to_bytes().len() == Self::spec_size(),
    ;

    /// Decoding a slice of the wire size and re-encoding it is the identity.
    proof fn lemma_bytes_round_trip(b: Seq<u8>)
        requires
            b.len() == Self::spec_size(),
        ensures
            Self::spec_from_bytes(b).spec_to_bytes() == b,
    ;

    /// Encoding a record and decoding it back is the identity.
    proof fn lemma_value_round_trip(self)
        ensures
            Self::spec_from_bytes(self.spec_to_bytes()) == self,
    ;

    /// The wire size of this record shape, as a runtime value.
    fn wire_size() -> (n: usize)
        ensures
            n as int == Self::spec_size(),
    ;

    /// Decode one record from a slice of exactly the wire size.
    fn from_bytes(buf: &[u8]) -> (r: Self)
        requires
            buf@.len() == Self::spec_size(),
        ensures
            r == Self::spec_from_bytes(buf@),
    ;

    /// Encode one record into its wire bytes.
    fn to_bytes(&self) -> (out: Vec<u8>)
        ensures
            out@ == self.spec_to_bytes(),
    ;
}

/// A pre-aggregated record: the producer has already reduced many raw events
/// into one aggregate per (device, cpu) window.
#[derive(Clone, Copy, Debug, PartialEq, Eq, Structural)]
pub struct PreadQueryRecord {
    pub fd: u64,
    pub cpu: u64,
    pub count: u64,
    pub max_count: u64,
    pub avg_count: u64,
}

/// A raw record: one observation of a monitored operation, with the producer's
/// monotonic timestamp in nanoseconds and the observed magnitude.
#[derive(Clone, Copy, Debug, PartialEq, Eq, Structural)]
pub struct RawPreadRecord {
    pub time: u64,
    pub fd: u64,
    pub cpu: u64,
    pub count: u64,
}

impl Default for PreadQueryRecord {
    fn default() -> (r: Self)
        ensures
            r == (PreadQueryRecord { fd: 0u64, cpu: 0u64, count: 0u64, max_count: 0u64, avg_count: 0u64 }),
    {
        PreadQueryRecord { fd: 0, cpu: 0, count: 0, max_count: 0, avg_count: 0 }
    }
}

impl Default for RawPreadRecord {
    fn default() -> (r: Self)
        ensures
            r == (RawPreadRecord { time: 0u64, fd: 0u64, cpu: 0u64, count: 0u64 }),
    {
        RawPreadRecord { time: 0, fd: 0, cpu: 0, count: 0 }
    }
}

impl FromBytes for PreadQueryRecord {
    open spec fn spec_size() -> int {
        40
    }

    proof fn lemma_size_positive() {
    }

    open spec fn spec_from_bytes(b: Seq<u8>) -> Self {
        PreadQueryRecord {
            fd: spec_u64_from_le_bytes(b.subrange(0, 8)),
            cpu: spec_u64_from_le_bytes(b.subrange(8, 16)),
            count: spec_u64_from_le_bytes(b.subrange(16, 24)),
            max_count: spec_u64_from_le_bytes(b.subrange(24, 32)),
            avg_count: spec_u64_from_le_bytes(b.subrange(32, 40)),
        }
    }

    open spec fn spec_to_bytes(self) -> Seq<u8> {
        spec_u64_to_le_bytes(self.fd) + spec_u64_to_le_bytes(self.cpu) + spec_u64_to_le_bytes(
            self.count,
        ) + spec_u64_to_le_bytes(self.max_count) + spec_u64_to_le_bytes(self.avg_count)
    }

    proof fn lemma_to_bytes_len(self) {
        lemma_auto_spec_u64_to_from_le_bytes();
    }

    proof fn lemma_bytes_round_trip(b: Seq<u8>) {
        lemma_auto_spec_u64_to_from_le_bytes();
        assert(Self::spec_from_bytes(b).spec_to_bytes() =~= b);
    }

    proof fn lemma_value_round_trip(self) {
        lemma_auto_spec_u64_to_from_le_bytes();
        let b = self.spec_to_bytes();
        assert(b.subrange(0, 8) =~= spec_u64_to_le_bytes(self.fd));
        assert(b.subrange(8, 16) =~= spec_u64_to_le_bytes(self.cpu));
        assert(b.subrange(16, 24) =~= spec_u64_to_le_bytes(self.count));
        assert(b.subrange(24, 32) =~= spec_u64_to_le_bytes(self.max_count));
        assert(b.subrange(32, 40) =~= spec_u64_to_le_bytes(self.avg_count));
    }

    fn wire_size() -> (n: usize) {
        40
    }

    fn from_bytes(buf: &[u8]) -> (r: Self) {
        let fd = u64_from_le_bytes(slice_subrange(buf, 0, 8));
        let cpu = u64_from_le_bytes(slice_subrange(buf, 8, 16));
        let count = u64_from_le_bytes(slice_subrange(buf, 16, 24));
        let max_count = u64_from_le_bytes(slice_subrange(buf, 24, 32));
        let avg_count = u64_from_le_bytes(slice_subrange(buf, 32, 40));
        PreadQueryRecord { fd, cpu, count, max_count, avg_count }
    }

    fn to_bytes(&self) -> (out: Vec<u8>) {
        let mut out = u64_to_le_bytes(self.fd);
        let mut rest = u64_to_le_bytes(self.cpu);
        out.append(&mut rest);
        let mut rest = u64_to_le_bytes(self.count);
        out.append(&mut rest);
        let mut rest = u64_to_le_bytes(self.max_count);
        out.append(&mut rest);
        let mut rest = u64_to_le_bytes(self.avg_count);
        out.append(&mut rest);
        out
    }
}

impl FromBytes for RawPreadRecord {
    open spec fn spec_size() -> int {
        32
    }

    proof fn lemma_size_positive() {
    }

    open spec fn spec_from_bytes(b: Seq<u8>) -> Self {
        RawPreadRecord {
            time: spec_u64_from_le_bytes(b.subrange(0, 8)),
            fd: spec_u64_from_le_bytes(b.subrange(8, 16)),
            cpu: spec_u64_from_le_bytes(b.subrange(16, 24)),
            count: spec_u64_from_le_bytes(b.subrange(24, 32)),
        }
    }

    open spec fn spec_to_bytes(self) -> Seq<u8> {
        spec_u64_to_le_bytes(self.time) + spec_u64_to_le_bytes(self.fd) + spec_u64_to_le_bytes(
            self.cpu,
        ) + spec_u64_to_le_bytes(self.count)
    }

    proof fn lemma_to_bytes_len(self) {
        lemma_auto_spec_u64_to_from_le_bytes();
    }

    proof fn lemma_bytes_round_trip(b: Seq<u8>) {
        lemma_auto_spec_u64_to_from_le_bytes();
        assert(Self::spec_from_bytes(b).spec_to_bytes() =~= b);
    }

    proof fn lemma_value_round_trip(self) {
        lemma_auto_spec_u64_to_from_le_bytes();
        let b = self.spec_to_bytes();
        assert(b.subrange(0, 8) =~= spec_u64_to_le_bytes(self.time));
        assert(b.subrange(8, 16) =~= spec_u64_to_le_bytes(self.fd));
        assert(b.subrange(16, 24) =~= spec_u64_to_le_bytes(self.cpu));
        assert(b.subrange(24, 32) =~= spec_u64_to_le_bytes(self.count));
    }

    fn wire_size() -> (n: usize) {
        32
    }

    fn from_bytes(buf: &[u8]) -> (r: Self) {
        let time = u64_from_le_bytes(slice_subrange(buf, 0, 8));
        let fd = u64_from_le_bytes(slice_subrange(buf, 8, 16));
        let cpu = u64_from_le_bytes(slice_subrange(buf, 16, 24));
        let count = u64_from_le_bytes(slice_subrange(buf, 24, 32));
        RawPreadRecord { time, fd, cpu, count }
    }

    fn to_bytes(&self) -> (out: Vec<u8>) {
        let mut out = u64_to_le_bytes(self.time);
        let mut rest = u64_to_le_bytes(self.fd);
        out.append(&mut rest);
        let mut rest = u64_to_le_bytes(self.cpu);
        out.append(&mut rest);
        let mut rest = u64_to_le_bytes(self.count);
        out.append(&mut rest);
        out
    }
}

} // verus!
