//! Segment headers: the memory regions that a loader maps.

use vstd::prelude::*;
use vstd::slice::slice_subrange;
use crate::error::{Error, Failure};
use crate::flags::PermissionFlags;
use crate::wire::{
    le_at, le_bytes, lemma_le_at_bound, lemma_le_bytes_len, lemma_le_field, lemma_limits, push_le,
    read_u16, read_u32, read_u64, read_u8,
};

verus! {

/// The number of bytes a segment header takes.
pub const SEGMENT_HDR_SIZE: u32 = 24;

/// A loadable region: where its bytes lie in the data, where they go in
/// memory, and with which rights.
#[derive(Clone, Copy, Debug, PartialEq, Eq)]
pub struct SegmentHeader {
    pub typ: u8,
    pub flags: PermissionFlags,
    pub align: u16,
    pub file: u32,
    pub mem: u64,
    pub file_size: u32,
    pub mem_size: u32,
}

impl SegmentHeader {
    /// The 24 bytes of the header, every field little-endian.
    pub open spec fn encoding(self) -> Seq<u8> {
        le_bytes(self.typ as nat, 1) + le_bytes(self.flags@ as nat, 1) + le_bytes(
            self.align as nat,
            2,
        ) + le_bytes(self.file as nat, 4) + le_bytes(self.mem as nat, 8) + le_bytes(
            self.file_size as nat,
            4,
        ) + le_bytes(self.mem_size as nat, 4)
    }

    /// The header whose fields are the bytes of `s` from `at` on. Bits of the
    /// flags byte that name no right are dropped.
    pub open spec fn decode(s: Seq<u8>, at: int) -> SegmentHeader {
        SegmentHeader {
            typ: le_at(s, at, 1) as u8,
            flags: PermissionFlags::of_bits((le_at(s, at + 1, 1) % 8) as u8),
            align: le_at(s, at + 2, 2) as u16,
            file: le_at(s, at + 4, 4) as u32,
            mem: le_at(s, at + 8, 8) as u64,
            file_size: le_at(s, at + 16, 4) as u32,
            mem_size: le_at(s, at + 20, 4) as u32,
        }
    }

    /// What parsing a header from the start of `s` gives.
    pub open spec fn parse_spec(s: Seq<u8>) -> Result<SegmentHeader, Failure> {
        if s.len() < 24 {
            Err(Failure::TruncatedInput)
        } else {
            Ok(Self::decode(s, 0))
        }
    }

    /// The encoding is 24 bytes long.
    pub proof fn lemma_encoding(self)
        ensures
            self.encoding().len() == 24,
    {
        lemma_le_bytes_len(self.typ as nat, 1);
        lemma_le_bytes_len(self.flags@ as nat, 1);
        lemma_le_bytes_len(self.align as nat, 2);
        lemma_le_bytes_len(self.file as nat, 4);
        lemma_le_bytes_len(self.mem as nat, 8);
        lemma_le_bytes_len(self.file_size as nat, 4);
        lemma_le_bytes_len(self.mem_size as nat, 4);
    }

    /// Decoding the bytes of a header, wherever they stand, gives the header.
    pub proof fn lemma_round_trip(self, s: Seq<u8>, at: int)
        requires
            self.flags.valid(),
            0 <= at,
            at + 24 <= s.len(),
            s.subrange(at, at + 24) == self.encoding(),
        ensures
            Self::decode(s, at) == self,
    {
        self.lemma_encoding();
        lemma_limits();
        let e = self.encoding();
        let f0 = le_bytes(self.typ as nat, 1);
        let f1 = le_bytes(self.flags@ as nat, 1);
        let f2 = le_bytes(self.align as nat, 2);
        let f3 = le_bytes(self.file as nat, 4);
        let f4 = le_bytes(self.mem as nat, 8);
        let f5 = le_bytes(self.file_size as nat, 4);
        let f6 = le_bytes(self.mem_size as nat, 4);
        let none = Seq::<u8>::empty();
        lemma_le_bytes_len(self.typ as nat, 1);
        lemma_le_bytes_len(self.flags@ as nat, 1);
        lemma_le_bytes_len(self.align as nat, 2);
        lemma_le_bytes_len(self.file as nat, 4);
        lemma_le_bytes_len(self.mem as nat, 8);
        lemma_le_bytes_len(self.file_size as nat, 4);
        lemma_le_bytes_len(self.mem_size as nat, 4);
        assert(e =~= none + f0 + (f1 + f2 + f3 + f4 + f5 + f6));
        lemma_le_field(s, at, 24, none, self.typ as nat, 1, f1 + f2 + f3 + f4 + f5 + f6);
        assert(e =~= f0 + f1 + (f2 + f3 + f4 + f5 + f6));
        lemma_le_field(s, at, 24, f0, self.flags@ as nat, 1, f2 + f3 + f4 + f5 + f6);
        assert(e =~= (f0 + f1) + f2 + (f3 + f4 + f5 + f6));
        lemma_le_field(s, at, 24, f0 + f1, self.align as nat, 2, f3 + f4 + f5 + f6);
        assert(e =~= (f0 + f1 + f2) + f3 + (f4 + f5 + f6));
        lemma_le_field(s, at, 24, f0 + f1 + f2, self.file as nat, 4, f4 + f5 + f6);
        assert(e =~= (f0 + f1 + f2 + f3) + f4 + (f5 + f6));
        lemma_le_field(s, at, 24, f0 + f1 + f2 + f3, self.mem as nat, 8, f5 + f6);
        assert(e =~= (f0 + f1 + f2 + f3 + f4) + f5 + f6);
        lemma_le_field(s, at, 24, f0 + f1 + f2 + f3 + f4, self.file_size as nat, 4, f6);
        assert(e =~= (f0 + f1 + f2 + f3 + f4 + f5) + f6 + none);
        lemma_le_field(s, at, 24, f0 + f1 + f2 + f3 + f4 + f5, self.mem_size as nat, 4, none);
        PermissionFlags::lemma_of_bits(self.flags@);
        PermissionFlags::lemma_same(PermissionFlags::of_bits(self.flags@), self.flags);
    }

    /// Reads the header that stands at `at`.
    pub fn read(buf: &[u8], at: usize) -> (r: SegmentHeader)
        requires
            at + 24 <= buf@.len(),
        ensures
            r == Self::decode(buf@, at as int),
    {
        assert(at + 24 <= buf.len());
        proof {
            lemma_le_at_bound(buf@, at as int, 1);
            lemma_le_at_bound(buf@, at + 1, 1);
            lemma_le_at_bound(buf@, at + 2, 2);
            lemma_le_at_bound(buf@, at + 4, 4);
            lemma_le_at_bound(buf@, at + 8, 8);
            lemma_le_at_bound(buf@, at + 16, 4);
            lemma_le_at_bound(buf@, at + 20, 4);
            lemma_limits();
        }
        SegmentHeader {
            typ: read_u8(buf, at),
            flags: PermissionFlags::from_bits_truncate(read_u8(buf, at + 1)),
            align: read_u16(buf, at + 2),
            file: read_u32(buf, at + 4),
            mem: read_u64(buf, at + 8),
            file_size: read_u32(buf, at + 16),
            mem_size: read_u32(buf, at + 20),
        }
    }

    /// Parses a header from the start of `i` and hands back what follows it.
    pub fn parse(i: &[u8]) -> (r: Result<(&[u8], SegmentHeader), Error>)
        ensures
            match Self::parse_spec(i@) {
                Ok(h) => r matches Ok((rest, header)) && header == h && rest@ == i@.subrange(
                    24,
                    i@.len() as int,
                ),
                Err(e) => r matches Err(err) && err@ == e,
            },
    {
        if i.len() < 24 {
            return Err(Error::TruncatedInput);
        }
        let header = Self::read(i, 0);
        let rest = slice_subrange(i, 24, i.len());
        Ok((rest, header))
    }

    /// Appends the 24 bytes of the header to `w`.
    pub fn write(&self, w: &mut Vec<u8>)
        ensures
            final(w)@ == old(w)@ + self.encoding(),
    {
        push_le(w, self.typ as u64, 1);
        push_le(w, self.flags.bits() as u64, 1);
        push_le(w, self.align as u64, 2);
        push_le(w, self.file as u64, 4);
        push_le(w, self.mem, 8);
        push_le(w, self.file_size as u64, 4);
        push_le(w, self.mem_size as u64, 4);
        assert(w@ =~= old(w)@ + self.encoding());
    }
}

} // verus!
