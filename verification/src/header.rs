//! The file header: the tag and the counts that open every image.

use vstd::prelude::*;
use vstd::slice::slice_subrange;
use crate::error::Failure;
use crate::error::Error;
use crate::wire::{le_at, le_bytes, lemma_le_field, push_le, read_u16, read_u32, read_u64};

verus! {

/// The number of bytes a file header takes, tag included.
pub const FILE_HDR_SIZE: u32 = 32;

/// The four bytes `VSBF` that open every image.
pub open spec fn magic() -> Seq<u8> {
    seq![0x56u8, 0x53u8, 0x42u8, 0x46u8]
}

/// What stands at the start of an image: the machine it is for and the sizes
/// of the tables that follow.
#[derive(Clone, Copy, Debug, PartialEq, Eq)]
pub struct FileHeader {
    pub arch: u16,
    pub os: u16,
    pub num_segments: u16,
    pub num_sections: u16,
    pub strtab_size: u32,
    pub num_symbols: u32,
    pub num_relocs: u32,
    pub next_header: u64,
}

impl FileHeader {
    /// The 32 bytes of the header: the tag, then every field, little-endian.
    pub open spec fn encoding(self) -> Seq<u8> {
        magic() + le_bytes(self.arch as nat, 2) + le_bytes(self.os as nat, 2) + le_bytes(
            self.num_segments as nat,
            2,
        ) + le_bytes(self.num_sections as nat, 2) + le_bytes(self.strtab_size as nat, 4)
            + le_bytes(self.num_symbols as nat, 4) + le_bytes(self.num_relocs as nat, 4)
            + le_bytes(self.next_header as nat, 8)
    }

    /// The header whose fields are the bytes of `s` from `at` on; the tag is
    /// not looked at.
    pub open spec fn decode(s: Seq<u8>, at: int) -> FileHeader {
        FileHeader {
            arch: le_at(s, at + 4, 2) as u16,
            os: le_at(s, at + 6, 2) as u16,
            num_segments: le_at(s, at + 8, 2) as u16,
            num_sections: le_at(s, at + 10, 2) as u16,
            strtab_size: le_at(s, at + 12, 4) as u32,
            num_symbols: le_at(s, at + 16, 4) as u32,
            num_relocs: le_at(s, at + 20, 4) as u32,
            next_header: le_at(s, at + 24, 8) as u64,
        }
    }

    /// Whether `s` opens with the tag.
    pub open spec fn tagged(s: Seq<u8>) -> bool {
        s.len() >= 4 && s.subrange(0, 4) == magic()
    }

    /// What parsing a header from the start of `s` gives: a wrong or missing
    /// tag is reported first, then an input too short for the fields.
    pub open spec fn parse_spec(s: Seq<u8>) -> Result<FileHeader, Failure> {
        if !Self::tagged(s) {
            Err(Failure::MalformedHeader)
        } else if s.len() < 32 {
            Err(Failure::TruncatedInput)
        } else {
            Ok(Self::decode(s, 0))
        }
    }

    /// The encoding is 32 bytes long and opens with the tag.
    pub proof fn lemma_encoding(self)
        ensures
            self.encoding().len() == 32,
            Self::tagged(self.encoding()),
    {
        crate::wire::lemma_le_bytes_len(self.arch as nat, 2);
        crate::wire::lemma_le_bytes_len(self.os as nat, 2);
        crate::wire::lemma_le_bytes_len(self.num_segments as nat, 2);
        crate::wire::lemma_le_bytes_len(self.num_sections as nat, 2);
        crate::wire::lemma_le_bytes_len(self.strtab_size as nat, 4);
        crate::wire::lemma_le_bytes_len(self.num_symbols as nat, 4);
        crate::wire::lemma_le_bytes_len(self.num_relocs as nat, 4);
        crate::wire::lemma_le_bytes_len(self.next_header as nat, 8);
        assert(self.encoding().subrange(0, 4) =~= magic());
    }

    /// Decoding the bytes of a header, wherever they stand, gives the header.
    pub proof fn lemma_round_trip(self, s: Seq<u8>, at: int)
        requires
            0 <= at,
            at + 32 <= s.len(),
            s.subrange(at, at + 32) == self.encoding(),
        ensures
            Self::decode(s, at) == self,
    {
        self.lemma_encoding();
        crate::wire::lemma_limits();
        let e = self.encoding();
        let f0 = magic();
        let f1 = le_bytes(self.arch as nat, 2);
        let f2 = le_bytes(self.os as nat, 2);
        let f3 = le_bytes(self.num_segments as nat, 2);
        let f4 = le_bytes(self.num_sections as nat, 2);
        let f5 = le_bytes(self.strtab_size as nat, 4);
        let f6 = le_bytes(self.num_symbols as nat, 4);
        let f7 = le_bytes(self.num_relocs as nat, 4);
        let f8 = le_bytes(self.next_header as nat, 8);
        crate::wire::lemma_le_bytes_len(self.arch as nat, 2);
        crate::wire::lemma_le_bytes_len(self.os as nat, 2);
        crate::wire::lemma_le_bytes_len(self.num_segments as nat, 2);
        crate::wire::lemma_le_bytes_len(self.num_sections as nat, 2);
        crate::wire::lemma_le_bytes_len(self.strtab_size as nat, 4);
        crate::wire::lemma_le_bytes_len(self.num_symbols as nat, 4);
        crate::wire::lemma_le_bytes_len(self.num_relocs as nat, 4);
        crate::wire::lemma_le_bytes_len(self.next_header as nat, 8);
        assert(e =~= f0 + f1 + (f2 + f3 + f4 + f5 + f6 + f7 + f8));
        lemma_le_field(s, at, 32, f0, self.arch as nat, 2, f2 + f3 + f4 + f5 + f6 + f7 + f8);
        assert(e =~= (f0 + f1) + f2 + (f3 + f4 + f5 + f6 + f7 + f8));
        lemma_le_field(s, at, 32, f0 + f1, self.os as nat, 2, f3 + f4 + f5 + f6 + f7 + f8);
        assert(e =~= (f0 + f1 + f2) + f3 + (f4 + f5 + f6 + f7 + f8));
        lemma_le_field(s, at, 32, f0 + f1 + f2, self.num_segments as nat, 2, f4 + f5 + f6 + f7 + f8);
        assert(e =~= (f0 + f1 + f2 + f3) + f4 + (f5 + f6 + f7 + f8));
        lemma_le_field(s, at, 32, f0 + f1 + f2 + f3, self.num_sections as nat, 2, f5 + f6 + f7 + f8);
        assert(e =~= (f0 + f1 + f2 + f3 + f4) + f5 + (f6 + f7 + f8));
        lemma_le_field(s, at, 32, f0 + f1 + f2 + f3 + f4, self.strtab_size as nat, 4, f6 + f7 + f8);
        assert(e =~= (f0 + f1 + f2 + f3 + f4 + f5) + f6 + (f7 + f8));
        lemma_le_field(s, at, 32, f0 + f1 + f2 + f3 + f4 + f5, self.num_symbols as nat, 4, f7 + f8);
        assert(e =~= (f0 + f1 + f2 + f3 + f4 + f5 + f6) + f7 + f8);
        lemma_le_field(s, at, 32, f0 + f1 + f2 + f3 + f4 + f5 + f6, self.num_relocs as nat, 4, f8);
        assert(e =~= (f0 + f1 + f2 + f3 + f4 + f5 + f6 + f7) + f8 + Seq::<u8>::empty());
        lemma_le_field(
            s,
            at,
            32,
            f0 + f1 + f2 + f3 + f4 + f5 + f6 + f7,
            self.next_header as nat,
            8,
            Seq::<u8>::empty(),
        );
    }

    /// Reads the header fields that stand at `at`, without looking at the tag.
    pub fn read(buf: &[u8], at: usize) -> (r: FileHeader)
        requires
            at + 32 <= buf@.len(),
        ensures
            r == Self::decode(buf@, at as int),
    {
        assert(at + 32 <= buf.len());
        proof {
            crate::wire::lemma_le_at_bound(buf@, at + 4, 2);
            crate::wire::lemma_le_at_bound(buf@, at + 6, 2);
            crate::wire::lemma_le_at_bound(buf@, at + 8, 2);
            crate::wire::lemma_le_at_bound(buf@, at + 10, 2);
            crate::wire::lemma_le_at_bound(buf@, at + 12, 4);
            crate::wire::lemma_le_at_bound(buf@, at + 16, 4);
            crate::wire::lemma_le_at_bound(buf@, at + 20, 4);
            crate::wire::lemma_le_at_bound(buf@, at + 24, 8);
            crate::wire::lemma_limits();
        }
        FileHeader {
            arch: read_u16(buf, at + 4),
            os: read_u16(buf, at + 6),
            num_segments: read_u16(buf, at + 8),
            num_sections: read_u16(buf, at + 10),
            strtab_size: read_u32(buf, at + 12),
            num_symbols: read_u32(buf, at + 16),
            num_relocs: read_u32(buf, at + 20),
            next_header: read_u64(buf, at + 24),
        }
    }

    /// Parses a header from the start of `i` and hands back what follows it.
    pub fn parse(i: &[u8]) -> (r: Result<(&[u8], FileHeader), Error>)
        ensures
            match Self::parse_spec(i@) {
                Ok(h) => r matches Ok((rest, header)) && header == h && rest@ == i@.subrange(
                    32,
                    i@.len() as int,
                ),
                Err(e) => r matches Err(err) && err@ == e,
            },
    {
        if i.len() < 4 || i[0] != 0x56 || i[1] != 0x53 || i[2] != 0x42 || i[3] != 0x46 {
            proof {
                if i@.len() >= 4 {
                    let m = i@.subrange(0, 4);
                    assert(m[0] == i@[0] && m[1] == i@[1] && m[2] == i@[2] && m[3] == i@[3]);
                }
            }
            return Err(Error::MalformedHeader);
        }
        assert(i@.subrange(0, 4) =~= magic());
        if i.len() < 32 {
            return Err(Error::TruncatedInput);
        }
        let header = Self::read(i, 0);
        let rest = slice_subrange(i, 32, i.len());
        Ok((rest, header))
    }

    /// Appends the 32 bytes of the header to `w`.
    pub fn write(&self, w: &mut Vec<u8>)
        ensures
            final(w)@ == old(w)@ + self.encoding(),
    {
        w.push(0x56);
        w.push(0x53);
        w.push(0x42);
        w.push(0x46);
        assert(w@ =~= old(w)@ + magic());
        push_le(w, self.arch as u64, 2);
        push_le(w, self.os as u64, 2);
        push_le(w, self.num_segments as u64, 2);
        push_le(w, self.num_sections as u64, 2);
        push_le(w, self.strtab_size as u64, 4);
        push_le(w, self.num_symbols as u64, 4);
        push_le(w, self.num_relocs as u64, 4);
        push_le(w, self.next_header, 8);
        assert(w@ =~= old(w)@ + self.encoding());
    }
}

} // verus!
