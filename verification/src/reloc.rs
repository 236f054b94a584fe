//! Relocations: address fix-ups that wait for a symbol's final place.

use vstd::prelude::*;
use vstd::slice::slice_subrange;
use crate::error::{Error, Failure};
use crate::wire::{
    bits_of_i16, i16_bits, i16_of_bits, le_at, le_bytes, lemma_le_at_bound, lemma_le_bytes_len,
    lemma_le_field, lemma_limits, push_le, read_i16, read_u16, read_u32, read_u64,
};

verus! {

/// The number of bytes a relocation takes.
pub const REL_SIZE: u32 = 16;

/// A fix-up: its kind, the signed addend, where the name of the symbol it
/// needs stands in the string table, and where in the data it is applied.
#[derive(Clone, Copy, Debug, PartialEq, Eq)]
pub struct Rel {
    pub typ: u16,
    pub addend: i16,
    pub needed: u32,
    pub offset: u64,
}

impl Rel {
    /// The 16 bytes of the relocation, every field little-endian, the addend
    /// in two's complement.
    pub open spec fn encoding(self) -> Seq<u8> {
        le_bytes(self.typ as nat, 2) + le_bytes(i16_bits(self.addend), 2) + le_bytes(
            self.needed as nat,
            4,
        ) + le_bytes(self.offset as nat, 8)
    }

    /// The relocation whose fields are the bytes of `s` from `at` on.
    pub open spec fn decode(s: Seq<u8>, at: int) -> Rel {
        Rel {
            typ: le_at(s, at, 2) as u16,
            addend: i16_of_bits(le_at(s, at + 2, 2)),
            needed: le_at(s, at + 4, 4) as u32,
            offset: le_at(s, at + 8, 8) as u64,
        }
    }

    /// What parsing a relocation from the start of `s` gives.
    pub open spec fn parse_spec(s: Seq<u8>) -> Result<Rel, Failure> {
        if s.len() < 16 {
            Err(Failure::TruncatedInput)
        } else {
            Ok(Self::decode(s, 0))
        }
    }

    /// The encoding is 16 bytes long.
    pub proof fn lemma_encoding(self)
        ensures
            self.encoding().len() == 16,
    {
        lemma_le_bytes_len(self.typ as nat, 2);
        lemma_le_bytes_len(i16_bits(self.addend), 2);
        lemma_le_bytes_len(self.needed as nat, 4);
        lemma_le_bytes_len(self.offset as nat, 8);
    }

    /// Decoding the bytes of a relocation, wherever they stand, gives the
    /// relocation.
    pub proof fn lemma_round_trip(self, s: Seq<u8>, at: int)
        requires
            0 <= at,
            at + 16 <= s.len(),
            s.subrange(at, at + 16) == self.encoding(),
        ensures
            Self::decode(s, at) == self,
    {
        self.lemma_encoding();
        lemma_limits();
        let e = self.encoding();
        let f0 = le_bytes(self.typ as nat, 2);
        let f1 = le_bytes(i16_bits(self.addend), 2);
        let f2 = le_bytes(self.needed as nat, 4);
        let f3 = le_bytes(self.offset as nat, 8);
        let none = Seq::<u8>::empty();
        lemma_le_bytes_len(self.typ as nat, 2);
        lemma_le_bytes_len(i16_bits(self.addend), 2);
        lemma_le_bytes_len(self.needed as nat, 4);
        lemma_le_bytes_len(self.offset as nat, 8);
        assert(e =~= none + f0 + (f1 + f2 + f3));
        lemma_le_field(s, at, 16, none, self.typ as nat, 2, f1 + f2 + f3);
        assert(e =~= f0 + f1 + (f2 + f3));
        lemma_le_field(s, at, 16, f0, i16_bits(self.addend), 2, f2 + f3);
        assert(e =~= (f0 + f1) + f2 + f3);
        lemma_le_field(s, at, 16, f0 + f1, self.needed as nat, 4, f3);
        assert(e =~= (f0 + f1 + f2) + f3 + none);
        lemma_le_field(s, at, 16, f0 + f1 + f2, self.offset as nat, 8, none);
    }

    /// Reads the relocation that stands at `at`.
    pub fn read(buf: &[u8], at: usize) -> (r: Rel)
        requires
            at + 16 <= buf@.len(),
        ensures
            r == Self::decode(buf@, at as int),
    {
        assert(at + 16 <= buf.len());
        proof {
            lemma_le_at_bound(buf@, at as int, 2);
            lemma_le_at_bound(buf@, at + 2, 2);
            lemma_le_at_bound(buf@, at + 4, 4);
            lemma_le_at_bound(buf@, at + 8, 8);
            lemma_limits();
        }
        Rel {
            typ: read_u16(buf, at),
            addend: read_i16(buf, at + 2),
            needed: read_u32(buf, at + 4),
            offset: read_u64(buf, at + 8),
        }
    }

    /// Parses a relocation from the start of `i` and hands back what follows
    /// it.
    pub fn parse(i: &[u8]) -> (r: Result<(&[u8], Rel), Error>)
        ensures
            match Self::parse_spec(i@) {
                Ok(x) => r matches Ok((rest, rel)) && rel == x && rest@ == i@.subrange(
                    16,
                    i@.len() as int,
                ),
                Err(e) => r matches Err(err) && err@ == e,
            },
    {
        if i.len() < 16 {
            return Err(Error::TruncatedInput);
        }
        let rel = Self::read(i, 0);
        let rest = slice_subrange(i, 16, i.len());
        Ok((rest, rel))
    }

    /// Appends the 16 bytes of the relocation to `w`.
    pub fn write(&self, w: &mut Vec<u8>)
        ensures
            final(w)@ == old(w)@ + self.encoding(),
    {
        push_le(w, self.typ as u64, 2);
        push_le(w, bits_of_i16(self.addend) as u64, 2);
        push_le(w, self.needed as u64, 4);
        push_le(w, self.offset, 8);
        assert(w@ =~= old(w)@ + self.encoding());
    }
}

} // verus!
