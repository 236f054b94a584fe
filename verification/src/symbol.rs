//! Symbols: named program entities.

use vstd::prelude::*;
use vstd::slice::slice_subrange;
use crate::error::{Error, Failure};
use crate::wire::{
    le_at, le_bytes, lemma_le_at_bound, lemma_le_bytes_len, lemma_le_field, lemma_limits, push_le,
    read_u16, read_u32, read_u64,
};

verus! {

/// The number of bytes a symbol takes.
pub const SYM_SIZE: u32 = 16;

/// A named entity: where its name stands in the string table, how large it
/// is, which section defines it and where in that section it lies.
#[derive(Clone, Copy, Debug, PartialEq, Eq)]
pub struct Sym {
    pub name: u32,
    pub size: u16,
    pub section: u16,
    pub value: u64,
}

impl Sym {
    /// The 16 bytes of the symbol, every field little-endian.
    pub open spec fn encoding(self) -> Seq<u8> {
        le_bytes(self.name as nat, 4) + le_bytes(self.size as nat, 2) + le_bytes(
            self.section as nat,
            2,
        ) + le_bytes(self.value as nat, 8)
    }

    /// The symbol whose fields are the bytes of `s` from `at` on.
    pub open spec fn decode(s: Seq<u8>, at: int) -> Sym {
        Sym {
            name: le_at(s, at, 4) as u32,
            size: le_at(s, at + 4, 2) as u16,
            section: le_at(s, at + 6, 2) as u16,
            value: le_at(s, at + 8, 8) as u64,
        }
    }

    /// What parsing a symbol from the start of `s` gives.
    pub open spec fn parse_spec(s: Seq<u8>) -> Result<Sym, Failure> {
        if s.len() < 16 {
            Err(Failure::TruncatedInput)
        } else {
            Ok(Self::decode(s, 0))
        }
    }

    /// The encoding is 16 bytes long.
    pub proof fn lemma_encoding(self)
        ensures
            self.encoding().len() == 16,
    {
        lemma_le_bytes_len(self.name as nat, 4);
        lemma_le_bytes_len(self.size as nat, 2);
        lemma_le_bytes_len(self.section as nat, 2);
        lemma_le_bytes_len(self.value as nat, 8);
    }

    /// Decoding the bytes of a symbol, wherever they stand, gives the symbol.
    pub proof fn lemma_round_trip(self, s: Seq<u8>, at: int)
        requires
            0 <= at,
            at + 16 <= s.len(),
            s.subrange(at, at + 16) == self.encoding(),
        ensures
            Self::decode(s, at) == self,
    {
        self.lemma_encoding();
        lemma_limits();
        let e = self.encoding();
        let f0 = le_bytes(self.name as nat, 4);
        let f1 = le_bytes(self.size as nat, 2);
        let f2 = le_bytes(self.section as nat, 2);
        let f3 = le_bytes(self.value as nat, 8);
        let none = Seq::<u8>::empty();
        lemma_le_bytes_len(self.name as nat, 4);
        lemma_le_bytes_len(self.size as nat, 2);
        lemma_le_bytes_len(self.section as nat, 2);
        lemma_le_bytes_len(self.value as nat, 8);
        assert(e =~= none + f0 + (f1 + f2 + f3));
        lemma_le_field(s, at, 16, none, self.name as nat, 4, f1 + f2 + f3);
        assert(e =~= f0 + f1 + (f2 + f3));
        lemma_le_field(s, at, 16, f0, self.size as nat, 2, f2 + f3);
        assert(e =~= (f0 + f1) + f2 + f3);
        lemma_le_field(s, at, 16, f0 + f1, self.section as nat, 2, f3);
        assert(e =~= (f0 + f1 + f2) + f3 + none);
        lemma_le_field(s, at, 16, f0 + f1 + f2, self.value as nat, 8, none);
    }

    /// Reads the symbol that stands at `at`.
    pub fn read(buf: &[u8], at: usize) -> (r: Sym)
        requires
            at + 16 <= buf@.len(),
        ensures
            r == Self::decode(buf@, at as int),
    {
        assert(at + 16 <= buf.len());
        proof {
            lemma_le_at_bound(buf@, at as int, 4);
            lemma_le_at_bound(buf@, at + 4, 2);
            lemma_le_at_bound(buf@, at + 6, 2);
            lemma_le_at_bound(buf@, at + 8, 8);
            lemma_limits();
        }
        Sym {
            name: read_u32(buf, at),
            size: read_u16(buf, at + 4),
            section: read_u16(buf, at + 6),
            value: read_u64(buf, at + 8),
        }
    }

    /// Parses a symbol from the start of `i` and hands back what follows it.
    pub fn parse(i: &[u8]) -> (r: Result<(&[u8], Sym), Error>)
        ensures
            match Self::parse_spec(i@) {
                Ok(s) => r matches Ok((rest, sym)) && sym == s && rest@ == i@.subrange(
                    16,
                    i@.len() as int,
                ),
                Err(e) => r matches Err(err) && err@ == e,
            },
    {
        if i.len() < 16 {
            return Err(Error::TruncatedInput);
        }
        let sym = Self::read(i, 0);
        let rest = slice_subrange(i, 16, i.len());
        Ok((rest, sym))
    }

    /// Appends the 16 bytes of the symbol to `w`.
    pub fn write(&self, w: &mut Vec<u8>)
        ensures
            final(w)@ == old(w)@ + self.encoding(),
    {
        push_le(w, self.name as u64, 4);
        push_le(w, self.size as u64, 2);
        push_le(w, self.section as u64, 2);
        push_le(w, self.value, 8);
        assert(w@ =~= old(w)@ + self.encoding());
    }
}

} // verus!
