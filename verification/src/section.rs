//! Sections: typed chunks of content, and the closed set of their types.

use vstd::prelude::*;
use vstd::slice::slice_subrange;
use crate::error::{Error, Failure};
use crate::flags::PermissionFlags;
use crate::wire::{
    le_at, le_bytes, lemma_le_at_bound, lemma_le_bytes_len, lemma_le_field, lemma_limits, push_le,
    read_u16, read_u32, read_u64, read_u8,
};

verus! {

/// The number of bytes a section header takes.
pub const SECTION_HDR_SIZE: u32 = 16;

/// What a section holds. The set is closed: a type byte that names none of
/// these is an error, never a guess.
#[derive(Clone, Copy, Debug, PartialEq, Eq, Structural)]
pub enum SectionType {
    /// Code, type byte 0.
    Text,
    /// Writable data, type byte 1.
    Data,
    /// Read-only data, type byte 2.
    Rodata,
}

impl SectionType {
    /// The type byte.
    pub open spec fn id(self) -> u8 {
        match self {
            SectionType::Text => 0,
            SectionType::Data => 1,
            SectionType::Rodata => 2,
        }
    }

    /// The type that a type byte names, if any.
    pub open spec fn of(raw: u8) -> Option<SectionType> {
        if raw == 0 {
            Some(SectionType::Text)
        } else if raw == 1 {
            Some(SectionType::Data)
        } else if raw == 2 {
            Some(SectionType::Rodata)
        } else {
            None
        }
    }

    /// The lower-case name of the type.
    pub open spec fn text(self) -> Seq<char> {
        match self {
            SectionType::Text => "text"@,
            SectionType::Data => "data"@,
            SectionType::Rodata => "rodata"@,
        }
    }

    /// The type byte.
    pub fn to_u8(&self) -> (r: u8)
        ensures
            r == self.id(),
    {
        match self {
            SectionType::Text => 0,
            SectionType::Data => 1,
            SectionType::Rodata => 2,
        }
    }

    /// The type byte as its one-byte encoding.
    pub fn to_le_bytes(&self) -> (r: [u8; 1])
        ensures
            r@ == seq![self.id()],
    {
        let r = [self.to_u8()];
        assert(r@ =~= seq![self.id()]);
        r
    }

    /// The type that a type byte names; the byte itself comes back where it
    /// names none.
    pub fn try_from(value: u8) -> (r: Result<SectionType, u8>)
        ensures
            match Self::of(value) {
                Some(t) => r == Ok::<SectionType, u8>(t),
                None => r == Err::<SectionType, u8>(value),
            },
    {
        match value {
            0 => Ok(SectionType::Text),
            1 => Ok(SectionType::Data),
            2 => Ok(SectionType::Rodata),
            _ => Err(value),
        }
    }

    /// The lower-case name of the type: `text`, `data` or `rodata`.
    pub fn name(&self) -> (r: &'static str)
        ensures
            r@ == self.text(),
    {
        match self {
            SectionType::Text => "text",
            SectionType::Data => "data",
            SectionType::Rodata => "rodata",
        }
    }

    /// A type byte and the type it names determine each other.
    pub proof fn lemma_id_of(self)
        ensures
            Self::of(self.id()) == Some(self),
    {
    }
}

/// A chunk of content: its type and rights, where its bytes lie in the data
/// and where they belong in memory.
#[derive(Clone, Copy, Debug, PartialEq, Eq)]
pub struct SectionHeader {
    pub typ: SectionType,
    pub flags: PermissionFlags,
    pub file_size: u16,
    pub offset: u32,
    pub memory: u64,
}

impl SectionHeader {
    /// The 16 bytes of the header, every field little-endian.
    pub open spec fn encoding(self) -> Seq<u8> {
        le_bytes(self.typ.id() as nat, 1) + le_bytes(self.flags@ as nat, 1) + le_bytes(
            self.file_size as nat,
            2,
        ) + le_bytes(self.offset as nat, 4) + le_bytes(self.memory as nat, 8)
    }

    /// The type byte of the header that stands at `at`.
    pub open spec fn type_byte(s: Seq<u8>, at: int) -> u8 {
        le_at(s, at, 1) as u8
    }

    /// The header whose fields are the bytes of `s` from `at` on, if its type
    /// byte names a type. Bits of the flags byte that name no right are
    /// dropped.
    pub open spec fn decode(s: Seq<u8>, at: int) -> Option<SectionHeader> {
        match SectionType::of(Self::type_byte(s, at)) {
            None => None,
            Some(typ) => Some(
                SectionHeader {
                    typ,
                    flags: PermissionFlags::of_bits((le_at(s, at + 1, 1) % 8) as u8),
                    file_size: le_at(s, at + 2, 2) as u16,
                    offset: le_at(s, at + 4, 4) as u32,
                    memory: le_at(s, at + 8, 8) as u64,
                },
            ),
        }
    }

    /// What parsing a header from the start of `s` gives: an input too short
    /// is reported first, then an unknown type byte.
    pub open spec fn parse_spec(s: Seq<u8>) -> Result<SectionHeader, Failure> {
        if s.len() < 16 {
            Err(Failure::TruncatedInput)
        } else {
            match Self::decode(s, 0) {
                None => Err(Failure::UnknownSectionType(Self::type_byte(s, 0))),
                Some(h) => Ok(h),
            }
        }
    }

    /// The section holds code.
    pub open spec fn text(self) -> bool {
        self.typ == SectionType::Text
    }

    /// The section holds writable data.
    pub open spec fn data(self) -> bool {
        self.typ == SectionType::Data
    }

    /// The section holds read-only data.
    pub open spec fn rodata(self) -> bool {
        self.typ == SectionType::Rodata
    }

    /// The encoding is 16 bytes long.
    pub proof fn lemma_encoding(self)
        ensures
            self.encoding().len() == 16,
    {
        lemma_le_bytes_len(self.typ.id() as nat, 1);
        lemma_le_bytes_len(self.flags@ as nat, 1);
        lemma_le_bytes_len(self.file_size as nat, 2);
        lemma_le_bytes_len(self.offset as nat, 4);
        lemma_le_bytes_len(self.memory as nat, 8);
    }

    /// Decoding the bytes of a header, wherever they stand, gives the header.
    pub proof fn lemma_round_trip(self, s: Seq<u8>, at: int)
        requires
            self.flags.valid(),
            0 <= at,
            at + 16 <= s.len(),
            s.subrange(at, at + 16) == self.encoding(),
        ensures
            Self::decode(s, at) == Some(self),
    {
        self.lemma_encoding();
        lemma_limits();
        let e = self.encoding();
        let f0 = le_bytes(self.typ.id() as nat, 1);
        let f1 = le_bytes(self.flags@ as nat, 1);
        let f2 = le_bytes(self.file_size as nat, 2);
        let f3 = le_bytes(self.offset as nat, 4);
        let f4 = le_bytes(self.memory as nat, 8);
        let none = Seq::<u8>::empty();
        lemma_le_bytes_len(self.typ.id() as nat, 1);
        lemma_le_bytes_len(self.flags@ as nat, 1);
        lemma_le_bytes_len(self.file_size as nat, 2);
        lemma_le_bytes_len(self.offset as nat, 4);
        lemma_le_bytes_len(self.memory as nat, 8);
        assert(e =~= none + f0 + (f1 + f2 + f3 + f4));
        lemma_le_field(s, at, 16, none, self.typ.id() as nat, 1, f1 + f2 + f3 + f4);
        assert(e =~= f0 + f1 + (f2 + f3 + f4));
        lemma_le_field(s, at, 16, f0, self.flags@ as nat, 1, f2 + f3 + f4);
        assert(e =~= (f0 + f1) + f2 + (f3 + f4));
        lemma_le_field(s, at, 16, f0 + f1, self.file_size as nat, 2, f3 + f4);
        assert(e =~= (f0 + f1 + f2) + f3 + f4);
        lemma_le_field(s, at, 16, f0 + f1 + f2, self.offset as nat, 4, f4);
        assert(e =~= (f0 + f1 + f2 + f3) + f4 + none);
        lemma_le_field(s, at, 16, f0 + f1 + f2 + f3, self.memory as nat, 8, none);
        PermissionFlags::lemma_of_bits(self.flags@);
        PermissionFlags::lemma_same(PermissionFlags::of_bits(self.flags@), self.flags);
        self.typ.lemma_id_of();
    }

    /// Reads the header that stands at `at`; an unknown type byte comes back
    /// as the error.
    pub fn read(buf: &[u8], at: usize) -> (r: Result<SectionHeader, u8>)
        requires
            at + 16 <= buf@.len(),
        ensures
            match Self::decode(buf@, at as int) {
                Some(h) => r == Ok::<SectionHeader, u8>(h),
                None => r == Err::<SectionHeader, u8>(Self::type_byte(buf@, at as int)),
            },
    {
        assert(at + 16 <= buf.len());
        proof {
            lemma_le_at_bound(buf@, at as int, 1);
            lemma_le_at_bound(buf@, at + 1, 1);
            lemma_le_at_bound(buf@, at + 2, 2);
            lemma_le_at_bound(buf@, at + 4, 4);
            lemma_le_at_bound(buf@, at + 8, 8);
            lemma_limits();
        }
        match SectionType::try_from(read_u8(buf, at)) {
            Err(raw) => Err(raw),
            Ok(typ) => Ok(
                SectionHeader {
                    typ,
                    flags: PermissionFlags::from_bits_truncate(read_u8(buf, at + 1)),
                    file_size: read_u16(buf, at + 2),
                    offset: read_u32(buf, at + 4),
                    memory: read_u64(buf, at + 8),
                },
            ),
        }
    }

    /// Parses a header from the start of `i` and hands back what follows it.
    pub fn parse(i: &[u8]) -> (r: Result<(&[u8], SectionHeader), Error>)
        ensures
            match Self::parse_spec(i@) {
                Ok(h) => r matches Ok((rest, header)) && header == h && rest@ == i@.subrange(
                    16,
                    i@.len() as int,
                ),
                Err(e) => r matches Err(err) && err@ == e,
            },
    {
        if i.len() < 16 {
            return Err(Error::TruncatedInput);
        }
        match Self::read(i, 0) {
            Err(raw) => Err(Error::UnknownSectionType(raw)),
            Ok(header) => {
                let rest = slice_subrange(i, 16, i.len());
                Ok((rest, header))
            },
        }
    }

    /// Appends the 16 bytes of the header to `w`.
    pub fn write(&self, w: &mut Vec<u8>)
        ensures
            final(w)@ == old(w)@ + self.encoding(),
    {
        push_le(w, self.typ.to_u8() as u64, 1);
        push_le(w, self.flags.bits() as u64, 1);
        push_le(w, self.file_size as u64, 2);
        push_le(w, self.offset as u64, 4);
        push_le(w, self.memory, 8);
        assert(w@ =~= old(w)@ + self.encoding());
    }

    /// Whether the section holds code.
    pub fn is_text(&self) -> (r: bool)
        ensures
            r == self.text(),
    {
        self.typ.to_u8() == 0
    }

    /// Whether the section holds writable data.
    pub fn is_data(&self) -> (r: bool)
        ensures
            r == self.data(),
    {
        self.typ.to_u8() == 1
    }

    /// Whether the section holds read-only data.
    pub fn is_rodata(&self) -> (r: bool)
        ensures
            r == self.rodata(),
    {
        self.typ.to_u8() == 2
    }

    /// Whether the rights are exactly read and execute.
    pub fn is_rx(&self) -> (r: bool)
        ensures
            r == (self.flags@ == 5),
    {
        self.flags.bits() == 5
    }

    /// Whether the rights are exactly read and write.
    pub fn is_rw(&self) -> (r: bool)
        ensures
            r == (self.flags@ == 3),
    {
        self.flags.bits() == 3
    }

    /// Whether the only right is to read.
    pub fn is_ronly(&self) -> (r: bool)
        ensures
            r == (self.flags@ == 1),
    {
        self.flags.bits() == 1
    }
}

} // verus!
