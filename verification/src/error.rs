//! The ways in which decoding an image or linking a set of images fails.

use vstd::prelude::*;

verus! {

/// Why an image could not be decoded, extended or linked.
#[derive(Debug, PartialEq, Eq)]
pub enum Error {
    /// The four-byte tag at the start of the input is missing or wrong.
    MalformedHeader,
    /// The input is shorter than the record, or than the tables that its
    /// header declares.
    TruncatedInput,
    /// A section's type byte, given here, names no known section type.
    UnknownSectionType(u8),
    /// A string cannot be stored: it is not ASCII, its length does not fit the
    /// 16-bit length prefix, or the table would outgrow its 32-bit size.
    OversizedString,
    /// Relocations name symbols that no input defines; the names are given in
    /// the order of the relocations that need them.
    UndefinedSymbol(Vec<Vec<u8>>),
    /// A relocation names a symbol that has more than one definition.
    DuplicateSymbol(Vec<u8>),
    /// The bytes that the relocation at this target offset would patch do not
    /// lie within one merged section.
    RelocationOutOfBounds(u64),
}

/// An [`Error`] with its names as byte sequences.
pub enum Failure {
    MalformedHeader,
    TruncatedInput,
    UnknownSectionType(u8),
    OversizedString,
    UndefinedSymbol(Seq<Seq<u8>>),
    DuplicateSymbol(Seq<u8>),
    RelocationOutOfBounds(u64),
}

impl View for Error {
    type V = Failure;

    open spec fn view(&self) -> Failure {
        match *self {
            Error::MalformedHeader => Failure::MalformedHeader,
            Error::TruncatedInput => Failure::TruncatedInput,
            Error::UnknownSectionType(raw) => Failure::UnknownSectionType(raw),
            Error::OversizedString => Failure::OversizedString,
            Error::UndefinedSymbol(names) => Failure::UndefinedSymbol(
                names@.map_values(|n: Vec<u8>| n@),
            ),
            Error::DuplicateSymbol(name) => Failure::DuplicateSymbol(name@),
            Error::RelocationOutOfBounds(offset) => Failure::RelocationOutOfBounds(offset),
        }
    }
}

} // verus!
