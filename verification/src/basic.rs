//! The basic layout: an image that holds only a header, segment headers,
//! section headers and data, with no string table, symbols or relocations.
//! Its header is shorter, a section's type is kept as the raw byte, and the
//! header's counts are upper bounds: a file that ends early holds fewer
//! records.

use vstd::prelude::*;
use vstd::slice::slice_subrange;
use crate::error::{Error, Failure};
use crate::flags::PermissionFlags;
use crate::header::FileHeader;
use crate::segment::SegmentHeader;
use crate::wire::{le_at, lemma_le_at_bound, lemma_limits, read_u16, read_u32, read_u64, read_u8};

verus! {

/// The header of the basic layout: 20 bytes with the tag.
#[derive(Clone, Copy, Debug, PartialEq, Eq)]
pub struct Header {
    pub arch: u16,
    pub os: u16,
    pub num_segments: u16,
    pub num_sections: u16,
    pub next_header: u64,
}

/// A section header of the basic layout, with its type as the raw byte.
#[derive(Clone, Copy, Debug, PartialEq, Eq)]
pub struct SectionHeader {
    pub typ: u8,
    pub flags: PermissionFlags,
    pub file_size: u16,
    pub offset: u32,
    pub memory: u64,
}

/// A file of the basic layout, parsed; the data is borrowed from the input.
pub struct Vsbf<'a> {
    pub header: Header,
    pub sections: Vec<SectionHeader>,
    pub segments: Vec<SegmentHeader>,
    pub data: &'a [u8],
}

/// The header whose fields are the bytes of `s` behind the tag.
pub open spec fn decode_header(s: Seq<u8>) -> Header {
    Header {
        arch: le_at(s, 4, 2) as u16,
        os: le_at(s, 6, 2) as u16,
        num_segments: le_at(s, 8, 2) as u16,
        num_sections: le_at(s, 10, 2) as u16,
        next_header: le_at(s, 12, 8) as u64,
    }
}

/// What parsing a header gives: a wrong or missing tag is reported first,
/// then an input too short for the fields.
pub open spec fn header_of(s: Seq<u8>) -> Result<Header, Failure> {
    if !FileHeader::tagged(s) {
        Err(Failure::MalformedHeader)
    } else if s.len() < 20 {
        Err(Failure::TruncatedInput)
    } else {
        Ok(decode_header(s))
    }
}

/// The section header whose fields are the bytes of `s` from `at` on. Bits
/// of the flags byte that name no right are dropped.
pub open spec fn decode_section(s: Seq<u8>, at: int) -> SectionHeader {
    SectionHeader {
        typ: le_at(s, at, 1) as u8,
        flags: PermissionFlags::of_bits((le_at(s, at + 1, 1) % 8) as u8),
        file_size: le_at(s, at + 2, 2) as u16,
        offset: le_at(s, at + 4, 4) as u32,
        memory: le_at(s, at + 8, 8) as u64,
    }
}

/// How many records of `size` bytes are read from `room` bytes when at most
/// `count` are asked for.
pub open spec fn records(count: int, room: int, size: int) -> int {
    if count <= room / size {
        count
    } else {
        room / size
    }
}

/// How many segment headers a file with header `h` holds.
pub open spec fn segments_held(s: Seq<u8>, h: Header) -> int {
    records(h.num_segments as int, s.len() - 20, 24)
}

/// Where the section headers start.
pub open spec fn sections_start(s: Seq<u8>, h: Header) -> int {
    20 + 24 * segments_held(s, h)
}

/// How many section headers the file holds.
pub open spec fn sections_held(s: Seq<u8>, h: Header) -> int {
    records(h.num_sections as int, s.len() - sections_start(s, h), 16)
}

/// Where the data starts.
pub open spec fn data_start(s: Seq<u8>, h: Header) -> int {
    sections_start(s, h) + 16 * sections_held(s, h)
}

/// Parses the header of the basic layout and hands back what follows it.
pub fn parse_header(i: &[u8]) -> (r: Result<(&[u8], Header), Error>)
    ensures
        match header_of(i@) {
            Ok(h) => r matches Ok((rest, header)) && header == h && rest@ == i@.subrange(
                20,
                i@.len() as int,
            ),
            Err(e) => r matches Err(err) && err@ == e,
        },
{
    if i.len() < 4 || i[0] != 0x56 || i[1] != 0x53 || i[2] != 0x42 || i[3] != 0x46 {
        proof {
            if i@.len() >= 4 {
                let m = i@.subrange(0, 4);
                assert(m[0] == i@[0] && m[1] == i@[1] && m[2] == i@[2] && m[3] == i@[3]);
            }
        }
        return Err(Error::MalformedHeader);
    }
    assert(i@.subrange(0, 4) =~= crate::header::magic());
    if i.len() < 20 {
        return Err(Error::TruncatedInput);
    }
    proof {
        lemma_le_at_bound(i@, 4, 2);
        lemma_le_at_bound(i@, 6, 2);
        lemma_le_at_bound(i@, 8, 2);
        lemma_le_at_bound(i@, 10, 2);
        lemma_le_at_bound(i@, 12, 8);
        lemma_limits();
    }
    let header = Header {
        arch: read_u16(i, 4),
        os: read_u16(i, 6),
        num_segments: read_u16(i, 8),
        num_sections: read_u16(i, 10),
        next_header: read_u64(i, 12),
    };
    Ok((slice_subrange(i, 20, i.len()), header))
}

/// Parses a segment header from the start of `i` and hands back what
/// follows it.
pub fn parse_segment_header(i: &[u8]) -> (r: Result<(&[u8], SegmentHeader), Error>)
    ensures
        match SegmentHeader::parse_spec(i@) {
            Ok(h) => r matches Ok((rest, header)) && header == h && rest@ == i@.subrange(
                24,
                i@.len() as int,
            ),
            Err(e) => r matches Err(err) && err@ == e,
        },
{
    SegmentHeader::parse(i)
}

/// Reads the section header that stands at `at`.
fn read_section(buf: &[u8], at: usize) -> (r: SectionHeader)
    requires
        at + 16 <= buf@.len(),
    ensures
        r == decode_section(buf@, at as int),
{
    assert(at + 16 <= buf.len());
    proof {
        lemma_le_at_bound(buf@, at as int, 1);
        lemma_le_at_bound(buf@, at + 1, 1);
        lemma_le_at_bound(buf@, at + 2, 2);
        lemma_le_at_bound(buf@, at + 4, 4);
        lemma_le_at_bound(buf@, at + 8, 8);
        lemma_limits();
    }
    SectionHeader {
        typ: read_u8(buf, at),
        flags: PermissionFlags::from_bits_truncate(read_u8(buf, at + 1)),
        file_size: read_u16(buf, at + 2),
        offset: read_u32(buf, at + 4),
        memory: read_u64(buf, at + 8),
    }
}

/// Parses a section header from the start of `i`, whatever its type byte,
/// and hands back what follows it.
pub fn parse_section_header(i: &[u8]) -> (r: Result<(&[u8], SectionHeader), Error>)
    ensures
        i@.len() < 16 ==> (r matches Err(err) && err@ == Failure::TruncatedInput),
        i@.len() >= 16 ==> (r matches Ok((rest, header)) && header == decode_section(i@, 0)
            && rest@ == i@.subrange(16, i@.len() as int)),
{
    if i.len() < 16 {
        return Err(Error::TruncatedInput);
    }
    let header = read_section(i, 0);
    Ok((slice_subrange(i, 16, i.len()), header))
}

/// Parses a file of the basic layout: the header, then as many segment
/// headers as the header announces or the input holds, then section headers
/// likewise; what is left is the data, which is handed back beside the
/// file. Only the header can fail.
pub fn parse_file<'a>(i: &'a [u8]) -> (r: Result<(&'a [u8], Vsbf<'a>), Error>)
    ensures
        match header_of(i@) {
            Err(e) => r matches Err(err) && err@ == e,
            Ok(h) => r matches Ok((rest, file)) && file.header == h && file.segments@ == Seq::new(
                segments_held(i@, h) as nat,
                |k: int| SegmentHeader::decode(i@, 20 + 24 * k),
            ) && file.sections@ == Seq::new(
                sections_held(i@, h) as nat,
                |k: int| decode_section(i@, sections_start(i@, h) + 16 * k),
            ) && file.data@ == i@.subrange(data_start(i@, h), i@.len() as int) && rest@
                == file.data@,
        },
{
    let header = match parse_header(i) {
        Err(e) => {
            return Err(e);
        },
        Ok((_, header)) => header,
    };
    let len = i.len();
    let mut pos: usize = 20;
    let mut segments: Vec<SegmentHeader> = Vec::new();
    while segments.len() < header.num_segments as usize && len - pos >= 24
        invariant
            len == i@.len(),
            20 <= pos <= len,
            pos == 20 + 24 * segments@.len(),
            segments@.len() <= header.num_segments,
            segments@.len() <= segments_held(i@, header),
            segments@ == Seq::new(segments@.len(), |k: int| SegmentHeader::decode(i@, 20 + 24 * k)),
        decreases len - pos,
    {
        let ghost before = segments@;
        segments.push(SegmentHeader::read(i, pos));
        assert(segments@ =~= Seq::new(
            (before.len() + 1) as nat,
            |k: int| SegmentHeader::decode(i@, 20 + 24 * k),
        ));
        pos += 24;
    }
    assert(segments@.len() == segments_held(i@, header));
    let start = pos;
    let mut sections: Vec<SectionHeader> = Vec::new();
    while sections.len() < header.num_sections as usize && len - pos >= 16
        invariant
            len == i@.len(),
            start <= pos <= len,
            start == sections_start(i@, header),
            pos == start + 16 * sections@.len(),
            sections@.len() <= header.num_sections,
            sections@.len() <= sections_held(i@, header),
            sections@ == Seq::new(sections@.len(), |k: int| decode_section(i@, start + 16 * k)),
        decreases len - pos,
    {
        let ghost before = sections@;
        sections.push(read_section(i, pos));
        assert(sections@ =~= Seq::new(
            (before.len() + 1) as nat,
            |k: int| decode_section(i@, start + 16 * k),
        ));
        pos += 16;
    }
    assert(sections@.len() == sections_held(i@, header));
    let data = slice_subrange(i, pos, len);
    Ok((data, Vsbf { header, sections, segments, data }))
}

} // verus!
