//! The object image: one object file held in memory, with the accessors and
//! mutators that the link stages work through.

use vstd::prelude::*;
use vstd::string::StringSliceAdditionalSpecFns;
use crate::error::{Error, Failure};
use crate::header::FileHeader;
use crate::reloc::Rel;
use crate::section::SectionHeader;
use crate::segment::SegmentHeader;
use crate::strtab::{
    ascii, ascii_text, chars_of, entry_of, entry_text, holds_entry, is_entry,
    is_well_formed, lemma_entry_within, remap, text_at, well_formed, StrTabIter,
};
use crate::symbol::Sym;
use crate::wire::{concat, push_bytes, push_le};

verus! {

/// What an object image holds: the machine it is for, its tables and its
/// data.
pub struct Image {
    pub arch: u16,
    pub os: u16,
    pub segments: Seq<SegmentHeader>,
    pub sections: Seq<SectionHeader>,
    pub strtab: Seq<u8>,
    pub syms: Seq<Sym>,
    pub rels: Seq<Rel>,
    pub data: Seq<u8>,
}

impl Image {
    /// The image with nothing in it.
    pub open spec fn empty() -> Image {
        Image {
            arch: 0,
            os: 0,
            segments: Seq::empty(),
            sections: Seq::empty(),
            strtab: Seq::empty(),
            syms: Seq::empty(),
            rels: Seq::empty(),
            data: Seq::empty(),
        }
    }

    /// Every table is small enough for its count to fit the header field
    /// that announces it.
    pub open spec fn fits(self) -> bool {
        &&& self.segments.len() <= u16::MAX
        &&& self.sections.len() <= u16::MAX
        &&& self.strtab.len() <= u32::MAX
        &&& self.syms.len() <= u32::MAX
        &&& self.rels.len() <= u32::MAX
    }

    /// The flags of every segment and section hold known rights only.
    pub open spec fn flags_valid(self) -> bool {
        &&& forall|i: int|
            0 <= i < self.segments.len() ==> (#[trigger] self.segments[i]).flags.valid()
        &&& forall|i: int|
            0 <= i < self.sections.len() ==> (#[trigger] self.sections[i]).flags.valid()
    }

    /// The header that announces the tables as they are now.
    pub open spec fn header(self) -> FileHeader {
        FileHeader {
            arch: self.arch,
            os: self.os,
            num_segments: self.segments.len() as u16,
            num_sections: self.sections.len() as u16,
            strtab_size: self.strtab.len() as u32,
            num_symbols: self.syms.len() as u32,
            num_relocs: self.rels.len() as u32,
            next_header: 0,
        }
    }

    /// The bytes of the segment headers, one after another.
    pub open spec fn segment_bytes(self) -> Seq<u8> {
        concat(self.segments.map_values(|s: SegmentHeader| s.encoding()))
    }

    /// The bytes of the section headers, one after another.
    pub open spec fn section_bytes(self) -> Seq<u8> {
        concat(self.sections.map_values(|s: SectionHeader| s.encoding()))
    }

    /// The bytes of the symbols, one after another.
    pub open spec fn sym_bytes(self) -> Seq<u8> {
        concat(self.syms.map_values(|s: Sym| s.encoding()))
    }

    /// The bytes of the relocations, one after another.
    pub open spec fn rel_bytes(self) -> Seq<u8> {
        concat(self.rels.map_values(|r: Rel| r.encoding()))
    }

    /// The image as a file: header, segment headers, section headers, string
    /// table, symbols, relocations, data, with nothing in between.
    pub open spec fn encoding(self) -> Seq<u8> {
        self.header().encoding() + self.segment_bytes() + self.section_bytes() + self.strtab
            + self.sym_bytes() + self.rel_bytes() + self.data
    }

    /// A string can be stored: it is ASCII, its length fits the 16-bit
    /// prefix, and the table with the new entry still fits its 32-bit size.
    pub open spec fn can_store(self, text: &str) -> bool {
        &&& text.is_ascii()
        &&& text.spec_bytes().len() <= u16::MAX
        &&& self.strtab.len() + 2 + text.spec_bytes().len() <= u32::MAX
    }

    /// A segment header whose file offset is moved behind one more segment
    /// header.
    pub open spec fn moved_segment(s: SegmentHeader) -> SegmentHeader {
        SegmentHeader { file: (s.file + 24) as u32, ..s }
    }

    /// A section header whose offset is moved behind one more segment header.
    pub open spec fn moved_section(s: SectionHeader) -> SectionHeader {
        SectionHeader { offset: (s.offset + 24) as u32, ..s }
    }

    /// No offset leaves its 32 bits when `seg` is added and every offset
    /// moves behind its header.
    pub open spec fn room_for_segment(self, seg: SegmentHeader) -> bool {
        &&& seg.file + 24 <= u32::MAX
        &&& forall|i: int|
            0 <= i < self.segments.len() ==> (#[trigger] self.segments[i]).file + 24 <= u32::MAX
        &&& forall|i: int|
            0 <= i < self.sections.len() ==> (#[trigger] self.sections[i]).offset + 24 <= u32::MAX
    }

    /// The image with `seg` added to the header region: the file offset of
    /// the new segment, of every segment there was and of every section
    /// grows by the size of one segment header.
    pub open spec fn with_segment(self, seg: SegmentHeader) -> Image {
        Image {
            segments: self.segments.map_values(|s: SegmentHeader| Self::moved_segment(s)).push(
                Self::moved_segment(seg),
            ),
            sections: self.sections.map_values(|s: SectionHeader| Self::moved_section(s)),
            ..self
        }
    }

    /// The image with every name that is a valid offset into its own string
    /// table moved by `base`: the names of its symbols and the names that its
    /// relocations need.
    pub open spec fn renamed(self, base: int) -> Image {
        Image {
            syms: self.syms.map_values(
                |s: Sym| Sym { name: remap(self.strtab, base, s.name), ..s },
            ),
            rels: self.rels.map_values(
                |r: Rel| Rel { needed: remap(self.strtab, base, r.needed), ..r },
            ),
            ..self
        }
    }

    /// The bytes of section `k`: the stretch of the data that its header
    /// names.
    pub open spec fn chunk(self, k: int) -> Seq<u8> {
        self.data.subrange(
            self.sections[k].offset as int,
            self.sections[k].offset + self.sections[k].file_size,
        )
    }

    /// The bytes of every section lie within the data.
    pub open spec fn sections_in_bounds(self) -> bool {
        forall|k: int|
            0 <= k < self.sections.len() ==> (#[trigger] self.sections[k]).offset
                + self.sections[k].file_size <= self.data.len()
    }

    /// Where the section headers start in a file with header `h`.
    pub open spec fn section_base(h: FileHeader) -> int {
        32 + 24 * h.num_segments
    }

    /// Where the string table starts.
    pub open spec fn strtab_base(h: FileHeader) -> int {
        Self::section_base(h) + 16 * h.num_sections
    }

    /// Where the symbols start.
    pub open spec fn sym_base(h: FileHeader) -> int {
        Self::strtab_base(h) + h.strtab_size
    }

    /// Where the relocations start.
    pub open spec fn rel_base(h: FileHeader) -> int {
        Self::sym_base(h) + 16 * h.num_symbols
    }

    /// Where the data starts: the length that the header's counts ask for.
    pub open spec fn data_base(h: FileHeader) -> int {
        Self::rel_base(h) + 16 * h.num_relocs
    }

    /// The type byte of the first of the section headers `i..n`, laid out
    /// from `base`, that names no section type.
    pub open spec fn unknown_type(s: Seq<u8>, base: int, i: int, n: int) -> Option<u8>
        decreases n - i,
    {
        if i >= n {
            None
        } else if SectionHeader::decode(s, base + 16 * i) is None {
            Some(SectionHeader::type_byte(s, base + 16 * i))
        } else {
            Self::unknown_type(s, base, i + 1, n)
        }
    }

    /// The image that a file with header `h` holds, once its length and its
    /// section types have been checked.
    pub open spec fn decode(s: Seq<u8>, h: FileHeader) -> Image {
        Image {
            arch: h.arch,
            os: h.os,
            segments: Seq::new(
                h.num_segments as nat,
                |i: int| SegmentHeader::decode(s, 32 + 24 * i),
            ),
            sections: Seq::new(
                h.num_sections as nat,
                |i: int| SectionHeader::decode(s, Self::section_base(h) + 16 * i).unwrap(),
            ),
            strtab: s.subrange(Self::strtab_base(h), Self::sym_base(h)),
            syms: Seq::new(h.num_symbols as nat, |i: int| Sym::decode(s, Self::sym_base(h) + 16 * i)),
            rels: Seq::new(h.num_relocs as nat, |i: int| Rel::decode(s, Self::rel_base(h) + 16 * i)),
            data: s.subrange(Self::data_base(h), s.len() as int),
        }
    }

    /// What parsing a file gives. A wrong tag is reported first, then an
    /// input too short for the header, then one too short for the tables that
    /// the header announces, then the first section whose type is unknown.
    pub open spec fn parse(s: Seq<u8>) -> Result<Image, Failure> {
        match FileHeader::parse_spec(s) {
            Err(e) => Err(e),
            Ok(h) => if s.len() < Self::data_base(h) {
                Err(Failure::TruncatedInput)
            } else {
                match Self::unknown_type(s, Self::section_base(h), 0, h.num_sections as int) {
                    Some(raw) => Err(Failure::UnknownSectionType(raw)),
                    None => Ok(Self::decode(s, h)),
                }
            },
        }
    }
}

impl Image {
    /// No section header of a file is of unknown type where each of them
    /// decodes.
    pub proof fn lemma_all_known(s: Seq<u8>, base: int, i: int, n: int)
        requires
            0 <= i,
            forall|j: int|
                i <= j < n ==> #[trigger] SectionHeader::decode(s, base + 16 * j) is Some,
        ensures
            Self::unknown_type(s, base, i, n) is None,
        decreases n - i,
    {
        if i < n {
            assert(SectionHeader::decode(s, base + 16 * i) is Some);
            Self::lemma_all_known(s, base, i + 1, n);
        }
    }

    /// The lengths of the parts of a file.
    pub proof fn lemma_lengths(self)
        ensures
            self.header().encoding().len() == 32,
            self.segment_bytes().len() == 24 * self.segments.len(),
            self.section_bytes().len() == 16 * self.sections.len(),
            self.sym_bytes().len() == 16 * self.syms.len(),
            self.rel_bytes().len() == 16 * self.rels.len(),
            self.encoding().len() == 32 + 24 * self.segments.len() + 16 * self.sections.len()
                + self.strtab.len() + 16 * self.syms.len() + 16 * self.rels.len()
                + self.data.len(),
    {
        self.header().lemma_encoding();
        let segs = self.segments.map_values(|s: SegmentHeader| s.encoding());
        assert forall|k: int| 0 <= k < segs.len() implies (#[trigger] segs[k]).len() == 24 by {
            self.segments[k].lemma_encoding();
        }
        crate::wire::lemma_concat_len(segs, 24);
        let secs = self.sections.map_values(|s: SectionHeader| s.encoding());
        assert forall|k: int| 0 <= k < secs.len() implies (#[trigger] secs[k]).len() == 16 by {
            self.sections[k].lemma_encoding();
        }
        crate::wire::lemma_concat_len(secs, 16);
        let syms = self.syms.map_values(|s: Sym| s.encoding());
        assert forall|k: int| 0 <= k < syms.len() implies (#[trigger] syms[k]).len() == 16 by {
            self.syms[k].lemma_encoding();
        }
        crate::wire::lemma_concat_len(syms, 16);
        let rels = self.rels.map_values(|r: Rel| r.encoding());
        assert forall|k: int| 0 <= k < rels.len() implies (#[trigger] rels[k]).len() == 16 by {
            self.rels[k].lemma_encoding();
        }
        crate::wire::lemma_concat_len(rels, 16);
    }

    /// The header of a file reads back.
    pub proof fn lemma_header_back(self)
        requires
            self.fits(),
        ensures
            FileHeader::parse_spec(self.encoding()) == Ok::<FileHeader, Failure>(self.header()),
            Self::data_base(self.header()) == self.encoding().len() - self.data.len(),
    {
        let s = self.encoding();
        let h = self.header();
        let hd = h.encoding();
        let rest = self.segment_bytes() + self.section_bytes() + self.strtab + self.sym_bytes()
            + self.rel_bytes() + self.data;
        let none = Seq::<u8>::empty();
        self.lemma_lengths();
        h.lemma_encoding();
        assert(s =~= none + hd + rest);
        crate::wire::lemma_middle(none, hd, rest, 0, 32);
        assert(hd.subrange(0, 32) =~= hd);
        crate::wire::lemma_middle(none, hd, rest, 0, 4);
        h.lemma_round_trip(s, 0);
    }

    /// Each segment header of a file reads back.
    pub proof fn lemma_segment_back(self, i: int)
        requires
            self.flags_valid(),
            0 <= i < self.segments.len(),
        ensures
            SegmentHeader::decode(self.encoding(), 32 + 24 * i) == self.segments[i],
    {
        let s = self.encoding();
        let pre = self.header().encoding();
        let mid = self.segment_bytes();
        let post = self.section_bytes() + self.strtab + self.sym_bytes() + self.rel_bytes()
            + self.data;
        let parts = self.segments.map_values(|x: SegmentHeader| x.encoding());
        self.lemma_lengths();
        assert(s =~= pre + mid + post);
        assert forall|k: int| 0 <= k < parts.len() implies (#[trigger] parts[k]).len() == 24 by {
            self.segments[k].lemma_encoding();
        }
        crate::wire::lemma_concat_uniform(parts, 24, i);
        crate::wire::lemma_middle(pre, mid, post, 24 * i, 24 * i + 24);
        self.segments[i].lemma_round_trip(s, 32 + 24 * i);
    }

    /// Each section header of a file reads back.
    pub proof fn lemma_section_back(self, i: int)
        requires
            self.fits(),
            self.flags_valid(),
            0 <= i < self.sections.len(),
        ensures
            SectionHeader::decode(self.encoding(), Self::section_base(self.header()) + 16 * i)
                == Some(self.sections[i]),
    {
        let s = self.encoding();
        let pre = self.header().encoding() + self.segment_bytes();
        let mid = self.section_bytes();
        let post = self.strtab + self.sym_bytes() + self.rel_bytes() + self.data;
        let parts = self.sections.map_values(|x: SectionHeader| x.encoding());
        self.lemma_lengths();
        assert(s =~= pre + mid + post);
        assert forall|k: int| 0 <= k < parts.len() implies (#[trigger] parts[k]).len() == 16 by {
            self.sections[k].lemma_encoding();
        }
        crate::wire::lemma_concat_uniform(parts, 16, i);
        crate::wire::lemma_middle(pre, mid, post, 16 * i, 16 * i + 16);
        self.sections[i].lemma_round_trip(s, Self::section_base(self.header()) + 16 * i);
    }

    /// The string table and the data of a file read back.
    pub proof fn lemma_bytes_back(self)
        requires
            self.fits(),
        ensures
            self.encoding().subrange(
                Self::strtab_base(self.header()),
                Self::sym_base(self.header()),
            ) == self.strtab,
            self.encoding().subrange(
                Self::data_base(self.header()),
                self.encoding().len() as int,
            ) == self.data,
    {
        let s = self.encoding();
        let pre = self.header().encoding() + self.segment_bytes() + self.section_bytes();
        let post = self.sym_bytes() + self.rel_bytes() + self.data;
        self.lemma_lengths();
        assert(s =~= pre + self.strtab + post);
        crate::wire::lemma_middle(pre, self.strtab, post, 0, self.strtab.len() as int);
        assert(self.strtab.subrange(0, self.strtab.len() as int) =~= self.strtab);
        assert(s.subrange(Self::data_base(self.header()), s.len() as int) =~= self.data);
    }

    /// Each symbol of a file reads back.
    pub proof fn lemma_sym_back(self, i: int)
        requires
            self.fits(),
            0 <= i < self.syms.len(),
        ensures
            Sym::decode(self.encoding(), Self::sym_base(self.header()) + 16 * i) == self.syms[i],
    {
        let s = self.encoding();
        let pre = self.header().encoding() + self.segment_bytes() + self.section_bytes()
            + self.strtab;
        let mid = self.sym_bytes();
        let post = self.rel_bytes() + self.data;
        let parts = self.syms.map_values(|x: Sym| x.encoding());
        self.lemma_lengths();
        assert(s =~= pre + mid + post);
        assert forall|k: int| 0 <= k < parts.len() implies (#[trigger] parts[k]).len() == 16 by {
            self.syms[k].lemma_encoding();
        }
        crate::wire::lemma_concat_uniform(parts, 16, i);
        crate::wire::lemma_middle(pre, mid, post, 16 * i, 16 * i + 16);
        self.syms[i].lemma_round_trip(s, Self::sym_base(self.header()) + 16 * i);
    }

    /// Each relocation of a file reads back.
    pub proof fn lemma_rel_back(self, i: int)
        requires
            self.fits(),
            0 <= i < self.rels.len(),
        ensures
            Rel::decode(self.encoding(), Self::rel_base(self.header()) + 16 * i) == self.rels[i],
    {
        let s = self.encoding();
        let pre = self.header().encoding() + self.segment_bytes() + self.section_bytes()
            + self.strtab + self.sym_bytes();
        let mid = self.rel_bytes();
        let post = self.data;
        let parts = self.rels.map_values(|x: Rel| x.encoding());
        self.lemma_lengths();
        assert(s =~= pre + mid + post);
        assert forall|k: int| 0 <= k < parts.len() implies (#[trigger] parts[k]).len() == 16 by {
            self.rels[k].lemma_encoding();
        }
        crate::wire::lemma_concat_uniform(parts, 16, i);
        crate::wire::lemma_middle(pre, mid, post, 16 * i, 16 * i + 16);
        self.rels[i].lemma_round_trip(s, Self::rel_base(self.header()) + 16 * i);
    }

    /// Round trip: parsing the file of an image gives the image back, for
    /// every image whose tables fit their header fields.
    pub proof fn lemma_round_trip(self)
        requires
            self.fits(),
            self.flags_valid(),
        ensures
            Self::parse(self.encoding()) == Ok::<Image, Failure>(self),
    {
        let s = self.encoding();
        let h = self.header();
        self.lemma_header_back();
        self.lemma_bytes_back();
        let d = Self::decode(s, h);
        assert forall|i: int| 0 <= i < self.segments.len() implies d.segments[i]
            == self.segments[i] by {
            self.lemma_segment_back(i);
        }
        assert(d.segments =~= self.segments);
        let base = Self::section_base(h);
        assert forall|i: int| 0 <= i < self.sections.len() implies #[trigger] SectionHeader::decode(
            s,
            base + 16 * i,
        ) == Some(self.sections[i]) by {
            self.lemma_section_back(i);
        }
        Self::lemma_all_known(s, base, 0, h.num_sections as int);
        assert(d.sections =~= self.sections);
        assert forall|i: int| 0 <= i < self.syms.len() implies d.syms[i] == self.syms[i] by {
            self.lemma_sym_back(i);
        }
        assert(d.syms =~= self.syms);
        assert forall|i: int| 0 <= i < self.rels.len() implies d.rels[i] == self.rels[i] by {
            self.lemma_rel_back(i);
        }
        assert(d.rels =~= self.rels);
        assert(d == self);
    }
}

/// One object file in memory.
#[derive(Debug, PartialEq, Eq)]
pub struct Vsbf {
    arch: u16,
    os: u16,
    segments: Vec<SegmentHeader>,
    sections: Vec<SectionHeader>,
    strtab: Vec<u8>,
    syms: Vec<Sym>,
    rels: Vec<Rel>,
    data: Vec<u8>,
}

impl View for Vsbf {
    type V = Image;

    closed spec fn view(&self) -> Image {
        Image {
            arch: self.arch,
            os: self.os,
            segments: self.segments@,
            sections: self.sections@,
            strtab: self.strtab@,
            syms: self.syms@,
            rels: self.rels@,
            data: self.data@,
        }
    }
}

impl Vsbf {
    /// An image with nothing in it.
    pub fn empty() -> (r: Vsbf)
        ensures
            r@ == Image::empty(),
    {
        Vsbf {
            arch: 0,
            os: 0,
            segments: Vec::new(),
            sections: Vec::new(),
            strtab: Vec::new(),
            syms: Vec::new(),
            rels: Vec::new(),
            data: Vec::new(),
        }
    }

    /// Whether every table is small enough to be announced in a header.
    pub fn fits(&self) -> (r: bool)
        ensures
            r == self@.fits(),
    {
        self.segments.len() <= 0xffff && self.sections.len() <= 0xffff && self.strtab.len()
            <= 0xffff_ffff && self.syms.len() <= 0xffff_ffff && self.rels.len() <= 0xffff_ffff
    }

    /// The section headers.
    pub fn sections(&self) -> (r: Vec<SectionHeader>)
        ensures
            r@ == self@.sections,
    {
        let mut out: Vec<SectionHeader> = Vec::new();
        let n = self.sections.len();
        let mut k: usize = 0;
        while k < n
            invariant
                n == self.sections@.len(),
                k <= n,
                out@ == self.sections@.subrange(0, k as int),
            decreases n - k,
        {
            out.push(self.sections[k]);
            assert(out@ =~= self.sections@.subrange(0, k + 1));
            k += 1;
        }
        assert(out@ =~= self.sections@);
        out
    }

    /// The segment headers.
    pub fn segments(&self) -> (r: Vec<SegmentHeader>)
        ensures
            r@ == self@.segments,
    {
        let mut out: Vec<SegmentHeader> = Vec::new();
        let n = self.segments.len();
        let mut k: usize = 0;
        while k < n
            invariant
                n == self.segments@.len(),
                k <= n,
                out@ == self.segments@.subrange(0, k as int),
            decreases n - k,
        {
            out.push(self.segments[k]);
            assert(out@ =~= self.segments@.subrange(0, k + 1));
            k += 1;
        }
        assert(out@ =~= self.segments@);
        out
    }

    /// The symbols.
    pub fn syms(&self) -> (r: &[Sym])
        ensures
            r@ == self@.syms,
    {
        self.syms.as_slice()
    }

    /// The symbols, open to change; their number stays.
    pub fn syms_mut(&mut self) -> (r: &mut [Sym])
        ensures
            r@ == old(self)@.syms,
            final(self)@ == (Image { syms: final(r)@, ..old(self)@ }),
    {
        self.syms.as_mut_slice()
    }

    /// The relocations.
    pub fn rels(&self) -> (r: &[Rel])
        ensures
            r@ == self@.rels,
    {
        self.rels.as_slice()
    }

    /// The relocations, open to change; their number stays.
    pub fn rels_mut(&mut self) -> (r: &mut [Rel])
        ensures
            r@ == old(self)@.rels,
            final(self)@ == (Image { rels: final(r)@, ..old(self)@ }),
    {
        self.rels.as_mut_slice()
    }

    /// The raw data.
    pub fn data(&self) -> (r: &[u8])
        ensures
            r@ == self@.data,
    {
        self.data.as_slice()
    }

    /// The raw data, open to change.
    pub fn data_mut(&mut self) -> (r: &mut Vec<u8>)
        ensures
            r@ == old(self)@.data,
            final(self)@ == (Image { data: final(r)@, ..old(self)@ }),
    {
        &mut self.data
    }

    /// The bytes of the string table.
    pub fn strtab(&self) -> (r: &[u8])
        ensures
            r@ == self@.strtab,
    {
        self.strtab.as_slice()
    }

    /// Replaces the string table.
    pub fn set_strtab(&mut self, table: Vec<u8>)
        ensures
            final(self)@ == (Image { strtab: table@, ..old(self)@ }),
    {
        self.strtab = table;
    }

    /// Appends a symbol. Nothing else changes.
    pub fn push_sym(&mut self, sym: Sym)
        ensures
            final(self)@ == (Image { syms: old(self)@.syms.push(sym), ..old(self)@ }),
    {
        self.syms.push(sym);
    }

    /// Appends a relocation. Nothing else changes.
    pub fn push_rel(&mut self, rel: Rel)
        ensures
            final(self)@ == (Image { rels: old(self)@.rels.push(rel), ..old(self)@ }),
    {
        self.rels.push(rel);
    }

    /// Appends a section header. No offset of another record is adjusted.
    pub fn push_section(&mut self, section: SectionHeader)
        ensures
            final(self)@ == (Image { sections: old(self)@.sections.push(section), ..old(self)@ }),
    {
        self.sections.push(section);
    }

    /// Appends a segment header. No offset of another record is adjusted.
    pub fn push_segment(&mut self, segment: SegmentHeader)
        ensures
            final(self)@ == (Image { segments: old(self)@.segments.push(segment), ..old(self)@ }),
    {
        self.segments.push(segment);
    }

    /// Appends the image as a file to `w`: a header rebuilt from the tables as
    /// they are now, then the tables and the data in their fixed order.
    pub fn write(&self, w: &mut Vec<u8>)
        requires
            self@.fits(),
        ensures
            final(w)@ == old(w)@ + self@.encoding(),
    {
        let header = FileHeader {
            arch: self.arch,
            os: self.os,
            num_segments: self.segments.len() as u16,
            num_sections: self.sections.len() as u16,
            strtab_size: self.strtab.len() as u32,
            num_symbols: self.syms.len() as u32,
            num_relocs: self.rels.len() as u32,
            next_header: 0,
        };
        header.write(w);
        let ghost start = w@;
        let ghost segs = self.segments@.map_values(|s: SegmentHeader| s.encoding());
        let mut k: usize = 0;
        while k < self.segments.len()
            invariant
                k <= self.segments@.len(),
                segs == self.segments@.map_values(|s: SegmentHeader| s.encoding()),
                w@ == start + concat(segs.subrange(0, k as int)),
            decreases self.segments@.len() - k,
        {
            self.segments[k].write(w);
            proof {
                crate::wire::lemma_concat_push(segs.subrange(0, k as int), segs[k as int]);
                assert(segs.subrange(0, k + 1) =~= segs.subrange(0, k as int).push(segs[k as int]));
            }
            k += 1;
        }
        assert(segs.subrange(0, k as int) =~= segs);
        let ghost start = w@;
        let ghost secs = self.sections@.map_values(|s: SectionHeader| s.encoding());
        let mut k: usize = 0;
        while k < self.sections.len()
            invariant
                k <= self.sections@.len(),
                secs == self.sections@.map_values(|s: SectionHeader| s.encoding()),
                w@ == start + concat(secs.subrange(0, k as int)),
            decreases self.sections@.len() - k,
        {
            self.sections[k].write(w);
            proof {
                crate::wire::lemma_concat_push(secs.subrange(0, k as int), secs[k as int]);
                assert(secs.subrange(0, k + 1) =~= secs.subrange(0, k as int).push(secs[k as int]));
            }
            k += 1;
        }
        assert(secs.subrange(0, k as int) =~= secs);
        push_bytes(w, self.strtab.as_slice());
        let ghost start = w@;
        let ghost syms = self.syms@.map_values(|s: Sym| s.encoding());
        let mut k: usize = 0;
        while k < self.syms.len()
            invariant
                k <= self.syms@.len(),
                syms == self.syms@.map_values(|s: Sym| s.encoding()),
                w@ == start + concat(syms.subrange(0, k as int)),
            decreases self.syms@.len() - k,
        {
            self.syms[k].write(w);
            proof {
                crate::wire::lemma_concat_push(syms.subrange(0, k as int), syms[k as int]);
                assert(syms.subrange(0, k + 1) =~= syms.subrange(0, k as int).push(syms[k as int]));
            }
            k += 1;
        }
        assert(syms.subrange(0, k as int) =~= syms);
        let ghost start = w@;
        let ghost rels = self.rels@.map_values(|r: Rel| r.encoding());
        let mut k: usize = 0;
        while k < self.rels.len()
            invariant
                k <= self.rels@.len(),
                rels == self.rels@.map_values(|r: Rel| r.encoding()),
                w@ == start + concat(rels.subrange(0, k as int)),
            decreases self.rels@.len() - k,
        {
            self.rels[k].write(w);
            proof {
                crate::wire::lemma_concat_push(rels.subrange(0, k as int), rels[k as int]);
                assert(rels.subrange(0, k + 1) =~= rels.subrange(0, k as int).push(rels[k as int]));
            }
            k += 1;
        }
        assert(rels.subrange(0, k as int) =~= rels);
        push_bytes(w, self.data.as_slice());
        assert(w@ =~= old(w)@ + self@.encoding());
    }

    /// The image as a file.
    pub fn serialize(&self) -> (r: Vec<u8>)
        requires
            self@.fits(),
        ensures
            r@ == self@.encoding(),
    {
        let mut out: Vec<u8> = Vec::new();
        self.write(&mut out);
        assert(out@ =~= self@.encoding());
        out
    }

    /// Parses a file: the header, then every table in the order and number
    /// that the header announces, then the data, which is all that is left.
    /// The data is handed back beside the image.
    pub fn parse(i: &[u8]) -> (r: Result<(&[u8], Vsbf), Error>)
        ensures
            match Image::parse(i@) {
                Ok(image) => r matches Ok((rest, file)) && file@ == image && rest@ == image.data,
                Err(e) => r matches Err(err) && err@ == e,
            },
    {
        let header = match FileHeader::parse(i) {
            Err(e) => {
                return Err(e);
            },
            Ok((_, header)) => header,
        };
        let ghost h = header;
        let n_segs = header.num_segments as u64;
        let n_sects = header.num_sections as u64;
        let n_syms = header.num_symbols as u64;
        let n_rels = header.num_relocs as u64;
        let sec_base: u64 = 32 + 24 * n_segs;
        let str_base: u64 = sec_base + 16 * n_sects;
        let sym_base: u64 = str_base + header.strtab_size as u64;
        let rel_base: u64 = sym_base + 16 * n_syms;
        let data_base: u64 = rel_base + 16 * n_rels;
        let len = i.len();
        assert(FileHeader::parse_spec(i@) == Ok::<FileHeader, Failure>(h));
        assert(data_base == Image::data_base(h));
        if (len as u64) < data_base {
            return Err(Error::TruncatedInput);
        }
        let mut segments: Vec<SegmentHeader> = Vec::new();
        let mut k: usize = 0;
        while k < n_segs as usize
            invariant
                k <= n_segs,
                n_segs == h.num_segments,
                len == i@.len(),
                32 + 24 * n_segs <= len,
                segments@ == Seq::new(k as nat, |j: int| SegmentHeader::decode(i@, 32 + 24 * j)),
            decreases n_segs - k,
        {
            segments.push(SegmentHeader::read(i, 32 + 24 * k));
            assert(segments@ =~= Seq::new(
                (k + 1) as nat,
                |j: int| SegmentHeader::decode(i@, 32 + 24 * j),
            ));
            k += 1;
        }
        let mut sections: Vec<SectionHeader> = Vec::new();
        let base = sec_base as usize;
        let mut k: usize = 0;
        while k < n_sects as usize
            invariant
                k <= n_sects,
                n_sects == h.num_sections,
                base == Image::section_base(h),
                FileHeader::parse_spec(i@) == Ok::<FileHeader, Failure>(h),
                i@.len() >= Image::data_base(h),
                len == i@.len(),
                base + 16 * n_sects <= len,
                Image::unknown_type(i@, base as int, 0, n_sects as int) == Image::unknown_type(
                    i@,
                    base as int,
                    k as int,
                    n_sects as int,
                ),
                sections@ == Seq::new(
                    k as nat,
                    |j: int| SectionHeader::decode(i@, base + 16 * j).unwrap(),
                ),
            decreases n_sects - k,
        {
            match SectionHeader::read(i, base + 16 * k) {
                Err(raw) => {
                    assert(Image::unknown_type(i@, base as int, k as int, n_sects as int) == Some(
                        raw,
                    ));
                    return Err(Error::UnknownSectionType(raw));
                },
                Ok(section) => {
                    sections.push(section);
                },
            }
            assert(sections@ =~= Seq::new(
                (k + 1) as nat,
                |j: int| SectionHeader::decode(i@, base + 16 * j).unwrap(),
            ));
            k += 1;
        }
        let strtab = vstd::slice::slice_to_vec(
            vstd::slice::slice_subrange(i, str_base as usize, sym_base as usize),
        );
        let mut syms: Vec<Sym> = Vec::new();
        let base = sym_base as usize;
        let mut k: usize = 0;
        while k < n_syms as usize
            invariant
                k <= n_syms,
                n_syms == h.num_symbols,
                base == Image::sym_base(h),
                len == i@.len(),
                base + 16 * n_syms <= len,
                syms@ == Seq::new(k as nat, |j: int| Sym::decode(i@, base + 16 * j)),
            decreases n_syms - k,
        {
            syms.push(Sym::read(i, base + 16 * k));
            assert(syms@ =~= Seq::new((k + 1) as nat, |j: int| Sym::decode(i@, base + 16 * j)));
            k += 1;
        }
        let mut rels: Vec<Rel> = Vec::new();
        let base = rel_base as usize;
        let mut k: usize = 0;
        while k < n_rels as usize
            invariant
                k <= n_rels,
                n_rels == h.num_relocs,
                base == Image::rel_base(h),
                len == i@.len(),
                base + 16 * n_rels <= len,
                rels@ == Seq::new(k as nat, |j: int| Rel::decode(i@, base + 16 * j)),
            decreases n_rels - k,
        {
            rels.push(Rel::read(i, base + 16 * k));
            assert(rels@ =~= Seq::new((k + 1) as nat, |j: int| Rel::decode(i@, base + 16 * j)));
            k += 1;
        }
        let rest = vstd::slice::slice_subrange(i, data_base as usize, len);
        let file = Vsbf {
            arch: header.arch,
            os: header.os,
            segments,
            sections,
            strtab,
            syms,
            rels,
            data: vstd::slice::slice_to_vec(rest),
        };
        assert(file@.segments =~= Image::decode(i@, h).segments);
        assert(file@.sections =~= Image::decode(i@, h).sections);
        assert(file@.syms =~= Image::decode(i@, h).syms);
        assert(file@.rels =~= Image::decode(i@, h).rels);
        Ok((rest, file))
    }

    /// Whether `seg` can be added without an offset leaving its 32 bits.
    pub fn has_room_for_segment(&self, seg: &SegmentHeader) -> (r: bool)
        ensures
            r == self@.room_for_segment(*seg),
    {
        if seg.file > 0xffff_ffff - 24 {
            return false;
        }
        let mut k: usize = 0;
        while k < self.segments.len()
            invariant
                k <= self.segments@.len(),
                forall|i: int| 0 <= i < k ==> (#[trigger] self.segments@[i]).file + 24 <= u32::MAX,
            decreases self.segments@.len() - k,
        {
            if self.segments[k].file > 0xffff_ffff - 24 {
                assert(self@.segments[k as int].file + 24 > u32::MAX);
                return false;
            }
            k += 1;
        }
        let mut k: usize = 0;
        while k < self.sections.len()
            invariant
                k <= self.sections@.len(),
                forall|i: int|
                    0 <= i < k ==> (#[trigger] self.sections@[i]).offset + 24 <= u32::MAX,
            decreases self.sections@.len() - k,
        {
            if self.sections[k].offset > 0xffff_ffff - 24 {
                assert(self@.sections[k as int].offset + 24 > u32::MAX);
                return false;
            }
            k += 1;
        }
        true
    }

    /// Adds a segment header to the header region in front of the data. As
    /// every byte behind the new header moves by its size, that size is added
    /// to the file offset of the new segment, of every segment there was, and
    /// to the offset of every section.
    pub fn add_segment(&mut self, seg: SegmentHeader)
        requires
            old(self)@.room_for_segment(seg),
        ensures
            final(self)@ == old(self)@.with_segment(seg),
    {
        let added = SegmentHeader { file: seg.file + 24, ..seg };
        assert forall|i: int| 0 <= i < self.segments@.len() implies (#[trigger] self.segments@[i]).file
            + 24 <= u32::MAX by {
            assert(self@.segments[i].file + 24 <= u32::MAX);
        }
        assert forall|i: int| 0 <= i < self.sections@.len() implies (#[trigger] self.sections@[i]).offset
            + 24 <= u32::MAX by {
            assert(self@.sections[i].offset + 24 <= u32::MAX);
        }
        let n = self.segments.len();
        let mut k: usize = 0;
        while k < n
            invariant
                n == self.segments@.len(),
                n == old(self).segments@.len(),
                k <= n,
                self.arch == old(self).arch,
                self.os == old(self).os,
                self.sections == old(self).sections,
                forall|i: int|
                    0 <= i < old(self).sections@.len() ==> (#[trigger] old(self).sections@[i]).offset + 24 <= u32::MAX,
                self.strtab == old(self).strtab,
                self.syms == old(self).syms,
                self.rels == old(self).rels,
                self.data == old(self).data,
                forall|i: int|
                    0 <= i < n ==> (#[trigger] old(self).segments@[i]).file + 24 <= u32::MAX,
                forall|i: int|
                    0 <= i < k ==> #[trigger] self.segments@[i] == Image::moved_segment(old(self).segments@[i]),
                forall|i: int|
                    k <= i < n ==> #[trigger] self.segments@[i] == old(self).segments@[i],
            decreases n - k,
        {
            let moved = SegmentHeader { file: self.segments[k].file + 24, ..self.segments[k] };
            self.segments[k] = moved;
            k += 1;
        }
        assert(self.segments@ =~= old(self).segments@.map_values(
            |s: SegmentHeader| Image::moved_segment(s),
        ));
        let n = self.sections.len();
        let mut k: usize = 0;
        while k < n
            invariant
                n == self.sections@.len(),
                n == old(self).sections@.len(),
                k <= n,
                self.arch == old(self).arch,
                self.os == old(self).os,
                self.segments@ == old(self).segments@.map_values(|s: SegmentHeader| Image::moved_segment(s)),
                self.strtab == old(self).strtab,
                self.syms == old(self).syms,
                self.rels == old(self).rels,
                self.data == old(self).data,
                forall|i: int|
                    0 <= i < n ==> (#[trigger] old(self).sections@[i]).offset + 24 <= u32::MAX,
                forall|i: int|
                    0 <= i < k ==> #[trigger] self.sections@[i] == Image::moved_section(old(self).sections@[i]),
                forall|i: int|
                    k <= i < n ==> #[trigger] self.sections@[i] == old(self).sections@[i],
            decreases n - k,
        {
            let moved = SectionHeader { offset: self.sections[k].offset + 24, ..self.sections[k] };
            self.sections[k] = moved;
            k += 1;
        }
        self.segments.push(added);
        assert(self@.segments =~= old(self)@.with_segment(seg).segments);
        assert(self@.sections =~= old(self)@.with_segment(seg).sections);
    }

    /// Appends a string to the string table as a length-prefixed entry and
    /// gives the offset of the new entry. A string that cannot be stored
    /// leaves the table as it was.
    pub fn push_string(&mut self, data: &str) -> (r: Result<u32, Error>)
        ensures
            old(self)@.can_store(data) ==> r == Ok::<u32, Error>(old(self)@.strtab.len() as u32)
                && ascii(data.spec_bytes()) && final(self)@ == (Image {
                strtab: old(self)@.strtab + entry_of(data.spec_bytes()),
                ..old(self)@
            }) && final(self)@.strtab.len() == old(self)@.strtab.len() + 2
                + data.spec_bytes().len(),
            !old(self)@.can_store(data) ==> (r matches Err(e) && e@ == Failure::OversizedString
                && final(self)@ == old(self)@),
            r is Ok && well_formed(old(self)@.strtab) ==> well_formed(final(self)@.strtab)
                && is_entry(final(self)@.strtab, old(self)@.strtab.len() as int) && entry_text(
                final(self)@.strtab,
                old(self)@.strtab.len() as int,
            ) == data.spec_bytes(),
    {
        let bytes = data.as_bytes();
        let n = bytes.len();
        let used = self.strtab.len();
        if !data.is_ascii() || n > 0xffff || used > 0xffff_ffff || used as u64 + 2 + n as u64
            > 0xffff_ffff {
            return Err(Error::OversizedString);
        }
        proof {
            vstd::string::is_ascii_spec_bytes(data);
            assert forall|i: int| 0 <= i < bytes@.len() implies bytes@[i] < 128 by {
                let c = data@[i];
                assert('\0' <= c <= '\u{7f}');
            }
            crate::strtab::lemma_single_entry(bytes@);
            if well_formed(self.strtab@) {
                crate::strtab::lemma_packed_concat(self.strtab@, entry_of(bytes@), 0);
                crate::strtab::lemma_entry_moved(self.strtab@, entry_of(bytes@), 0, 0);
            }
        }
        push_le(&mut self.strtab, n as u64, 2);
        push_bytes(&mut self.strtab, bytes);
        assert(self.strtab@ =~= old(self).strtab@ + entry_of(bytes@));
        Ok(used as u32)
    }

    /// Whether the string table is nothing but whole entries.
    pub fn has_valid_strtab(&self) -> (r: bool)
        ensures
            r == well_formed(self@.strtab),
    {
        is_well_formed(self.strtab.as_slice())
    }

    /// Whether `offset` is valid: the start of an entry of the string table.
    pub fn has_string_at(&self, offset: u32) -> (r: bool)
        ensures
            r == is_entry(self@.strtab, offset as int),
    {
        holds_entry(self.strtab.as_slice(), offset)
    }

    /// A walk over the offsets and strings of the string table, in storage
    /// order.
    pub fn strings(&self) -> (r: StrTabIter<'_>)
        requires
            well_formed(self@.strtab),
            self@.strtab.len() <= u32::MAX,
        ensures
            r.table() == self@.strtab,
            r.position() == 0,
    {
        StrTabIter::new(self.strtab.as_slice())
    }

    /// The string of the entry at a valid offset.
    pub fn string_at(&self, i: u32) -> (r: &str)
        requires
            is_entry(self@.strtab, i as int),
        ensures
            r@ == chars_of(entry_text(self@.strtab, i as int)),
            r.spec_bytes() == entry_text(self@.strtab, i as int),
    {
        proof {
            lemma_entry_within(self.strtab@, 0, i as int);
        }
        ascii_text(text_at(self.strtab.as_slice(), i as usize))
    }

    /// Moves every name that is a valid offset into the string table by
    /// `base`: the names of the symbols and the names that the relocations
    /// need. The string table itself stays.
    pub fn rebase_names(&mut self, base: u32)
        requires
            base + old(self)@.strtab.len() <= u32::MAX,
        ensures
            final(self)@ == old(self)@.renamed(base as int),
    {
        let n = self.syms.len();
        let mut k: usize = 0;
        while k < n
            invariant
                n == self.syms@.len(),
                n == old(self).syms@.len(),
                k <= n,
                base + self.strtab@.len() <= u32::MAX,
                self.arch == old(self).arch,
                self.os == old(self).os,
                self.segments == old(self).segments,
                self.sections == old(self).sections,
                self.strtab == old(self).strtab,
                self.rels == old(self).rels,
                self.data == old(self).data,
                forall|i: int|
                    0 <= i < k ==> #[trigger] self.syms@[i] == (Sym {
                        name: remap(self.strtab@, base as int, old(self).syms@[i].name),
                        ..old(self).syms@[i]
                    }),
                forall|i: int| k <= i < n ==> #[trigger] self.syms@[i] == old(self).syms@[i],
            decreases n - k,
        {
            let name = self.syms[k].name;
            if holds_entry(self.strtab.as_slice(), name) {
                proof {
                    lemma_entry_within(self.strtab@, 0, name as int);
                }
                let moved = Sym { name: base + name, ..self.syms[k] };
                self.syms[k] = moved;
            }
            k += 1;
        }
        let n = self.rels.len();
        let mut k: usize = 0;
        while k < n
            invariant
                n == self.rels@.len(),
                n == old(self).rels@.len(),
                k <= n,
                base + self.strtab@.len() <= u32::MAX,
                self.arch == old(self).arch,
                self.os == old(self).os,
                self.segments == old(self).segments,
                self.sections == old(self).sections,
                self.strtab == old(self).strtab,
                self.syms@ == old(self)@.renamed(base as int).syms,
                self.data == old(self).data,
                forall|i: int|
                    0 <= i < k ==> #[trigger] self.rels@[i] == (Rel {
                        needed: remap(self.strtab@, base as int, old(self).rels@[i].needed),
                        ..old(self).rels@[i]
                    }),
                forall|i: int| k <= i < n ==> #[trigger] self.rels@[i] == old(self).rels@[i],
            decreases n - k,
        {
            let needed = self.rels[k].needed;
            if holds_entry(self.strtab.as_slice(), needed) {
                proof {
                    lemma_entry_within(self.strtab@, 0, needed as int);
                }
                let moved = Rel { needed: base + needed, ..self.rels[k] };
                self.rels[k] = moved;
            }
            k += 1;
        }
        assert(self@.rels =~= old(self)@.renamed(base as int).rels);
    }

    /// Whether the bytes of every section lie within the data.
    pub fn sections_in_bounds(&self) -> (r: bool)
        ensures
            r == self@.sections_in_bounds(),
    {
        let len = self.data.len();
        let mut k: usize = 0;
        while k < self.sections.len()
            invariant
                len == self.data@.len(),
                k <= self.sections@.len(),
                forall|i: int|
                    0 <= i < k ==> (#[trigger] self.sections@[i]).offset
                        + self.sections@[i].file_size <= len,
            decreases self.sections@.len() - k,
        {
            let end = self.sections[k].offset as u64 + self.sections[k].file_size as u64;
            if end > len as u64 {
                assert(self@.sections[k as int].offset + self@.sections[k as int].file_size
                    > self@.data.len());
                return false;
            }
            k += 1;
        }
        true
    }
}

} // verus!
