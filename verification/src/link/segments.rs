//! Allocating segments: one loadable segment for each section, in the order
//! of the sections. Neighbouring sections with equal rights are not joined.

use vstd::prelude::*;
use crate::image::{Image, Vsbf};
use crate::section::SectionHeader;
use crate::segment::SegmentHeader;

verus! {

/// The alignment of every allocated segment: one page.
pub const PAGE_SIZE: u16 = 0x1000;

/// The segment that loads a section: it has the section's rights, its place
/// and size in the data, and the same place and size in memory.
pub open spec fn segment_for(section: SectionHeader) -> SegmentHeader {
    SegmentHeader {
        typ: 0,
        flags: section.flags,
        align: PAGE_SIZE,
        file: section.offset,
        mem: section.memory,
        file_size: section.file_size as u32,
        mem_size: section.file_size as u32,
    }
}

/// The image with one more segment for each of its sections.
pub open spec fn with_segments(img: Image) -> Image {
    Image {
        segments: img.segments + img.sections.map_values(|s: SectionHeader| segment_for(s)),
        ..img
    }
}

/// Appends one loadable segment for each section of `out`, in the order of
/// the sections. No offset of a record is adjusted.
pub fn allocate_segments(out: &mut Vsbf)
    ensures
        final(out)@ == with_segments(old(out)@),
        final(out)@.segments.len() == old(out)@.segments.len() + old(out)@.sections.len(),
        forall|i: int|
            #![trigger final(out)@.segments[old(out)@.segments.len() + i]]
            0 <= i < old(out)@.sections.len() ==> {
                let segment = final(out)@.segments[old(out)@.segments.len() + i];
                let section = old(out)@.sections[i];
                &&& segment.flags == section.flags
                &&& segment.file == section.offset
                &&& segment.file_size == section.file_size
                &&& segment.mem == section.memory
                &&& segment.mem_size == section.file_size
                &&& segment.align == PAGE_SIZE
            },
{
    let sections = out.sections();
    let n = sections.len();
    let mut k: usize = 0;
    while k < n
        invariant
            n == sections@.len(),
            sections@ == old(out)@.sections,
            k <= n,
            out@ == (Image {
                segments: old(out)@.segments + sections@.subrange(0, k as int).map_values(
                    |s: SectionHeader| segment_for(s),
                ),
                ..old(out)@
            }),
        decreases n - k,
    {
        let section = sections[k];
        let ghost before = out@;
        out.push_segment(
            SegmentHeader {
                typ: 0,
                flags: section.flags,
                align: PAGE_SIZE,
                file: section.offset,
                mem: section.memory,
                file_size: section.file_size as u32,
                mem_size: section.file_size as u32,
            },
        );
        assert(out@.segments =~= old(out)@.segments + sections@.subrange(0, k + 1).map_values(
            |s: SectionHeader| segment_for(s),
        ));
        k += 1;
    }
    assert(sections@.subrange(0, n as int) =~= sections@);
}

} // verus!
