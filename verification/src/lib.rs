//! A compact format for relocatable objects and loadable images, and a
//! static linker for it.
//!
//! An image is a file header, segment headers, section headers, a string
//! table, symbols, relocations and raw data, in that order, every integer
//! little-endian and nothing in between. [`Vsbf`] holds one image in memory;
//! [`link`] merges several into one.

pub mod basic;
pub mod error;
pub mod flags;
pub mod header;
pub mod image;
pub mod link;
pub mod reloc;
pub mod section;
pub mod segment;
pub mod strtab;
pub mod symbol;
pub mod wire;

pub use basic::{parse_file, parse_header, parse_section_header, parse_segment_header, Header};
pub use error::{Error, Failure};
pub use flags::PermissionFlags;
pub use header::{FileHeader, FILE_HDR_SIZE};
pub use image::{Image, Vsbf};
pub use link::{
    allocate_segments, can_merge_sections, can_merge_strtabs, can_merge_symbols, is_linkable,
    is_resolvable, is_sound, link, link_to_bytes, merge_sections, merge_strtabs, merge_symbols,
    merged_size, resolve, REL_ABS32, REL_ABS64, REL_PC32,
};
pub use reloc::{Rel, REL_SIZE};
pub use section::{SectionHeader, SectionType, SECTION_HDR_SIZE};
pub use segment::{SegmentHeader, SEGMENT_HDR_SIZE};
pub use strtab::StrTabIter;
pub use symbol::{Sym, SYM_SIZE};
