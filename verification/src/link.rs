//! The static linker: several object images become one loadable image. The
//! stages run in a fixed order, each on what the one before it left: string
//! tables are merged and names moved, sections are merged, symbols are
//! placed, relocations are resolved, segments are allocated.

use vstd::prelude::*;
use crate::error::{Error, Failure};
use crate::image::{Image, Vsbf};
use crate::reloc::Rel;
use crate::section::SectionType;
use crate::strtab::{is_entry, lemma_entry_within, well_formed};
use crate::symbol::Sym;

pub mod relocs;
pub mod sections;
pub mod segments;
pub mod strings;
pub mod symbols;

pub use relocs::{is_resolvable, resolve, REL_ABS32, REL_ABS64, REL_PC32};
pub use sections::{can_merge_sections, merge_sections, merged_size};
pub use segments::allocate_segments;
pub use strings::{can_merge_strtabs, merge_strtabs};
pub use symbols::{can_merge_symbols, merge_symbols};

verus! {

/// An image is sound enough to be linked: its string table is nothing but
/// whole entries, the bytes of its sections lie within its data, the names
/// of its symbols and the names that its relocations need are valid offsets
/// into its string table, and its relocations are of known types.
pub open spec fn sound(img: Image) -> bool {
    &&& well_formed(img.strtab)
    &&& img.sections_in_bounds()
    &&& forall|k: int|
        0 <= k < img.syms.len() ==> is_entry(img.strtab, (#[trigger] img.syms[k]).name as int)
    &&& forall|k: int|
        0 <= k < img.rels.len() ==> is_entry(img.strtab, (#[trigger] img.rels[k]).needed as int)
    &&& forall|k: int|
        0 <= k < img.rels.len() ==> relocs::width((#[trigger] img.rels[k]).typ) is Some
}

/// The number of symbols of the first `m` images.
pub open spec fn sym_count(objs: Seq<Image>, m: nat) -> nat
    decreases m,
{
    if m == 0 {
        0
    } else {
        sym_count(objs, (m - 1) as nat) + objs[m - 1].syms.len()
    }
}

/// The number of relocations of the first `m` images.
pub open spec fn rel_count(objs: Seq<Image>, m: nat) -> nat
    decreases m,
{
    if m == 0 {
        0
    } else {
        rel_count(objs, (m - 1) as nat) + objs[m - 1].rels.len()
    }
}

/// The images can be linked: each is sound, and what they hold together
/// fits the fields of one image: the merged string table and the numbers of
/// symbols and relocations fit 32 bits, the size of each merged section 16.
pub open spec fn linkable(objs: Seq<Image>) -> bool {
    &&& forall|i: int| 0 <= i < objs.len() ==> sound(#[trigger] objs[i])
    &&& strings::merged_strtab(objs, objs.len()).len() <= u32::MAX
    &&& symbols::sizes_fit(objs)
    &&& sym_count(objs, objs.len()) <= u32::MAX
    &&& rel_count(objs, objs.len()) <= u32::MAX
}

/// The images with their names moved to the merged string table.
pub open spec fn named(objs: Seq<Image>) -> Seq<Image> {
    Seq::new(objs.len(), |i: int| objs[i].renamed(strings::strtab_base(objs, i as nat)))
}

/// The image that the merge stages build: the merged string table, the
/// merged sections and their data, the placed symbols and the relocations.
pub open spec fn merged(objs: Seq<Image>) -> Image {
    symbols::with_symbols(
        sections::merged_sections(
            Image { strtab: strings::merged_strtab(objs, objs.len()), ..Image::empty() },
            named(objs),
        ),
        named(objs),
    )
}

/// What linking gives: the merged image with its relocations resolved and a
/// segment allocated for each section; or the error of the resolution.
pub open spec fn linked(objs: Seq<Image>) -> Result<Image, Failure> {
    match relocs::resolved(merged(objs)) {
        Err(e) => Err(e),
        Ok(img) => Ok(segments::with_segments(img)),
    }
}

/// The file that linking gives.
pub open spec fn linked_bytes(objs: Seq<Image>) -> Result<Seq<u8>, Failure> {
    match linked(objs) {
        Err(e) => Err(e),
        Ok(img) => Ok(img.encoding()),
    }
}

/// The merged symbols of sound images have valid names, and there are as
/// many of them as the images have symbols.
pub proof fn lemma_merged_syms(objs: Seq<Image>, m: nat)
    requires
        m <= objs.len(),
        forall|i: int| 0 <= i < objs.len() ==> sound(#[trigger] objs[i]),
        strings::merged_strtab(objs, objs.len()).len() <= u32::MAX,
    ensures
        symbols::merged_syms(named(objs), m).len() == sym_count(objs, m),
        forall|k: int|
            0 <= k < symbols::merged_syms(named(objs), m).len() ==> is_entry(
                strings::merged_strtab(objs, objs.len()),
                (#[trigger] symbols::merged_syms(named(objs), m)[k]).name as int,
            ),
    decreases m,
{
    if m > 0 {
        let i = m - 1;
        let table = strings::merged_strtab(objs, objs.len());
        let front = symbols::merged_syms(named(objs), (m - 1) as nat);
        let own = named(objs)[i].syms.map_values(|s: Sym| symbols::placed(named(objs), i, s));
        let all = symbols::merged_syms(named(objs), m);
        let base = strings::strtab_base(objs, i as nat);
        lemma_merged_syms(objs, (m - 1) as nat);
        assert(sound(objs[i]));
        strings::lemma_merged_strtab_grows(objs, i as nat, objs.len());
        assert forall|k: int| 0 <= k < all.len() implies is_entry(
            table,
            (#[trigger] all[k]).name as int,
        ) by {
            if k < front.len() {
                assert(all[k] == front[k]);
            } else {
                let j = k - front.len();
                let s = objs[i].syms[j];
                assert(all[k] == own[j]);
                assert(is_entry(objs[i].strtab, s.name as int));
                lemma_entry_within(objs[i].strtab, 0, s.name as int);
                strings::lemma_merged_entry(objs, objs.len(), i, s.name as int);
                assert(named(objs)[i].syms[j].name == base + s.name);
                assert(own[j].name == named(objs)[i].syms[j].name);
            }
        }
    }
}

/// The merged relocations of sound images need valid names and are of known
/// types, and there are as many of them as the images have relocations.
pub proof fn lemma_merged_rels(objs: Seq<Image>, m: nat)
    requires
        m <= objs.len(),
        forall|i: int| 0 <= i < objs.len() ==> sound(#[trigger] objs[i]),
        strings::merged_strtab(objs, objs.len()).len() <= u32::MAX,
    ensures
        symbols::merged_rels(named(objs), m).len() == rel_count(objs, m),
        forall|k: int|
            0 <= k < symbols::merged_rels(named(objs), m).len() ==> is_entry(
                strings::merged_strtab(objs, objs.len()),
                (#[trigger] symbols::merged_rels(named(objs), m)[k]).needed as int,
            ) && relocs::width(symbols::merged_rels(named(objs), m)[k].typ) is Some,
    decreases m,
{
    if m > 0 {
        let i = m - 1;
        let table = strings::merged_strtab(objs, objs.len());
        let front = symbols::merged_rels(named(objs), (m - 1) as nat);
        let own = named(objs)[i].rels;
        let all = symbols::merged_rels(named(objs), m);
        let base = strings::strtab_base(objs, i as nat);
        lemma_merged_rels(objs, (m - 1) as nat);
        assert(sound(objs[i]));
        strings::lemma_merged_strtab_grows(objs, i as nat, objs.len());
        assert forall|k: int| 0 <= k < all.len() implies is_entry(
            table,
            (#[trigger] all[k]).needed as int,
        ) && relocs::width(all[k].typ) is Some by {
            if k < front.len() {
                assert(all[k] == front[k]);
            } else {
                let j = k - front.len();
                let r = objs[i].rels[j];
                assert(all[k] == own[j]);
                assert(is_entry(objs[i].strtab, r.needed as int));
                assert(relocs::width(r.typ) is Some);
                lemma_entry_within(objs[i].strtab, 0, r.needed as int);
                strings::lemma_merged_entry(objs, objs.len(), i, r.needed as int);
                assert(own[j].needed == base + r.needed);
            }
        }
    }
}

/// The sections of the images are merged alike before and after their names
/// are moved.
pub proof fn lemma_named_groups(objs: Seq<Image>, t: SectionType)
    ensures
        sections::whole_group(named(objs), t) == sections::whole_group(objs, t),
{
    sections::lemma_group_same(named(objs), objs, t, objs.len());
}

/// The merged image of linkable images can have its relocations resolved,
/// and its tables fit the fields of a header.
pub proof fn lemma_merged_resolvable(objs: Seq<Image>)
    requires
        linkable(objs),
    ensures
        sections::sections_mergeable(
            Image { strtab: strings::merged_strtab(objs, objs.len()), ..Image::empty() },
            named(objs),
        ),
        symbols::sizes_fit(named(objs)),
        relocs::resolvable(merged(objs)),
        merged(objs).segments.len() == 0,
        merged(objs).sections.len() <= 3,
        merged(objs).strtab == strings::merged_strtab(objs, objs.len()),
        merged(objs).syms.len() == sym_count(objs, objs.len()),
        merged(objs).rels.len() == rel_count(objs, objs.len()),
{
    let start = Image { strtab: strings::merged_strtab(objs, objs.len()), ..Image::empty() };
    lemma_named_groups(objs, SectionType::Text);
    lemma_named_groups(objs, SectionType::Data);
    lemma_named_groups(objs, SectionType::Rodata);
    assert forall|i: int| 0 <= i < named(objs).len() implies (#[trigger] named(
        objs,
    )[i]).sections_in_bounds() by {
        assert(sound(objs[i]));
    }
    sections::lemma_merged_in_bounds(start, named(objs));
    lemma_merged_syms(objs, objs.len());
    lemma_merged_rels(objs, objs.len());
    let m = merged(objs);
    assert(m.syms =~= symbols::merged_syms(named(objs), objs.len()));
    assert(m.rels =~= symbols::merged_rels(named(objs), objs.len()));
}

/// The counts of symbols and relocations only grow as more images are
/// looked at.
pub proof fn lemma_counts_grow(objs: Seq<Image>, m: nat, n: nat)
    requires
        m <= n,
    ensures
        sym_count(objs, m) <= sym_count(objs, n),
        rel_count(objs, m) <= rel_count(objs, n),
    decreases n,
{
    if m < n {
        lemma_counts_grow(objs, m, (n - 1) as nat);
    }
}

/// Whether an image is sound enough to be linked.
pub fn is_sound(obj: &Vsbf) -> (r: bool)
    ensures
        r == sound(obj@),
{
    obj.has_valid_strtab() && relocs::is_resolvable(obj)
}

/// Whether the objects can be linked.
pub fn is_linkable(objs: &[Vsbf]) -> (r: bool)
    ensures
        r == linkable(strings::images(objs@)),
{
    let ghost imgs = strings::images(objs@);
    let n = objs.len();
    let mut table: u64 = 0;
    let mut syms: u64 = 0;
    let mut rels: u64 = 0;
    let mut i: usize = 0;
    while i < n
        invariant
            n == objs@.len(),
            imgs == strings::images(objs@),
            i <= n,
            forall|j: int| 0 <= j < i ==> sound(#[trigger] imgs[j]),
            table == strings::merged_strtab(imgs, i as nat).len(),
            table <= u32::MAX,
            syms == sym_count(imgs, i as nat),
            syms <= u32::MAX,
            rels == rel_count(imgs, i as nat),
            rels <= u32::MAX,
        decreases n - i,
    {
        let obj = &objs[i];
        proof {
            assert(imgs[i as int] == obj@);
            strings::lemma_merged_strtab_grows(imgs, (i + 1) as nat, n as nat);
            lemma_counts_grow(imgs, (i + 1) as nat, n as nat);
        }
        if !is_sound(obj) {
            return false;
        }
        if obj.strtab().len() as u64 > 0xffff_ffff - table {
            return false;
        }
        table = table + obj.strtab().len() as u64;
        if obj.syms().len() as u64 > 0xffff_ffff - syms {
            return false;
        }
        syms = syms + obj.syms().len() as u64;
        if obj.rels().len() as u64 > 0xffff_ffff - rels {
            return false;
        }
        rels = rels + obj.rels().len() as u64;
        i += 1;
    }
    symbols::can_merge_symbols(objs)
}

/// Links the objects, in the order given, into one image: their string
/// tables are merged and their names moved, their sections merged, their
/// symbols placed, their relocations resolved against the merged symbols,
/// and a segment allocated for each merged section. Any error ends the
/// link, and no image is returned.
pub fn link(objs: Vec<Vsbf>) -> (r: Result<Vsbf, Error>)
    requires
        linkable(strings::images(objs@)),
    ensures
        match linked(strings::images(objs@)) {
            Ok(img) => r matches Ok(out) && out@ == img && out@.fits(),
            Err(e) => r matches Err(err) && err@ == e,
        },
{
    let mut objs = objs;
    let ghost before = strings::images(objs@);
    proof {
        lemma_merged_resolvable(before);
        assert forall|i: int| 0 <= i < before.len() implies well_formed(
            (#[trigger] before[i]).strtab,
        ) by {
            assert(sound(before[i]));
        }
    }
    let table = merge_strtabs(objs.as_mut_slice());
    assert(strings::images(objs@) =~= named(before));
    let mut out = Vsbf::empty();
    out.set_strtab(table);
    merge_sections(&mut out, objs.as_slice());
    merge_symbols(&mut out, objs.as_slice());
    assert(out@ == merged(before));
    match resolve(&mut out) {
        Err(e) => {
            return Err(e);
        },
        Ok(_) => {},
    }
    allocate_segments(&mut out);
    Ok(out)
}

/// Links the objects and gives the linked image as a file.
pub fn link_to_bytes(objs: Vec<Vsbf>) -> (r: Result<Vec<u8>, Error>)
    requires
        linkable(strings::images(objs@)),
    ensures
        match linked_bytes(strings::images(objs@)) {
            Ok(bytes) => r matches Ok(out) && out@ == bytes,
            Err(e) => r matches Err(err) && err@ == e,
        },
{
    match link(objs) {
        Err(e) => Err(e),
        Ok(image) => Ok(image.serialize()),
    }
}

/// Segment allocation: a linked image has exactly one segment for each of
/// its sections, in the same order, and each segment has the rights, the
/// file offset and size, and the memory address and size of its section.
pub proof fn lemma_segment_per_section(objs: Seq<Image>)
    ensures
        linked(objs) matches Ok(img) ==> img.segments.len() == img.sections.len() && forall|i: int|
            0 <= i < img.sections.len() ==> #[trigger] img.segments[i] == segments::segment_for(
                img.sections[i],
            ),
{
    let m = merged(objs);
    assert(m.segments =~= Seq::<crate::segment::SegmentHeader>::empty());
    match linked(objs) {
        Ok(img) => {
            assert(img.segments =~= img.sections.map_values(
                |s: crate::section::SectionHeader| segments::segment_for(s),
            ));
        },
        Err(_) => {},
    }
}

/// Undefined symbol: where a relocation of the merged image needs a name
/// that no merged symbol has, the link fails with the undefined names, and
/// so no file is produced.
pub proof fn lemma_link_undefined_symbol(objs: Seq<Image>, j: int)
    requires
        0 <= j < merged(objs).rels.len(),
        relocs::definitions(merged(objs), merged(objs).rels[j]) == 0,
    ensures
        linked(objs) matches Err(Failure::UndefinedSymbol(_)),
        linked_bytes(objs) matches Err(Failure::UndefinedSymbol(_)),
{
    relocs::lemma_undefined_symbol(merged(objs), j);
}

/// Out-of-bounds relocation: where the target offset of a relocation of the
/// merged image lies outside the bytes of every merged section, the link
/// fails with an out-of-bounds error, provided every relocation names a
/// symbol that is defined exactly once.
pub proof fn lemma_link_out_of_bounds(objs: Seq<Image>, j: int)
    requires
        0 <= j < merged(objs).rels.len(),
        relocs::width(merged(objs).rels[j].typ) is Some,
        forall|k: int|
            0 <= k < merged(objs).sections.len() ==> !((#[trigger] merged(objs).sections[k]).offset
                <= merged(objs).rels[j].offset < merged(objs).sections[k].offset + merged(
                objs,
            ).sections[k].file_size),
        forall|i: int|
            0 <= i < merged(objs).rels.len() ==> relocs::definitions(
                merged(objs),
                #[trigger] merged(objs).rels[i],
            ) == 1,
    ensures
        linked(objs) matches Err(Failure::RelocationOutOfBounds(_)),
        linked_bytes(objs) matches Err(Failure::RelocationOutOfBounds(_)),
{
    relocs::lemma_out_of_bounds(merged(objs), j);
}

/// Determinism: the same inputs in the same order link to the same image
/// and the same file.
pub proof fn lemma_link_deterministic(a: Seq<Image>, b: Seq<Image>)
    requires
        a == b,
    ensures
        linked(a) == linked(b),
        linked_bytes(a) == linked_bytes(b),
{
}

/// Single-input identity: linking one image that has no relocations and
/// whose sections stand in ascending order of type gives the bytes of its
/// sections, in their own order, as the data.
pub proof fn lemma_link_single_input(x: Image)
    requires
        sections::ascending(x),
        x.rels.len() == 0,
    ensures
        linked(seq![x]) matches Ok(img) && img.data == sections::chunks(x, x.sections.len()),
{
    let objs = seq![x];
    let y = named(objs)[0];
    let start = Image { strtab: strings::merged_strtab(objs, objs.len()), ..Image::empty() };
    assert(named(objs) =~= seq![y]);
    assert forall|i: int, j: int| 0 <= i <= j < y.sections.len() implies (
    #[trigger] y.sections[i]).typ.id() <= (#[trigger] y.sections[j]).typ.id() by {
        assert(x.sections[i].typ.id() <= x.sections[j].typ.id());
    }
    sections::lemma_single_input_identity(start, y);
    sections::lemma_chunks_same(y, x, x.sections.len());
    let m = merged(objs);
    assert(m.data =~= sections::chunks(x, x.sections.len()));
    assert(symbols::merged_rels(named(objs), 0) =~= Seq::<Rel>::empty());
    assert(symbols::merged_rels(named(objs), 1) =~= Seq::<Rel>::empty());
    assert(m.rels.len() == 0);
}

/// A merged section has known rights, where the sections of the inputs have.
pub proof fn lemma_with_group_flags(out: Image, g: sections::Group, t: SectionType)
    requires
        out.flags_valid(),
        g.flags.valid(),
    ensures
        sections::with_group(out, g, t).flags_valid(),
{
    let after = sections::with_group(out, g, t);
    assert forall|k: int| 0 <= k < after.sections.len() implies (
    #[trigger] after.sections[k]).flags.valid() by {
        if k < out.sections.len() {
            assert(after.sections[k] == out.sections[k]);
        }
    }
}

/// The file of a linked image reads back as that image, where the flags of
/// the inputs hold known rights only.
pub proof fn lemma_linked_reads_back(objs: Seq<Image>)
    requires
        linkable(objs),
        forall|i: int| 0 <= i < objs.len() ==> (#[trigger] objs[i]).flags_valid(),
    ensures
        linked(objs) matches Ok(img) ==> img.fits() && Image::parse(img.encoding()) == Ok::<
            Image,
            Failure,
        >(img),
{
    lemma_merged_resolvable(objs);
    let start = Image { strtab: strings::merged_strtab(objs, objs.len()), ..Image::empty() };
    let n = named(objs);
    assert forall|i: int| 0 <= i < n.len() implies (#[trigger] n[i]).flags_valid() by {
        assert(objs[i].flags_valid());
    }
    sections::lemma_group_flags(n, SectionType::Text, n.len());
    sections::lemma_group_flags(n, SectionType::Data, n.len());
    sections::lemma_group_flags(n, SectionType::Rodata, n.len());
    let one = sections::with_group(
        start,
        sections::whole_group(n, SectionType::Text),
        SectionType::Text,
    );
    let two = sections::with_group(
        one,
        sections::whole_group(n, SectionType::Data),
        SectionType::Data,
    );
    lemma_with_group_flags(start, sections::whole_group(n, SectionType::Text), SectionType::Text);
    lemma_with_group_flags(one, sections::whole_group(n, SectionType::Data), SectionType::Data);
    lemma_with_group_flags(two, sections::whole_group(n, SectionType::Rodata), SectionType::Rodata);
    lemma_segment_per_section(objs);
    match linked(objs) {
        Ok(img) => {
            assert(img.sections == merged(objs).sections);
            assert forall|k: int| 0 <= k < img.segments.len() implies (
            #[trigger] img.segments[k]).flags.valid() by {
                assert(img.segments[k] == segments::segment_for(img.sections[k]));
                assert(img.sections[k].flags.valid());
            }
            img.lemma_round_trip();
        },
        Err(_) => {},
    }
}

} // verus!
