use vsbf::{
    allocate_segments, can_merge_sections, can_merge_strtabs, can_merge_symbols, is_linkable,
    is_resolvable, is_sound, link, link_to_bytes, merge_sections, merge_strtabs, merge_symbols,
    merged_size, resolve, Error, PermissionFlags, Rel, SectionHeader, SectionType, Sym, Vsbf,
    REL_ABS32, REL_ABS64, REL_PC32,
};

fn section(typ: SectionType, flags: PermissionFlags, size: u16, offset: u32, memory: u64) -> SectionHeader {
    SectionHeader {
        typ,
        flags,
        file_size: size,
        offset,
        memory,
    }
}

fn caller(typ: u16, addend: i16, offset: u64) -> Vsbf {
    let mut a = Vsbf::empty();
    a.push_string("main").unwrap();
    a.push_string("helper").unwrap();
    a.push_section(section(
        SectionType::Text,
        PermissionFlags::R() | PermissionFlags::X(),
        8,
        0,
        0x1000,
    ));
    a.data_mut().extend_from_slice(&[0x90; 8]);
    a.push_sym(Sym {
        name: 0,
        size: 4,
        section: 0,
        value: 0,
    });
    a.push_rel(Rel {
        typ,
        addend,
        needed: 6,
        offset,
    });
    a
}

fn callee() -> Vsbf {
    let mut b = Vsbf::empty();
    b.push_string("helper").unwrap();
    b.push_section(section(
        SectionType::Text,
        PermissionFlags::R(),
        16,
        0,
        0x9999,
    ));
    b.data_mut().extend_from_slice(&[0xcc; 16]);
    b.push_sym(Sym {
        name: 0,
        size: 1,
        section: 0,
        value: 4,
    });
    b
}

#[test]
fn link_resolves_an_absolute_64_bit_relocation() {
    let objs = vec![caller(REL_ABS64, 2, 0), callee()];
    assert!(is_linkable(&objs));
    let out = link(objs).unwrap();

    assert_eq!(out.strtab(), b"\x04\x00main\x06\x00helper\x06\x00helper");
    assert_eq!(out.sections().len(), 1);
    let text = out.sections()[0];
    assert!(text.is_text());
    assert!(text.is_rx());
    assert_eq!(text.file_size, 24);
    assert_eq!(text.offset, 0);
    assert_eq!(text.memory, 0x1000);

    assert_eq!(
        out.syms(),
        &[
            Sym {
                name: 0,
                size: 4,
                section: 0,
                value: 0
            },
            Sym {
                name: 14,
                size: 1,
                section: 0,
                value: 12
            },
        ]
    );
    assert_eq!(
        out.rels(),
        &[Rel {
            typ: REL_ABS64,
            addend: 2,
            needed: 6,
            offset: 0
        }]
    );

    // 0x1000 + 12 + 2
    assert_eq!(&out.data()[0..8], &[0x0e, 0x10, 0, 0, 0, 0, 0, 0]);
    assert_eq!(&out.data()[8..24], &[0xcc; 16]);
}

#[test]
fn link_resolves_an_absolute_32_bit_relocation() {
    let out = link(vec![caller(REL_ABS32, 0x10, 4), callee()]).unwrap();
    // 0x1000 + 12 + 0x10, four bytes wide
    assert_eq!(&out.data()[0..8], &[0x90, 0x90, 0x90, 0x90, 0x1c, 0x10, 0, 0]);
}

#[test]
fn link_resolves_a_relative_relocation() {
    let out = link(vec![caller(REL_PC32, -8, 8), callee()]).unwrap();
    // symbol 0x100c, addend -8, place 0x1008: -4 in 32 bits
    assert_eq!(&out.data()[0..8], &[0x90; 8]);
    assert_eq!(&out.data()[8..12], &[0xfc, 0xff, 0xff, 0xff]);
    assert_eq!(&out.data()[12..24], &[0xcc; 12]);
}

#[test]
fn link_wraps_a_negative_sum_in_64_bits() {
    let mut a = Vsbf::empty();
    a.push_string("zero").unwrap();
    a.push_section(section(SectionType::Data, PermissionFlags::R(), 8, 0, 0));
    a.data_mut().extend_from_slice(&[0; 8]);
    a.push_sym(Sym {
        name: 0,
        size: 0,
        section: 0,
        value: 0,
    });
    a.push_rel(Rel {
        typ: REL_ABS64,
        addend: -1,
        needed: 0,
        offset: 0,
    });
    let out = link(vec![a]).unwrap();
    assert_eq!(out.data(), &[0xff; 8]);
}

#[test]
fn link_allocates_one_segment_per_section() {
    let mut a = caller(REL_ABS64, 0, 0);
    a.push_section(section(
        SectionType::Rodata,
        PermissionFlags::R(),
        0,
        8,
        0x3000,
    ));
    let mut b = callee();
    b.push_section(section(
        SectionType::Data,
        PermissionFlags::R() | PermissionFlags::W(),
        4,
        12,
        0x2000,
    ));
    let out = link(vec![a, b]).unwrap();
    let sections = out.sections();
    let segments = out.segments();
    assert_eq!(sections.len(), 3);
    assert_eq!(segments.len(), 3);
    assert!(sections[0].is_text());
    assert!(sections[1].is_data());
    assert!(sections[2].is_rodata());
    assert_eq!(sections[1].offset, 24);
    assert_eq!(sections[2].offset, 28);
    for (segment, section) in segments.iter().zip(sections.iter()) {
        assert_eq!(segment.typ, 0);
        assert_eq!(segment.flags, section.flags);
        assert_eq!(segment.file, section.offset);
        assert_eq!(segment.file_size, section.file_size as u32);
        assert_eq!(segment.mem, section.memory);
        assert_eq!(segment.mem_size, section.file_size as u32);
        assert_eq!(segment.align, 0x1000);
    }
}

#[test]
fn allocate_segments_keeps_what_was_there() {
    let mut out = Vsbf::empty();
    out.push_section(section(SectionType::Text, PermissionFlags::all(), 3, 5, 7));
    allocate_segments(&mut out);
    allocate_segments(&mut out);
    assert_eq!(out.segments().len(), 2);
    assert_eq!(out.segments()[0], out.segments()[1]);
    assert_eq!(out.segments()[1].file, 5);
    assert_eq!(out.segments()[1].mem, 7);
    assert_eq!(out.segments()[1].file_size, 3);
    assert_eq!(out.sections()[0].offset, 5);
}

#[test]
fn link_reports_every_undefined_symbol() {
    let mut a = caller(REL_ABS64, 0, 0);
    a.push_rel(Rel {
        typ: REL_ABS32,
        addend: 0,
        needed: 0,
        offset: 999,
    });
    a.push_rel(Rel {
        typ: REL_ABS32,
        addend: 0,
        needed: 6,
        offset: 0,
    });
    // nobody defines "helper"; "main" is defined, its relocation is out of bounds
    let r = link(vec![a]);
    assert_eq!(
        r,
        Err(Error::UndefinedSymbol(vec![
            b"helper".to_vec(),
            b"helper".to_vec()
        ]))
    );
}

#[test]
fn link_rejects_a_symbol_defined_twice() {
    let r = link(vec![caller(REL_ABS64, 0, 0), callee(), callee()]);
    assert_eq!(r, Err(Error::DuplicateSymbol(b"helper".to_vec())));
}

#[test]
fn link_rejects_a_relocation_out_of_bounds() {
    // behind every section
    let r = link(vec![caller(REL_ABS64, 0, 24), callee()]);
    assert_eq!(r, Err(Error::RelocationOutOfBounds(24)));
    // starts within the section, but its eight bytes do not fit
    let r = link(vec![caller(REL_ABS64, 0, 17), callee()]);
    assert_eq!(r, Err(Error::RelocationOutOfBounds(17)));
    // the last place where they fit
    assert!(link(vec![caller(REL_ABS64, 0, 16), callee()]).is_ok());
}

#[test]
fn link_is_deterministic() {
    let first = link_to_bytes(vec![caller(REL_ABS64, 2, 0), callee()]).unwrap();
    let second = link_to_bytes(vec![caller(REL_ABS64, 2, 0), callee()]).unwrap();
    assert_eq!(first, second);
    let other_order = link_to_bytes(vec![callee(), caller(REL_ABS64, 2, 16)]).unwrap();
    assert_ne!(first, other_order);
}

#[test]
fn link_to_bytes_is_the_linked_image_as_a_file() {
    let bytes = link_to_bytes(vec![caller(REL_ABS64, 2, 0), callee()]).unwrap();
    let image = link(vec![caller(REL_ABS64, 2, 0), callee()]).unwrap();
    assert_eq!(bytes, image.serialize());
    assert_eq!(Vsbf::parse(&bytes).unwrap().1, image);
    assert_eq!(&bytes[0..4], b"VSBF");
    // one segment, one section, 22 bytes of strings, two symbols, one relocation
    assert_eq!(&bytes[8..12], &[1, 0, 1, 0]);
    assert_eq!(&bytes[12..24], &[22, 0, 0, 0, 2, 0, 0, 0, 1, 0, 0, 0]);
    assert_eq!(bytes.len(), 32 + 24 + 16 + 22 + 32 + 16 + 24);
}

#[test]
fn link_of_one_object_keeps_its_section_data() {
    let mut a = Vsbf::empty();
    a.push_section(section(SectionType::Text, PermissionFlags::R(), 4, 0, 0));
    a.data_mut().extend_from_slice(b"text");
    a.push_section(section(SectionType::Data, PermissionFlags::R(), 4, 4, 0));
    a.data_mut().extend_from_slice(b"data");
    a.push_section(section(SectionType::Rodata, PermissionFlags::R(), 2, 8, 0));
    a.data_mut().extend_from_slice(b"ro");
    a.push_section(section(SectionType::Rodata, PermissionFlags::R(), 3, 10, 0));
    a.data_mut().extend_from_slice(b"end");
    let out = link(vec![a]).unwrap();
    assert_eq!(out.data(), b"textdataroend");
}

#[test]
fn merge_sections_orders_by_type_not_by_input() {
    let mut a = Vsbf::empty();
    a.push_section(section(SectionType::Rodata, PermissionFlags::R(), 2, 0, 0x30));
    a.push_section(section(SectionType::Text, PermissionFlags::X(), 2, 2, 0x10));
    a.data_mut().extend_from_slice(b"rrtt");
    let mut out = Vsbf::empty();
    merge_sections(&mut out, &[a]);
    assert_eq!(out.data(), b"ttrr");
    assert!(out.sections()[0].is_text());
    assert_eq!(out.sections()[0].memory, 0x10);
    assert!(out.sections()[1].is_rodata());
    assert_eq!(out.sections()[1].offset, 2);
    assert_eq!(out.sections()[1].memory, 0x30);
}

#[test]
fn merge_sections_appends_behind_existing_data() {
    let mut a = Vsbf::empty();
    a.push_section(section(SectionType::Data, PermissionFlags::W(), 3, 1, 0));
    a.data_mut().extend_from_slice(b"_abc_");
    let mut out = Vsbf::empty();
    out.data_mut().extend_from_slice(b"xy");
    merge_sections(&mut out, &[a]);
    assert_eq!(out.data(), b"xyabc");
    assert_eq!(out.sections()[0].offset, 2);
    assert_eq!(out.sections()[0].file_size, 3);
}

#[test]
fn merge_strtabs_moves_the_names_relocations_need() {
    let mut a = Vsbf::empty();
    a.push_string("hello").unwrap();
    let mut b = Vsbf::empty();
    b.push_string("Hi").unwrap();
    b.push_string("you").unwrap();
    b.push_rel(Rel {
        typ: 0,
        addend: 0,
        needed: 4,
        offset: 0,
    });
    // 3 is no valid offset and stays
    b.push_rel(Rel {
        typ: 0,
        addend: 0,
        needed: 3,
        offset: 0,
    });
    b.push_sym(Sym {
        name: 4,
        size: 0,
        section: 0,
        value: 0,
    });
    let mut objs = [a, b];
    let merged = merge_strtabs(&mut objs);
    assert_eq!(merged, b"\x05\x00hello\x02\x00Hi\x03\x00you");
    assert_eq!(objs[1].rels()[0].needed, 11);
    assert_eq!(objs[1].rels()[1].needed, 3);
    assert_eq!(objs[1].syms()[0].name, 11);
    // the objects keep their own tables
    assert_eq!(objs[1].strtab(), b"\x02\x00Hi\x03\x00you");
}

#[test]
fn merge_strtabs_does_not_chain_renames() {
    // the second table has entries at 0 and 7; with a base of 7 a name
    // moved from 0 to 7 must not move again
    let mut a = Vsbf::empty();
    a.push_string("hello").unwrap();
    let mut b = Vsbf::empty();
    b.push_string("world").unwrap();
    b.push_string("x").unwrap();
    b.push_sym(Sym {
        name: 0,
        size: 0,
        section: 0,
        value: 0,
    });
    b.push_sym(Sym {
        name: 7,
        size: 0,
        section: 0,
        value: 0,
    });
    let mut objs = [a, b];
    merge_strtabs(&mut objs);
    assert_eq!(objs[1].syms()[0].name, 7);
    assert_eq!(objs[1].syms()[1].name, 14);
}

#[test]
fn merge_symbols_places_symbols_in_merged_sections() {
    let mut a = Vsbf::empty();
    a.push_section(section(SectionType::Rodata, PermissionFlags::R(), 10, 0, 0));
    a.push_section(section(SectionType::Rodata, PermissionFlags::R(), 5, 10, 0));
    a.push_sym(Sym {
        name: 0,
        size: 0,
        section: 1,
        value: 3,
    });
    a.push_sym(Sym {
        name: 0,
        size: 0,
        section: 9,
        value: 3,
    });
    let mut b = Vsbf::empty();
    b.push_section(section(SectionType::Data, PermissionFlags::R(), 7, 0, 0));
    b.push_section(section(SectionType::Rodata, PermissionFlags::R(), 1, 7, 0));
    b.push_sym(Sym {
        name: 0,
        size: 0,
        section: 1,
        value: u64::MAX,
    });
    b.push_sym(Sym {
        name: 0,
        size: 0,
        section: 0,
        value: 1,
    });
    let mut out = Vsbf::empty();
    merge_symbols(&mut out, &[a, b]);
    let syms = out.syms();
    // no text: data is merged section 0, read-only data 1
    assert_eq!((syms[0].section, syms[0].value), (1, 13));
    assert_eq!((syms[1].section, syms[1].value), (9, 3));
    assert_eq!((syms[2].section, syms[2].value), (1, 14));
    assert_eq!((syms[3].section, syms[3].value), (0, 1));
}

#[test]
fn resolve_leaves_the_image_alone_on_error() {
    let mut img = Vsbf::empty();
    img.push_string("a").unwrap();
    img.push_string("b").unwrap();
    img.push_section(section(SectionType::Text, PermissionFlags::R(), 8, 0, 0x10));
    img.data_mut().extend_from_slice(&[1; 8]);
    img.push_sym(Sym {
        name: 0,
        size: 0,
        section: 0,
        value: 1,
    });
    img.push_rel(Rel {
        typ: REL_ABS32,
        addend: 0,
        needed: 0,
        offset: 0,
    });
    img.push_rel(Rel {
        typ: REL_ABS32,
        addend: 0,
        needed: 3,
        offset: 4,
    });
    assert_eq!(
        resolve(&mut img),
        Err(Error::UndefinedSymbol(vec![b"b".to_vec()]))
    );
    assert_eq!(img.data(), &[1; 8]);
    img.push_sym(Sym {
        name: 3,
        size: 0,
        section: 7,
        value: 0xaabb_ccdd_1122_3344,
    });
    assert_eq!(resolve(&mut img), Ok(()));
    // the second symbol names no section: its value is its address
    assert_eq!(img.data(), &[0x11, 0, 0, 0, 0x44, 0x33, 0x22, 0x11]);
}

#[test]
fn resolve_applies_relocations_in_order() {
    let mut img = Vsbf::empty();
    img.push_string("a").unwrap();
    img.push_section(section(SectionType::Text, PermissionFlags::R(), 8, 0, 0));
    img.data_mut().extend_from_slice(&[0; 8]);
    img.push_sym(Sym {
        name: 0,
        size: 0,
        section: 0,
        value: 0x0102_0304,
    });
    img.push_rel(Rel {
        typ: REL_ABS64,
        addend: 0,
        needed: 0,
        offset: 0,
    });
    img.push_rel(Rel {
        typ: REL_ABS32,
        addend: 0,
        needed: 0,
        offset: 2,
    });
    resolve(&mut img).unwrap();
    assert_eq!(img.data(), &[4, 3, 4, 3, 2, 1, 0, 0]);
}

#[test]
fn is_sound_finds_what_is_wrong() {
    assert!(is_sound(&caller(REL_ABS64, 0, 0)));
    // an unknown relocation type
    assert!(!is_sound(&caller(3, 0, 0)));
    // a name that is no valid offset
    let mut a = callee();
    a.push_sym(Sym {
        name: 1,
        size: 0,
        section: 0,
        value: 0,
    });
    assert!(!is_sound(&a));
    // a section that leaves the data
    let mut a = callee();
    a.push_section(section(SectionType::Data, PermissionFlags::R(), 1, 16, 0));
    assert!(!is_sound(&a));
    // a string table that ends within an entry
    let mut a = callee();
    a.set_strtab(vec![5, 0]);
    assert!(!a.has_valid_strtab());
    assert!(!is_sound(&a));
}

#[test]
fn is_linkable_checks_the_size_of_merged_sections() {
    let mut a = Vsbf::empty();
    a.push_section(section(SectionType::Text, PermissionFlags::R(), 40000, 0, 0));
    a.data_mut().extend_from_slice(&vec![0; 40000]);
    let mut b = Vsbf::empty();
    b.push_section(section(SectionType::Text, PermissionFlags::R(), 25535, 0, 0));
    b.data_mut().extend_from_slice(&vec![0; 25536]);
    let mut c = Vsbf::empty();
    c.push_section(section(SectionType::Text, PermissionFlags::R(), 1, 0, 0));
    c.data_mut().extend_from_slice(&[0]);
    assert!(is_linkable(&[]));
    let objs = vec![a, b];
    assert!(is_linkable(&objs));
    assert_eq!(link(objs).unwrap().sections()[0].file_size, 65535);
    let mut a = Vsbf::empty();
    a.push_section(section(SectionType::Text, PermissionFlags::R(), 65535, 0, 0));
    a.data_mut().extend_from_slice(&vec![0; 65535]);
    assert!(!is_linkable(&[a, c]));
}

#[test]
fn link_of_nothing_is_an_empty_image() {
    assert_eq!(link(vec![]), Ok(Vsbf::empty()));
}

#[test]
fn stages_say_when_they_can_run() {
    let objs = [caller(REL_ABS64, 0, 0), callee()];
    assert!(can_merge_strtabs(&objs));
    assert!(can_merge_sections(&Vsbf::empty(), &objs));
    assert!(can_merge_symbols(&objs));
    assert_eq!(merged_size(&objs, SectionType::Text), Some(24));
    assert_eq!(merged_size(&objs, SectionType::Data), Some(0));
    assert!(is_resolvable(&objs[0]));

    let mut broken = callee();
    broken.set_strtab(vec![1]);
    assert!(!can_merge_strtabs(&[callee(), broken]));

    let mut short = callee();
    short.data_mut().pop();
    assert!(!can_merge_sections(&Vsbf::empty(), &[short]));

    let mut big = Vsbf::empty();
    big.push_section(section(SectionType::Data, PermissionFlags::R(), 65535, 0, 0));
    big.data_mut().extend_from_slice(&vec![0; 65535]);
    let mut one = Vsbf::empty();
    one.push_section(section(SectionType::Data, PermissionFlags::R(), 1, 0, 0));
    one.data_mut().push(0);
    let objs = [big, one];
    assert_eq!(merged_size(&objs, SectionType::Data), None);
    assert_eq!(merged_size(&objs[..1], SectionType::Data), Some(65535));
    assert!(!can_merge_symbols(&objs));
    assert!(!can_merge_sections(&Vsbf::empty(), &objs));

    assert!(!is_resolvable(&caller(7, 0, 0)));
}
