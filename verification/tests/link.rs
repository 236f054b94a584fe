use vsbf::{merge_sections, merge_strtabs, PermissionFlags, SectionHeader, SectionType, Sym, Vsbf};

#[test]
fn test_merge_strtab() {
    let mut v1 = Vsbf::empty();
    let mut v2 = Vsbf::empty();

    v1.push_string("hello").unwrap();
    v1.push_sym(Sym {
        name: 0,
        size: 0,
        section: 0,
        value: 0,
    });

    v2.push_string("Hi").unwrap();
    v2.push_sym(Sym {
        name: 0,
        size: 0,
        section: 0,
        value: 0,
    });

    let mut objs = [v1, v2];
    let new_strtab = merge_strtabs(&mut objs);
    let [v1, v2] = objs;

    assert_eq!(new_strtab, b"\x05\x00hello\x02\x00Hi");
    assert_eq!(v1.syms()[0].name, 0);
    assert_eq!(v2.syms()[0].name, 7);
}

#[test]
fn test_merge_sections() {
    let mut v1 = Vsbf::empty();
    let mut v2 = Vsbf::empty();
    let mut out = Vsbf::empty();

    v1.push_section(SectionHeader {
        typ: SectionType::Text,
        flags: PermissionFlags::R() | PermissionFlags::X(),
        file_size: 10,
        offset: 0,
        memory: 0,
    });
    v1.data_mut().extend_from_slice(b"aaaaabbbbb");
    v1.push_section(SectionHeader {
        typ: SectionType::Rodata,
        flags: PermissionFlags::R(),
        file_size: 10,
        offset: 10,
        memory: 0,
    });
    v1.data_mut().extend_from_slice(b"cccccddddd");
    v1.push_section(SectionHeader {
        typ: SectionType::Rodata,
        flags: PermissionFlags::R(),
        file_size: 10,
        offset: 20,
        memory: 0,
    });
    v1.data_mut().extend_from_slice(b"eeeeefffff");

    v2.push_section(SectionHeader {
        typ: SectionType::Text,
        flags: PermissionFlags::R() | PermissionFlags::X(),
        file_size: 20,
        offset: 0,
        memory: 0,
    });
    v2.data_mut().extend_from_slice(b"ggggghhhhhiiiiijjjjj");
    v2.push_section(SectionHeader {
        typ: SectionType::Data,
        flags: PermissionFlags::R() | PermissionFlags::W(),
        file_size: 10,
        offset: 20,
        memory: 0,
    });
    v2.data_mut().extend_from_slice(b"kkkkklllll");

    let objs = [v1, v2];
    merge_sections(&mut out, &objs);

    assert!(out.sections()[0].is_text());
    assert!(out.sections()[0].is_rx());
    assert_eq!(out.sections()[0].offset, 0);
    assert_eq!(out.sections()[0].file_size, 30);
    assert_eq!(&out.data()[0..30], b"aaaaabbbbbggggghhhhhiiiiijjjjj");

    assert!(out.sections()[1].is_data());
    assert!(out.sections()[1].is_rw());
    assert_eq!(out.sections()[1].offset, 30);
    assert_eq!(out.sections()[1].file_size, 10);
    assert_eq!(&out.data()[30..40], b"kkkkklllll");

    println!("{:?}", out.sections()[2]);
    assert!(out.sections()[2].is_rodata());
    assert!(out.sections()[2].is_ronly());
    assert_eq!(out.sections()[2].offset, 40);
    assert_eq!(out.sections()[2].file_size, 20);
    assert_eq!(&out.data()[40..60], b"cccccdddddeeeeefffff");
}
