use vsbf::wire::{bits_of_i16, push_bytes, push_le, read_i16, read_le, read_u16, read_u32, read_u64, read_u8};
use vsbf::{
    Error, FileHeader, PermissionFlags, Rel, SectionHeader, SectionType, SegmentHeader, Sym, Vsbf,
    FILE_HDR_SIZE, REL_SIZE, SECTION_HDR_SIZE, SEGMENT_HDR_SIZE, SYM_SIZE,
};

fn header() -> FileHeader {
    FileHeader {
        arch: 0x0102,
        os: 0x0304,
        num_segments: 0x0506,
        num_sections: 0x0708,
        strtab_size: 0x090a_0b0c,
        num_symbols: 0x0d0e_0f10,
        num_relocs: 0x1112_1314,
        next_header: 0x1516_1718_191a_1b1c,
    }
}

#[test]
fn file_header_is_written_little_endian_behind_the_tag() {
    let mut buf = vec![0xee];
    header().write(&mut buf);
    assert_eq!(
        buf,
        [
            0xee, b'V', b'S', b'B', b'F', 0x02, 0x01, 0x04, 0x03, 0x06, 0x05, 0x08, 0x07, 0x0c,
            0x0b, 0x0a, 0x09, 0x10, 0x0f, 0x0e, 0x0d, 0x14, 0x13, 0x12, 0x11, 0x1c, 0x1b, 0x1a,
            0x19, 0x18, 0x17, 0x16, 0x15
        ]
    );
    assert_eq!(buf.len() - 1, FILE_HDR_SIZE as usize);
}

#[test]
fn file_header_parses_back_and_leaves_the_rest() {
    let mut buf = vec![];
    header().write(&mut buf);
    buf.extend_from_slice(b"rest");
    let (rest, parsed) = FileHeader::parse(&buf).unwrap();
    assert_eq!(parsed, header());
    assert_eq!(rest, b"rest");
    assert_eq!(FileHeader::read(&buf, 0), header());
}

#[test]
fn file_header_without_tag_is_malformed() {
    assert_eq!(FileHeader::parse(b""), Err(Error::MalformedHeader));
    assert_eq!(FileHeader::parse(b"VSB"), Err(Error::MalformedHeader));
    assert_eq!(
        FileHeader::parse(b"VSBG0123456789012345678901234567"),
        Err(Error::MalformedHeader)
    );
    assert_eq!(
        FileHeader::parse(b"vSBF0123456789012345678901234567"),
        Err(Error::MalformedHeader)
    );
}

#[test]
fn file_header_cut_short_is_truncated() {
    assert_eq!(FileHeader::parse(b"VSBF"), Err(Error::TruncatedInput));
    assert_eq!(
        FileHeader::parse(b"VSBF012345678901234567890123456"),
        Err(Error::TruncatedInput)
    );
    assert!(FileHeader::parse(b"VSBF0123456789012345678901234567").is_ok());
}

#[test]
fn segment_header_round_trip() {
    let segment = SegmentHeader {
        typ: 9,
        flags: PermissionFlags::R() | PermissionFlags::W(),
        align: 0x1000,
        file: 0x0a0b_0c0d,
        mem: 0x0102_0304_0506_0708,
        file_size: 0x1122_3344,
        mem_size: 0x5566_7788,
    };
    let mut buf = vec![];
    segment.write(&mut buf);
    assert_eq!(
        buf,
        [
            9, 3, 0x00, 0x10, 0x0d, 0x0c, 0x0b, 0x0a, 8, 7, 6, 5, 4, 3, 2, 1, 0x44, 0x33, 0x22,
            0x11, 0x88, 0x77, 0x66, 0x55
        ]
    );
    assert_eq!(buf.len(), SEGMENT_HDR_SIZE as usize);
    buf.push(0xff);
    let (rest, parsed) = SegmentHeader::parse(&buf).unwrap();
    assert_eq!(parsed, segment);
    assert_eq!(rest, [0xff]);
    assert_eq!(SegmentHeader::parse(&buf[..23]), Err(Error::TruncatedInput));
}

#[test]
fn unknown_flag_bits_are_dropped() {
    let mut buf = vec![0u8; 24];
    buf[1] = 0xfd;
    let (_, parsed) = SegmentHeader::parse(&buf).unwrap();
    assert_eq!(parsed.flags, PermissionFlags::R() | PermissionFlags::X());
    assert_eq!(parsed.flags.bits(), 5);
    assert_eq!(PermissionFlags::from_bits_truncate(0xfa).bits(), 2);
}

#[test]
fn section_header_round_trip() {
    let section = SectionHeader {
        typ: SectionType::Rodata,
        flags: PermissionFlags::R(),
        file_size: 0x0102,
        offset: 0x0304_0506,
        memory: 0x0708_090a_0b0c_0d0e,
    };
    let mut buf = vec![];
    section.write(&mut buf);
    assert_eq!(
        buf,
        [2, 1, 2, 1, 6, 5, 4, 3, 0x0e, 0x0d, 0x0c, 0x0b, 0x0a, 9, 8, 7]
    );
    assert_eq!(buf.len(), SECTION_HDR_SIZE as usize);
    let (rest, parsed) = SectionHeader::parse(&buf).unwrap();
    assert_eq!(parsed, section);
    assert!(rest.is_empty());
    assert_eq!(SectionHeader::read(&buf, 0), Ok(section));
}

#[test]
fn section_header_of_unknown_type_is_rejected() {
    let mut buf = vec![0u8; 16];
    buf[0] = 3;
    assert_eq!(SectionHeader::parse(&buf), Err(Error::UnknownSectionType(3)));
    buf[0] = 0xff;
    assert_eq!(
        SectionHeader::parse(&buf),
        Err(Error::UnknownSectionType(0xff))
    );
    assert_eq!(SectionHeader::read(&buf, 0), Err(0xff));
    // the length is looked at first
    assert_eq!(SectionHeader::parse(&buf[..15]), Err(Error::TruncatedInput));
}

#[test]
fn section_type_bytes() {
    assert_eq!(SectionType::Text.to_le_bytes(), [0]);
    assert_eq!(SectionType::Data.to_le_bytes(), [1]);
    assert_eq!(SectionType::Rodata.to_le_bytes(), [2]);
    assert_eq!(SectionType::Rodata.to_u8(), 2);
    assert_eq!(SectionType::try_from(0), Ok(SectionType::Text));
    assert_eq!(SectionType::try_from(1), Ok(SectionType::Data));
    assert_eq!(SectionType::try_from(2), Ok(SectionType::Rodata));
    assert_eq!(SectionType::try_from(3), Err(3));
    assert_eq!(SectionType::Text.name(), "text");
    assert_eq!(SectionType::Data.name(), "data");
    assert_eq!(SectionType::Rodata.name(), "rodata");
}

#[test]
fn symbol_round_trip() {
    let sym = Sym {
        name: 0x0102_0304,
        size: 0x0506,
        section: 0x0708,
        value: 0x090a_0b0c_0d0e_0f10,
    };
    let mut buf = vec![];
    sym.write(&mut buf);
    assert_eq!(
        buf,
        [4, 3, 2, 1, 6, 5, 8, 7, 0x10, 0x0f, 0x0e, 0x0d, 0x0c, 0x0b, 0x0a, 9]
    );
    assert_eq!(buf.len(), SYM_SIZE as usize);
    assert_eq!(Sym::parse(&buf).unwrap().1, sym);
    assert_eq!(Sym::parse(&buf[1..]), Err(Error::TruncatedInput));
}

#[test]
fn relocation_round_trip_with_negative_addend() {
    let rel = Rel {
        typ: 0x0102,
        addend: -2,
        needed: 0x0304_0506,
        offset: 0x0708_090a_0b0c_0d0e,
    };
    let mut buf = vec![];
    rel.write(&mut buf);
    assert_eq!(
        buf,
        [2, 1, 0xfe, 0xff, 6, 5, 4, 3, 0x0e, 0x0d, 0x0c, 0x0b, 0x0a, 9, 8, 7]
    );
    assert_eq!(buf.len(), REL_SIZE as usize);
    assert_eq!(Rel::parse(&buf).unwrap().1, rel);
    assert_eq!(Rel::parse(&buf[..15]), Err(Error::TruncatedInput));
    for addend in [i16::MIN, -1, 0, 1, i16::MAX] {
        let rel = Rel { addend, ..rel };
        let mut buf = vec![];
        rel.write(&mut buf);
        assert_eq!(Rel::read(&buf, 0), rel);
    }
}

#[test]
fn wire_reads_and_writes_little_endian() {
    let buf = [0x01, 0x02, 0x03, 0x04, 0x05, 0x06, 0x07, 0x08, 0xff];
    assert_eq!(read_u8(&buf, 8), 0xff);
    assert_eq!(read_u16(&buf, 1), 0x0302);
    assert_eq!(read_u32(&buf, 0), 0x0403_0201);
    assert_eq!(read_u64(&buf, 0), 0x0807_0605_0403_0201);
    assert_eq!(read_u64(&buf, 1), 0xff08_0706_0504_0302);
    assert_eq!(read_le(&buf, 2, 3), 0x05_0403);
    assert_eq!(read_le(&buf, 2, 0), 0);
    assert_eq!(read_i16(&[0xff, 0x7f], 0), i16::MAX);
    assert_eq!(read_i16(&[0x00, 0x80], 0), i16::MIN);
    assert_eq!(read_i16(&[0xff, 0xff], 0), -1);
    assert_eq!(bits_of_i16(-1), 0xffff);
    assert_eq!(bits_of_i16(i16::MIN), 0x8000);
    assert_eq!(bits_of_i16(5), 5);
    let mut out = vec![7];
    push_le(&mut out, 0x1122_3344_5566_7788, 8);
    push_le(&mut out, 0x1122_3344_5566_7788, 2);
    push_le(&mut out, 1, 0);
    push_bytes(&mut out, b"ab");
    assert_eq!(
        out,
        [7, 0x88, 0x77, 0x66, 0x55, 0x44, 0x33, 0x22, 0x11, 0x88, 0x77, b'a', b'b']
    );
}

fn sample() -> Vsbf {
    let mut vsbf = Vsbf::empty();
    vsbf.push_string("hello").unwrap();
    vsbf.push_segment(SegmentHeader {
        typ: 0,
        flags: PermissionFlags::all(),
        align: 0x1000,
        file: 0,
        mem: 0x4000,
        file_size: 3,
        mem_size: 3,
    });
    vsbf.push_section(SectionHeader {
        typ: SectionType::Data,
        flags: PermissionFlags::R() | PermissionFlags::W(),
        file_size: 3,
        offset: 0,
        memory: 0x4000,
    });
    vsbf.push_section(SectionHeader {
        typ: SectionType::Text,
        flags: PermissionFlags::X(),
        file_size: 0,
        offset: 3,
        memory: 0,
    });
    vsbf.push_sym(Sym {
        name: 0,
        size: 10,
        section: 0,
        value: 20,
    });
    vsbf.push_rel(Rel {
        typ: 1,
        addend: -3,
        needed: 0,
        offset: 1,
    });
    vsbf.data_mut().extend_from_slice(b"abc");
    vsbf
}

#[test]
fn image_round_trip() {
    let vsbf = sample();
    assert!(vsbf.fits());
    let bytes = vsbf.serialize();
    assert_eq!(bytes.len(), 32 + 24 + 2 * 16 + 7 + 16 + 16 + 3);
    let (data, parsed) = Vsbf::parse(&bytes).unwrap();
    assert_eq!(parsed, vsbf);
    assert_eq!(data, b"abc");
    // the header is rebuilt from the tables
    let (_, header) = FileHeader::parse(&bytes).unwrap();
    assert_eq!(
        header,
        FileHeader {
            arch: 0,
            os: 0,
            num_segments: 1,
            num_sections: 2,
            strtab_size: 7,
            num_symbols: 1,
            num_relocs: 1,
            next_header: 0,
        }
    );
    // serializing what was parsed gives the same file
    assert_eq!(parsed.serialize(), bytes);
    let mut appended = vec![1, 2];
    vsbf.write(&mut appended);
    assert_eq!(&appended[..2], &[1, 2]);
    assert_eq!(&appended[2..], &bytes[..]);
}

#[test]
fn image_errors_follow_the_order_of_the_checks() {
    let bytes = sample().serialize();
    // any cut before the data starts is a truncation
    let tables_end = bytes.len() - 3;
    for len in 4..tables_end {
        assert_eq!(Vsbf::parse(&bytes[..len]), Err(Error::TruncatedInput));
    }
    // a cut within the data is only less data
    let (data, parsed) = Vsbf::parse(&bytes[..tables_end + 1]).unwrap();
    assert_eq!(data, b"a");
    assert_eq!(parsed.data(), b"a");
    assert_eq!(Vsbf::parse(&bytes[..3]), Err(Error::MalformedHeader));
    let mut bad = bytes.clone();
    bad[0] = b'v';
    assert_eq!(Vsbf::parse(&bad), Err(Error::MalformedHeader));
    // the second section header stands at 32 + 24 + 16
    let mut bad = bytes.clone();
    bad[72] = 7;
    assert_eq!(Vsbf::parse(&bad), Err(Error::UnknownSectionType(7)));
    // with two unknown types the first is reported
    bad[56] = 9;
    assert_eq!(Vsbf::parse(&bad), Err(Error::UnknownSectionType(9)));
    // a truncation is reported before an unknown type
    assert_eq!(
        Vsbf::parse(&bad[..tables_end - 1]),
        Err(Error::TruncatedInput)
    );
}

#[test]
fn add_segment_moves_every_file_offset() {
    let mut vsbf = sample();
    assert!(vsbf.has_room_for_segment(&vsbf.segments()[0]));
    vsbf.add_segment(SegmentHeader {
        typ: 0,
        flags: PermissionFlags::all(),
        align: 0x1000,
        file: 100,
        mem: 0,
        file_size: 1,
        mem_size: 1,
    });
    let segments = vsbf.segments();
    assert_eq!(segments.len(), 2);
    assert_eq!(segments[0].file, 24);
    assert_eq!(segments[1].file, 124);
    assert_eq!(segments[1].mem, 0);
    let sections = vsbf.sections();
    assert_eq!(sections[0].offset, 24);
    assert_eq!(sections[1].offset, 27);
    assert_eq!(sections[0].file_size, 3);
    assert_eq!(vsbf.data(), b"abc");
}

#[test]
fn add_segment_needs_room_in_every_offset() {
    let mut vsbf = sample();
    let segment = vsbf.segments()[0];
    assert!(!vsbf.has_room_for_segment(&SegmentHeader {
        file: u32::MAX - 23,
        ..segment
    }));
    assert!(vsbf.has_room_for_segment(&SegmentHeader {
        file: u32::MAX - 24,
        ..segment
    }));
    vsbf.push_section(SectionHeader {
        typ: SectionType::Text,
        flags: PermissionFlags::empty(),
        file_size: 0,
        offset: u32::MAX,
        memory: 0,
    });
    assert!(!vsbf.has_room_for_segment(&segment));
}

#[test]
fn push_does_not_adjust_offsets() {
    let mut vsbf = sample();
    let before = vsbf.sections();
    vsbf.push_segment(vsbf.segments()[0]);
    vsbf.push_section(before[0]);
    assert_eq!(vsbf.segments()[0], vsbf.segments()[1]);
    assert_eq!(&vsbf.sections()[..2], &before[..]);
    assert_eq!(vsbf.sections()[2], before[0]);
}

#[test]
fn mutable_views_change_the_image() {
    let mut vsbf = sample();
    vsbf.syms_mut()[0].name = 5;
    vsbf.rels_mut()[0].needed = 6;
    vsbf.data_mut()[1] = b'X';
    assert_eq!(vsbf.syms()[0].name, 5);
    assert_eq!(vsbf.rels()[0].needed, 6);
    assert_eq!(vsbf.data(), b"aXc");
}

#[test]
fn strings_of_a_table() {
    let vsbf = sample();
    assert!(vsbf.has_valid_strtab());
    assert!(vsbf.has_string_at(0));
    assert!(!vsbf.has_string_at(1));
    assert!(!vsbf.has_string_at(7));
    let mut vsbf = Vsbf::empty();
    assert!(vsbf.has_valid_strtab());
    assert!(vsbf.strings().next().is_none());
    // a length prefix without its string
    vsbf.set_strtab(vec![0x05, 0x00]);
    assert!(!vsbf.has_valid_strtab());
    assert!(!vsbf.has_string_at(0));
    // a string that is not ASCII
    vsbf.set_strtab(vec![0x01, 0x00, 0x80]);
    assert!(!vsbf.has_valid_strtab());
    // one byte too many
    vsbf.set_strtab(vec![0x01, 0x00, b'a', 0x00]);
    assert!(!vsbf.has_valid_strtab());
    assert!(vsbf.has_string_at(0));
    assert_eq!(vsbf.string_at(0), "a");
}

#[test]
fn permission_flags() {
    let rx = PermissionFlags::R() | PermissionFlags::X();
    assert_eq!(rx.bits(), 5);
    assert_eq!(rx, PermissionFlags::R().union(PermissionFlags::X()));
    assert!(rx.is_readable());
    assert!(!rx.is_writable());
    assert!(rx.is_executable());
    assert!(rx.contains(PermissionFlags::R()));
    assert!(rx.contains(PermissionFlags::empty()));
    assert!(!rx.contains(PermissionFlags::W()));
    assert!(!rx.contains(PermissionFlags::all()));
    assert!(PermissionFlags::all().contains(rx));
    assert_eq!(PermissionFlags::all().bits(), 7);
    assert_eq!(PermissionFlags::W().bits(), 2);
    assert_eq!(rx.to_string(), "R X");
    assert_eq!(PermissionFlags::W().to_string(), " W ");
    assert_eq!(PermissionFlags::empty().to_string(), "   ");
    assert_eq!(PermissionFlags::all().to_string(), "RWX");
}
