use vsbf::basic;
use vsbf::{
    parse_file, parse_header, parse_section_header, parse_segment_header, Error, Header,
    PermissionFlags, SegmentHeader,
};

fn file(segments: u16, sections: u16) -> Vec<u8> {
    let mut bytes = b"VSBF".to_vec();
    bytes.extend_from_slice(&[1, 0, 2, 0]);
    bytes.extend_from_slice(&segments.to_le_bytes());
    bytes.extend_from_slice(&sections.to_le_bytes());
    bytes.extend_from_slice(&[9, 0, 0, 0, 0, 0, 0, 0]);
    bytes
}

fn segment(file: u8) -> [u8; 24] {
    let mut bytes = [0u8; 24];
    bytes[1] = 7;
    bytes[4] = file;
    bytes
}

fn section(typ: u8) -> [u8; 16] {
    let mut bytes = [0u8; 16];
    bytes[0] = typ;
    bytes[1] = 0xf1;
    bytes[2] = 5;
    bytes
}

#[test]
fn basic_header() {
    let mut bytes = file(3, 4);
    bytes.push(0xaa);
    let (rest, header) = parse_header(&bytes).unwrap();
    assert_eq!(
        header,
        Header {
            arch: 1,
            os: 2,
            num_segments: 3,
            num_sections: 4,
            next_header: 9,
        }
    );
    assert_eq!(rest, [0xaa]);
    assert_eq!(parse_header(&bytes[..19]), Err(Error::TruncatedInput));
    assert_eq!(parse_header(&bytes[1..]), Err(Error::MalformedHeader));
    assert_eq!(parse_header(b"VS"), Err(Error::MalformedHeader));
}

#[test]
fn basic_records() {
    let bytes = segment(3);
    let (rest, parsed) = parse_segment_header(&bytes).unwrap();
    assert!(rest.is_empty());
    assert_eq!(
        parsed,
        SegmentHeader {
            typ: 0,
            flags: PermissionFlags::all(),
            align: 0,
            file: 3,
            mem: 0,
            file_size: 0,
            mem_size: 0,
        }
    );
    assert_eq!(
        parse_segment_header(&segment(3)[..23]),
        Err(Error::TruncatedInput)
    );
    // any type byte is taken
    let bytes = section(0xee);
    let (rest, parsed) = parse_section_header(&bytes).unwrap();
    assert!(rest.is_empty());
    assert_eq!(
        parsed,
        basic::SectionHeader {
            typ: 0xee,
            flags: PermissionFlags::R(),
            file_size: 5,
            offset: 0,
            memory: 0,
        }
    );
    assert_eq!(
        parse_section_header(&section(0)[..15]),
        Err(Error::TruncatedInput)
    );
}

#[test]
fn basic_file() {
    let mut bytes = file(2, 1);
    bytes.extend_from_slice(&segment(1));
    bytes.extend_from_slice(&segment(2));
    bytes.extend_from_slice(&section(7));
    bytes.extend_from_slice(b"data");
    let (rest, parsed) = parse_file(&bytes).unwrap();
    assert_eq!(rest, b"data");
    assert_eq!(parsed.data, b"data");
    assert_eq!(parsed.header.num_segments, 2);
    assert_eq!(parsed.segments.len(), 2);
    assert_eq!(parsed.segments[1].file, 2);
    assert_eq!(parsed.sections.len(), 1);
    assert_eq!(parsed.sections[0].typ, 7);
}

#[test]
fn basic_file_that_ends_early_holds_fewer_records() {
    // three segments announced, room for one and a half
    let mut bytes = file(3, 2);
    bytes.extend_from_slice(&segment(1));
    bytes.extend_from_slice(&[0x01; 20]);
    let (rest, parsed) = parse_file(&bytes).unwrap();
    assert_eq!(parsed.segments.len(), 1);
    // the twenty bytes left are no segment, but one section
    assert_eq!(parsed.sections.len(), 1);
    assert_eq!(parsed.sections[0].typ, 1);
    assert_eq!(rest, [0x01; 4]);
    let bytes = file(3, 2);
    let (rest, parsed) = parse_file(&bytes).unwrap();
    assert!(parsed.segments.is_empty());
    assert!(parsed.sections.is_empty());
    assert!(rest.is_empty());
    assert!(matches!(parse_file(b"VSBF"), Err(Error::TruncatedInput)));
    assert!(matches!(parse_file(b"ELF"), Err(Error::MalformedHeader)));
}
