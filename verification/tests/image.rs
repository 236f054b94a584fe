use vsbf::{Error, Sym, Vsbf};

#[test]
fn test_strtab() {
    let mut vsbf = Vsbf::empty();
    vsbf.push_string("hello").unwrap();
    vsbf.push_string("").unwrap();
    vsbf.push_string("hi").unwrap();

    let mut iter = vsbf.strings();

    assert_eq!(iter.next().unwrap(), (0, "hello"));
    assert_eq!(iter.next().unwrap(), (7, ""));
    assert_eq!(iter.next().unwrap(), (9, "hi"));
    assert!(iter.next().is_none());

    assert_eq!(vsbf.string_at(0), "hello");
    assert_eq!(vsbf.string_at(7), "");
    assert_eq!(vsbf.string_at(9), "hi");
}

#[test]
fn test_parse_write() {
    // Empty file
    let mut buf = vec![];
    let vsbf = Vsbf::empty();
    vsbf.write(&mut buf);
    assert_eq!(Vsbf::parse(&buf).unwrap().1, vsbf);

    // File with a string and a symbol
    let mut buf = vec![];
    let mut vsbf = Vsbf::empty();
    vsbf.push_string("hello").unwrap();
    vsbf.push_sym(Sym {
        name: 0,
        size: 10,
        section: 0,
        value: 20,
    });
    vsbf.write(&mut buf);
    assert_eq!(Vsbf::parse(&buf).unwrap().1, vsbf);
}

#[test]
fn push_string_gives_offsets() {
    let mut vsbf = Vsbf::empty();
    assert_eq!(vsbf.push_string("hello"), Ok(0));
    assert_eq!(vsbf.push_string("Hi"), Ok(7));
    assert_eq!(vsbf.strtab(), b"\x05\x00hello\x02\x00Hi");
}

#[test]
fn push_string_rejects_what_cannot_be_stored() {
    let mut vsbf = Vsbf::empty();
    let long = "a".repeat(65536);
    assert_eq!(vsbf.push_string(&long), Err(Error::OversizedString));
    assert_eq!(vsbf.push_string("h\u{e9}"), Err(Error::OversizedString));
    assert!(vsbf.strtab().is_empty());
    let longest = "a".repeat(65535);
    assert_eq!(vsbf.push_string(&longest), Ok(0));
    assert_eq!(vsbf.strtab().len(), 65537);
}
