use rgssad::layout::{
    get_u32, magic_bytes, parse_entry, parse_header, parse_header3, parse_record, put_entry,
    put_header, put_header3, put_record, put_sentinel, put_u32, starts_with_magic, Parsed,
    DEFAULT_KEY, HEADER_LEN, HEADER_LEN3, MAGIC_LEN, MAX_FILE_NAME_LEN, U32_LEN, VERSION, VERSION3,
};
use rgssad::sans_io::Error;

#[test]
fn constants_of_the_formats() {
    assert_eq!(MAGIC_LEN, 7);
    assert_eq!(HEADER_LEN, 8);
    assert_eq!(HEADER_LEN3, 12);
    assert_eq!(U32_LEN, 4);
    assert_eq!(VERSION, 1);
    assert_eq!(VERSION3, 3);
    assert_eq!(DEFAULT_KEY, 0xDEADCAFE);
    assert_eq!(MAX_FILE_NAME_LEN, 4096);
    assert_eq!(&magic_bytes(), b"RGSSAD\0");
}

#[test]
fn magic_is_told_from_other_bytes() {
    assert!(starts_with_magic(b"RGSSAD\0"));
    assert!(starts_with_magic(b"RGSSAD\0\x01 and more"));
    assert!(!starts_with_magic(b"RGSSAD\x01\x01"));
    assert!(!starts_with_magic(b"rGSSAD\0"));
}

#[test]
fn u32_is_little_endian() {
    let mut bytes = [0u8; 4];
    put_u32(&mut bytes, 0x12345678);
    assert_eq!(bytes, [0x78, 0x56, 0x34, 0x12]);
    assert_eq!(get_u32(&[0xAA, 0x78, 0x56, 0x34, 0x12, 0xBB], 1), 0x12345678);
    for value in [0u32, 1, 0xFF, 0x100, 0xFFFF_FFFF, 0x8000_0001, 0xDEADCAFE] {
        let mut bytes = [0u8; 4];
        put_u32(&mut bytes, value);
        assert_eq!(bytes, value.to_le_bytes());
        assert_eq!(get_u32(&bytes, 0), value);
    }
}

#[test]
fn headers_are_magic_version_and_seed() {
    let mut bytes = [0u8; 8];
    put_header(&mut bytes, 1);
    assert_eq!(&bytes, b"RGSSAD\0\x01");
    let mut bytes = [0u8; 12];
    put_header3(&mut bytes, 0x694E);
    assert_eq!(&bytes, b"RGSSAD\0\x03\xb3\x0b\x00\x00");
}

#[test]
fn parse_header_tells_what_is_missing_and_what_is_wrong() {
    assert!(matches!(parse_header(1, b""), Parsed::Short(8)));
    assert!(matches!(parse_header(1, b"RGSSAD\0"), Parsed::Short(1)));
    assert!(matches!(parse_header(1, b"RGSSAD\0\x01"), Parsed::Found((), 8)));
    assert!(matches!(parse_header(1, b"RGSSAD\0\x01more"), Parsed::Found((), 8)));
    assert!(matches!(
        parse_header(1, b"RGSSAD\0\x02"),
        Parsed::Bad(Error::InvalidVersion { version: 2 })
    ));
    match parse_header(1, b"NOTMAGIC") {
        Parsed::Bad(Error::InvalidMagic { magic }) => assert_eq!(&magic, b"NOTMAGI"),
        other => panic!("unexpected {other:?}"),
    }
    // The magic number is looked at before the version.
    assert!(matches!(parse_header(1, b"NOTMAGI\x09"), Parsed::Bad(Error::InvalidMagic { .. })));
}

#[test]
fn parse_header3_derives_the_key() {
    assert!(matches!(parse_header3(b"RGSSAD\0\x03"), Parsed::Short(4)));
    assert!(matches!(parse_header3(b"RGSSAD\0\x03\xb3\x0b\x00\x00"), Parsed::Found(0x694E, 12)));
    assert!(matches!(parse_header3(b"RGSSAD\0\x03\x00\x00\x00\x00"), Parsed::Found(3, 12)));
    assert!(matches!(
        parse_header3(b"RGSSAD\0\x01\xb3\x0b\x00\x00"),
        Parsed::Bad(Error::InvalidVersion { version: 1 })
    ));
}

#[test]
fn entry_is_written_and_parsed() {
    let mut key = DEFAULT_KEY;
    let mut bytes = [0u8; 13];
    put_entry(&mut key, "a.txt", 3, &mut bytes);
    assert_eq!(
        bytes,
        [0xfb, 0xca, 0xad, 0xde, 0x94, 0x98, 0x89, 0x96, 0xf1, 0xa5, 0x49, 0x66, 0xbb]
    );
    assert_eq!(key, 0x1FCC038D);
    match parse_entry(DEFAULT_KEY, &bytes) {
        Parsed::Found((header, next), 13) => {
            assert_eq!(header.name, "a.txt");
            assert_eq!(header.size, 3);
            assert_eq!(next, 0x1FCC038D);
        }
        other => panic!("unexpected {other:?}"),
    }
    for cut in 0..4 {
        assert!(matches!(parse_entry(DEFAULT_KEY, &bytes[..cut]), Parsed::Short(n) if n == 4 - cut));
    }
    for cut in 4..13 {
        assert!(matches!(parse_entry(DEFAULT_KEY, &bytes[..cut]), Parsed::Short(n) if n == 13 - cut));
    }
    // With another key the length of the name is nonsense.
    assert!(matches!(
        parse_entry(0, &bytes),
        Parsed::Bad(Error::FileNameTooLongU32 { len: 0xDEADCAFB })
    ));
}

#[test]
fn record_is_written_and_parsed() {
    let mut bytes = [0u8; 21];
    put_record(0x694E, 72, 3, 0x11223344, "a.txt", &mut bytes);
    assert_eq!(
        bytes,
        [
            0x06, 0x69, 0x00, 0x00, 0x4d, 0x69, 0x00, 0x00, 0x0a, 0x5a, 0x22, 0x11, 0x4b, 0x69,
            0x00, 0x00, 0x2f, 0x47, 0x74, 0x78, 0x3a
        ]
    );
    match parse_record(0x694E, &bytes) {
        Parsed::Found(Some(header), 21) => {
            assert_eq!(header.name, "a.txt");
            assert_eq!((header.offset, header.size, header.key), (72, 3, 0x11223344));
        }
        other => panic!("unexpected {other:?}"),
    }
    assert!(matches!(parse_record(0x694E, &bytes[..15]), Parsed::Short(1)));
    assert!(matches!(parse_record(0x694E, &bytes[..16]), Parsed::Short(5)));
    assert!(matches!(parse_record(0x694E, &bytes[..20]), Parsed::Short(1)));
}

#[test]
fn sentinel_ends_the_table() {
    let mut bytes = [0u8; 16];
    put_sentinel(0x694E, &mut bytes);
    assert_eq!(bytes, [0x4e, 0x69, 0, 0, 0x4e, 0x69, 0, 0, 0x4e, 0x69, 0, 0, 0x4e, 0x69, 0, 0]);
    assert!(matches!(parse_record(0x694E, &bytes), Parsed::Found(None, 16)));
    // Only the offset makes a record the last one.
    let mut record = [0u8; 16];
    record[..4].copy_from_slice(&0x694Eu32.to_le_bytes());
    record[12..].copy_from_slice(&(5000u32 ^ 0x694E).to_le_bytes());
    assert!(matches!(parse_record(0x694E, &record), Parsed::Found(None, 16)));
}
