use pbo::error::PboError;
use pbo::source::Source;
use pbo::PBOHeader;

fn record(name: &[u8], fields: [u32; 5]) -> Vec<u8> {
    let mut out = name.to_vec();
    out.push(0);
    for f in fields.iter() {
        out.extend_from_slice(&f.to_le_bytes());
    }
    out
}

#[test]
fn read() {
    let mut src = Source::new(
        String::from(
            "images\\mission.jpg\0\0\0\0\0\0\0\0\0\0\0\0\0\u{FFFD}\u{FFFD}*\\*W\u{8}\0i",
        )
        .into_bytes(),
    );
    let (header, _) = PBOHeader::read(&mut src).unwrap();
    assert_eq!(header.filename, "images\\mission.jpg");
    assert_eq!(header.size, 1_546_304_959);
    assert_eq!(header.timestamp, 4_022_190_063);
}

#[test]
fn read_normalizes_forward_slashes() {
    let bytes = record(b"data/cfg.sqf", [0, 3, 0, 7, 3]);
    let mut src = Source::new(bytes);
    let (header, used) = PBOHeader::read(&mut src).unwrap();
    assert_eq!(header.filename, "data\\cfg.sqf");
    assert_eq!(used, 12 + 1 + 20);
    assert_eq!(header.original, 3);
    assert_eq!(header.timestamp, 7);
    assert_eq!(src.position(), 33);
}

#[test]
fn read_consumed_count_and_fields() {
    let bytes = record(b"a.txt", [0x5665_7273, 1, 2, 3, 0x0102_0304]);
    let (h, used) = PBOHeader::read(&mut Source::new(bytes)).unwrap();
    assert_eq!(used, 26);
    assert_eq!(h.method, 0x5665_7273);
    assert_eq!(h.original, 1);
    assert_eq!(h.reserved, 2);
    assert_eq!(h.timestamp, 3);
    assert_eq!(h.size, 0x0102_0304);
}

#[test]
fn read_truncated_fields_is_malformed() {
    let mut bytes = record(b"a.txt", [0, 0, 0, 0, 9]);
    bytes.truncate(bytes.len() - 1);
    assert_eq!(PBOHeader::read(&mut Source::new(bytes)).unwrap_err(), PboError::MalformedHeader);
}

#[test]
fn read_unterminated_name_is_malformed() {
    let bytes = b"abc".to_vec();
    assert_eq!(PBOHeader::read(&mut Source::new(bytes)).unwrap_err(), PboError::MalformedHeader);
}

#[test]
fn read_invalid_utf8_name_is_malformed() {
    let bytes = record(&[0xff, 0xfe], [0, 0, 0, 0, 0]);
    assert_eq!(PBOHeader::read(&mut Source::new(bytes)).unwrap_err(), PboError::MalformedHeader);
}

#[test]
fn read_at_end_is_missing_sentinel() {
    assert_eq!(
        PBOHeader::read(&mut Source::new(Vec::new())).unwrap_err(),
        PboError::MissingSentinel
    );
}

#[test]
fn write_layout() {
    let h = PBOHeader {
        filename: String::from("x/y"),
        method: 1,
        original: 2,
        reserved: 3,
        timestamp: 4,
        size: 0x0a0b_0c0d,
    };
    let mut out = vec![9u8];
    h.write(&mut out);
    let mut expected = vec![9u8];
    expected.extend_from_slice(&record(b"x/y", [1, 2, 3, 4, 0x0a0b_0c0d]));
    assert_eq!(out, expected);
}
