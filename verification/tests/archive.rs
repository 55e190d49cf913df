use cpio_concat::codec::{
    content_padding, encode_sentinel, is_sentinel, name_padding, parse_hex_field,
    sentinel_name_region, CpioError, Header, HEADER_SIZE,
};
use cpio_concat::transcode::{concat_archives, missing_indices, transcode_archive};

/// One 8-digit lowercase hexadecimal field.
fn hex_field(v: u32) -> Vec<u8> {
    format!("{:08x}", v).into_bytes()
}

/// A 110-byte newc header with the given magic, filesize and namesize, and
/// zeros in every other field.
fn header_bytes(magic: &str, filesize: u32, namesize: u32) -> Vec<u8> {
    let mut h = Vec::new();
    h.extend(magic.as_bytes());
    for field in 0..13 {
        let v = match field {
            6 => filesize,
            11 => namesize,
            _ => 0,
        };
        h.extend(hex_field(v));
    }
    assert_eq!(h.len(), HEADER_SIZE);
    h
}

/// A complete real entry: header, padded name region, padded content region.
/// `name` must include its terminating NUL.
fn entry(name: &[u8], content: &[u8]) -> Vec<u8> {
    let mut e = header_bytes("070701", content.len() as u32, name.len() as u32);
    e.extend(name);
    let name_pad = (4 - (110 + name.len()) % 4) % 4;
    e.extend(std::iter::repeat(0u8).take(name_pad));
    e.extend(content);
    let content_pad = (4 - content.len() % 4) % 4;
    e.extend(std::iter::repeat(0u8).take(content_pad));
    e
}

/// The sentinel entry as an input archive carries it: a header with
/// namesize 11, then "TRAILER!!!", a NUL, and 3 alignment NULs.
fn input_sentinel() -> Vec<u8> {
    let mut e = header_bytes("070701", 0, 11);
    e.extend(b"TRAILER!!!\0\0\0\0");
    e
}

/// A whole single-entry archive.
fn one_entry_archive(name: &[u8], content: &[u8]) -> Vec<u8> {
    let mut a = entry(name, content);
    a.extend(input_sentinel());
    a
}

#[test]
fn name_padding_examples() {
    assert_eq!(name_padding(0), 2);
    assert_eq!(name_padding(1), 1);
    assert_eq!(name_padding(2), 0);
    assert_eq!(name_padding(6), 0);
    assert_eq!(name_padding(7), 3);
    assert_eq!(name_padding(11), 3);
}

#[test]
fn content_padding_examples() {
    assert_eq!(content_padding(0), 0);
    assert_eq!(content_padding(1), 3);
    assert_eq!(content_padding(4), 0);
    assert_eq!(content_padding(5), 3);
    assert_eq!(content_padding(1023), 1);
}

#[test]
fn padding_law_range() {
    for n in 0..=10000u32 {
        let p = name_padding(n);
        assert!(p < 4);
        assert_eq!((110 + n + p) % 4, 0);
        for c in 0..p {
            assert_ne!((110 + n + c) % 4, 0);
        }
        let q = content_padding(n);
        assert!(q < 4);
        assert_eq!((n + q) % 4, 0);
        for c in 0..q {
            assert_ne!((n + c) % 4, 0);
        }
    }
}

#[test]
fn sentinel_detection_exact() {
    assert!(is_sentinel(11, b"TRAILER!!!\0\0\0\0"));
    assert!(is_sentinel(11, b"TRAILER!!!\0"));
}

#[test]
fn sentinel_detection_wrong_bytes() {
    assert!(!is_sentinel(11, b"TRAILER!!X\0\0\0\0"));
    assert!(!is_sentinel(11, b"TRAILER!!!X\0\0\0"));
    assert!(!is_sentinel(11, b"trailer!!!\0\0\0\0"));
}

#[test]
fn sentinel_detection_wrong_size() {
    assert!(!is_sentinel(10, b"TRAILER!!!\0\0\0\0"));
    assert!(!is_sentinel(12, b"TRAILER!!!\0\0\0\0"));
    assert!(!is_sentinel(11, b"TRAILER!!!"));
}

#[test]
fn decode_accepts_both_magics() {
    for magic in ["070701", "070702"] {
        let raw = header_bytes(magic, 0, 0);
        let h = Header::decode(&raw).unwrap();
        assert_eq!(h.bytes, raw);
    }
}

#[test]
fn decode_rejects_bad_magic() {
    let raw = header_bytes("070703", 0, 0);
    assert_eq!(Header::decode(&raw).unwrap_err(), CpioError::Framing);
    let raw = header_bytes("07070 ", 0, 0);
    assert_eq!(Header::decode(&raw).unwrap_err(), CpioError::Framing);
}

#[test]
fn header_fields_parse() {
    let raw = header_bytes("070701", 123456, 77);
    let h = Header::decode(&raw).unwrap();
    assert_eq!(h.filesize().unwrap(), 123456);
    assert_eq!(h.namesize().unwrap(), 77);
}

#[test]
fn header_field_bad_hex() {
    let mut raw = header_bytes("070701", 0, 0);
    raw[95] = b'z';
    let h = Header::decode(&raw).unwrap();
    assert_eq!(h.namesize().unwrap_err(), CpioError::BadHex);
}

#[test]
fn parse_hex_field_values() {
    assert_eq!(parse_hex_field(b"0001e240", 0).unwrap(), 123456);
    assert_eq!(parse_hex_field(b"00FF00AA", 0).unwrap(), 0x00ff00aa);
    assert_eq!(parse_hex_field(b"ffffffff", 0).unwrap(), u32::MAX);
    assert_eq!(parse_hex_field(b"xx0001e240", 2).unwrap(), 123456);
    assert_eq!(parse_hex_field(b"0001g240", 0).unwrap_err(), CpioError::BadHex);
}

#[test]
fn encode_sentinel_layout() {
    let mut expected = b"070701".to_vec();
    expected.extend(std::iter::repeat(b'0').take(88));
    expected.extend(b"0000000b");
    expected.extend(b"00000000");
    assert_eq!(encode_sentinel(false), expected);

    let mut expected_crc = b"070702".to_vec();
    expected_crc.extend(std::iter::repeat(b'0').take(88));
    expected_crc.extend(b"0000000b");
    expected_crc.extend(b"00000000");
    assert_eq!(encode_sentinel(true), expected_crc);
}

#[test]
fn sentinel_name_region_bytes() {
    assert_eq!(sentinel_name_region(), b"TRAILER!!!\0\0\0\0\0\0");
}

#[test]
fn transcode_single_roundtrip() {
    let e1 = entry(b"alpha\0", b"hello world?");
    let e2 = entry(b"beta.bin\0", &[1, 2, 3, 4, 5]);
    let mut archive = Vec::new();
    archive.extend(&e1);
    archive.extend(&e2);
    archive.extend(input_sentinel());

    let mut out = Vec::new();
    transcode_archive(&archive, &mut out).unwrap();
    let mut expected = e1.clone();
    expected.extend(&e2);
    assert_eq!(out, expected);
}

#[test]
fn transcode_empty_archive_yields_nothing() {
    let mut out = vec![9u8];
    transcode_archive(&input_sentinel(), &mut out).unwrap();
    assert_eq!(out, vec![9u8]);
}

#[test]
fn transcode_ignores_bytes_after_sentinel() {
    let e1 = entry(b"a\0", b"x");
    let mut archive = e1.clone();
    archive.extend(input_sentinel());
    archive.extend(b"garbage after the end");
    let mut out = Vec::new();
    transcode_archive(&archive, &mut out).unwrap();
    assert_eq!(out, e1);
}

#[test]
fn transcode_sentinel_with_bad_filesize_field() {
    // The filesize field is only parsed for real entries; a sentinel with a
    // malformed one still terminates the archive.
    let mut archive = header_bytes("070701", 0, 11);
    for i in 54..62 {
        archive[i] = b'z';
    }
    archive.extend(b"TRAILER!!!\0\0\0\0");
    let mut out = Vec::new();
    transcode_archive(&archive, &mut out).unwrap();
    assert!(out.is_empty());
}

#[test]
fn transcode_empty_input_is_truncated() {
    let mut out = Vec::new();
    assert_eq!(transcode_archive(&[], &mut out).unwrap_err(), CpioError::Truncated);
    assert!(out.is_empty());
}

#[test]
fn transcode_short_header_is_truncated() {
    let mut out = Vec::new();
    let half = vec![b'0'; 50];
    assert_eq!(transcode_archive(&half, &mut out).unwrap_err(), CpioError::Truncated);
}

#[test]
fn transcode_bad_magic_is_framing_error() {
    let archive = header_bytes("071701", 0, 11);
    let mut out = Vec::new();
    assert_eq!(transcode_archive(&archive, &mut out).unwrap_err(), CpioError::Framing);
}

#[test]
fn transcode_bad_namesize_hex() {
    let mut archive = header_bytes("070701", 0, 0);
    archive[94] = b'-';
    archive.extend(b"TRAILER!!!\0\0\0\0");
    let mut out = Vec::new();
    assert_eq!(transcode_archive(&archive, &mut out).unwrap_err(), CpioError::BadHex);
}

#[test]
fn transcode_truncated_name_region() {
    let mut archive = header_bytes("070701", 0, 11);
    archive.extend(b"TRAIL");
    let mut out = Vec::new();
    assert_eq!(transcode_archive(&archive, &mut out).unwrap_err(), CpioError::Truncated);
}

#[test]
fn transcode_truncated_content_region() {
    let full = entry(b"name\0", b"0123456789");
    let archive = full[..full.len() - 4].to_vec();
    let mut out = Vec::new();
    assert_eq!(transcode_archive(&archive, &mut out).unwrap_err(), CpioError::Truncated);
}

#[test]
fn transcode_missing_sentinel_is_truncated() {
    // A well-formed entry followed by end of stream: the walk hits an empty
    // rest where a header (at least a sentinel) was owed.
    let archive = entry(b"solo\0", b"data");
    let mut out = Vec::new();
    assert_eq!(transcode_archive(&archive, &mut out).unwrap_err(), CpioError::Truncated);
    assert!(out.is_empty());
}

#[test]
fn entry_with_namesize_eleven_is_not_terminal() {
    // namesize == 11 but different name bytes: a real entry, passed through.
    let e1 = entry(b"NOTRAILER!\0", b"abc");
    let mut archive = e1.clone();
    archive.extend(input_sentinel());
    let mut out = Vec::new();
    transcode_archive(&archive, &mut out).unwrap();
    assert_eq!(out, e1);
}

#[test]
fn concat_two_inputs_scenario() {
    // Two inputs, one "hi.txt" entry of 4 content bytes each.
    let name = b"hi.txt\0";
    let a = one_entry_archive(name, b"abcd");
    let b = one_entry_archive(name, b"efgh");
    let out = concat_archives(&vec![a, b]).unwrap();

    let e1 = entry(name, b"abcd");
    let e2 = entry(name, b"efgh");
    // name region: 7 name bytes + 3 padding; content region: 4 bytes, no padding
    assert_eq!(e1.len(), 110 + 10 + 4);
    assert_eq!(out.len(), 2 * (110 + 10 + 4) + 110 + 16);

    let mut expected = e1;
    expected.extend(e2);
    expected.extend(encode_sentinel(false));
    expected.extend(b"TRAILER!!!\0\0\0\0\0\0");
    assert_eq!(out, expected);
}

#[test]
fn concat_keeps_input_order() {
    let a1 = entry(b"a1\0", b"one");
    let a2 = entry(b"a2\0", b"two!");
    let b1 = entry(b"b1\0", b"three");
    let mut a = Vec::new();
    a.extend(&a1);
    a.extend(&a2);
    a.extend(input_sentinel());
    let mut b = b1.clone();
    b.extend(input_sentinel());

    let out = concat_archives(&vec![a, b]).unwrap();
    let mut expected_entries = a1;
    expected_entries.extend(a2);
    expected_entries.extend(b1);
    assert_eq!(&out[..out.len() - 126], &expected_entries[..]);
}

#[test]
fn concat_output_has_single_sentinel_at_end() {
    let a = one_entry_archive(b"first\0", b"AAAA");
    let b = one_entry_archive(b"second\0", b"BB");
    let c = one_entry_archive(b"third\0", b"");
    let out = concat_archives(&vec![a.clone(), b.clone(), c.clone()]).unwrap();

    // The tail is the one synthesized sentinel.
    let mut tail = encode_sentinel(false);
    tail.extend(b"TRAILER!!!\0\0\0\0\0\0");
    assert_eq!(&out[out.len() - 126..], &tail[..]);

    // Re-transcoding the combined output finds exactly the surviving entries
    // and stops at that one sentinel.
    let mut reparsed = Vec::new();
    transcode_archive(&out, &mut reparsed).unwrap();
    assert_eq!(&reparsed[..], &out[..out.len() - 126]);

    // No sentinel name appears anywhere before the tail.
    let body = &out[..out.len() - 126];
    assert!(!body.windows(10).any(|w| w == b"TRAILER!!!"));
}

#[test]
fn concat_no_inputs_is_bare_sentinel() {
    let out = concat_archives(&vec![]).unwrap();
    let mut expected = encode_sentinel(false);
    expected.extend(b"TRAILER!!!\0\0\0\0\0\0");
    assert_eq!(out, expected);
}

#[test]
fn concat_stops_at_first_error() {
    let good = one_entry_archive(b"ok\0", b"fine");
    let bad_magic = header_bytes("990701", 0, 11);
    let out = concat_archives(&vec![good.clone(), bad_magic.clone(), vec![]]);
    assert_eq!(out.unwrap_err(), CpioError::Framing);
    let out = concat_archives(&vec![vec![], bad_magic, good]);
    assert_eq!(out.unwrap_err(), CpioError::Truncated);
}

#[test]
fn missing_indices_reports_all() {
    assert_eq!(missing_indices(&vec![false, true, false]), vec![0, 2]);
    assert_eq!(missing_indices(&vec![true, true, true]), Vec::<usize>::new());
    assert_eq!(missing_indices(&vec![]), Vec::<usize>::new());
    assert_eq!(missing_indices(&vec![false]), vec![0]);
}
