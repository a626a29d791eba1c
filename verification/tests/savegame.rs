use gssavegame::{
    build_payload, collect_entries_from_dir, fits_format, decode, encode, encode_dir, pad4_next, pad4_up,
    parse_payload, DecodeError, EncodeError, EntryField, SaveEntry,
};
use std::io::{Read, Write};

fn entry(name: &str, data: &[u8]) -> SaveEntry {
    SaveEntry { name: name.to_string(), data: data.to_vec() }
}

fn zlib(bytes: &[u8]) -> Vec<u8> {
    let mut e = flate2::write::ZlibEncoder::new(Vec::new(), flate2::Compression::new(9));
    e.write_all(bytes).unwrap();
    e.finish().unwrap()
}

fn archive_of(payload: &[u8]) -> Vec<u8> {
    let mut out = b"GSSG".to_vec();
    out.extend_from_slice(&(payload.len() as u32).to_le_bytes());
    out.extend_from_slice(&zlib(payload));
    out
}

#[test]
fn roundtrip_single_file() {
    let entries = vec![SaveEntry {
        name: "test.xml".into(),
        data: b"<root>hello</root>".to_vec(),
    }];
    let blob = encode(&entries).unwrap();
    assert_eq!(&blob[0..4], b"GSSG");
    let archive = decode(&blob).unwrap();
    assert_eq!(archive.entries.len(), 1);
    assert_eq!(archive.entries[0].name, "test.xml");
    assert_eq!(archive.entries[0].data, b"<root>hello</root>");
}

#[test]
fn roundtrip_multiple_files() {
    let entries = vec![
        SaveEntry {
            name: "a.txt".into(),
            data: b"aaa".to_vec(),
        },
        SaveEntry {
            name: "subdir/b.bin".into(),
            data: vec![0u8; 1024],
        },
        SaveEntry {
            name: "c.xml".into(),
            data: b"<c/>".to_vec(),
        },
    ];
    let blob = encode(&entries).unwrap();
    let archive = decode(&blob).unwrap();
    assert_eq!(archive.entries.len(), 3);
    for (orig, decoded) in entries.iter().zip(archive.entries.iter()) {
        assert_eq!(orig.name, decoded.name);
        assert_eq!(orig.data, decoded.data);
    }
}

#[test]
fn roundtrip_empty_data() {
    let entries = vec![SaveEntry {
        name: "empty.txt".into(),
        data: vec![],
    }];
    let blob = encode(&entries).unwrap();
    let archive = decode(&blob).unwrap();
    assert_eq!(archive.entries[0].data.len(), 0);
}

#[test]
fn pad4_next_values() {
    assert_eq!(pad4_next(0), 4);
    assert_eq!(pad4_next(1), 4);
    assert_eq!(pad4_next(3), 4);
    assert_eq!(pad4_next(4), 8);
    assert_eq!(pad4_next(5), 8);
    assert_eq!(pad4_next(7), 8);
    assert_eq!(pad4_next(8), 12);
}

#[test]
fn pad4_up_values() {
    assert_eq!(pad4_up(0), 0);
    assert_eq!(pad4_up(1), 4);
    assert_eq!(pad4_up(3), 4);
    assert_eq!(pad4_up(4), 4);
    assert_eq!(pad4_up(5), 8);
    assert_eq!(pad4_up(8), 8);
}

#[test]
fn pad4_largest_inputs() {
    assert_eq!(pad4_next(0xffff_fffb), 0xffff_fffc);
    assert_eq!(pad4_up(0xffff_fffc), 0xffff_fffc);
    assert_eq!(pad4_up(0xffff_fff9), 0xffff_fffc);
}

#[test]
fn payload_layout_is_exact() {
    let p = build_payload(&[entry("ab", b"xyz")]);
    let expected: Vec<u8> = vec![
        1, 0, 0, 0, // one entry
        2, 0, 0, 0, b'a', b'b', 0, 0, // name, padded to the next boundary
        3, 0, 0, 0, b'x', b'y', b'z', 0, // data, padded up
    ];
    assert_eq!(p, expected);
}

#[test]
fn payload_aligned_name_gets_full_pad() {
    let p = build_payload(&[entry("abcd", b"1234")]);
    let expected: Vec<u8> = vec![
        1, 0, 0, 0, 4, 0, 0, 0, b'a', b'b', b'c', b'd', 0, 0, 0, 0, 4, 0, 0, 0, b'1', b'2', b'3',
        b'4',
    ];
    assert_eq!(p, expected);
}

#[test]
fn payload_length_is_word_multiple() {
    let p = build_payload(&[entry("a", b""), entry("bcdef", b"12345"), entry("é", b"z")]);
    assert_eq!(p.len() % 4, 0);
}

#[test]
fn empty_payload_is_just_a_count() {
    assert_eq!(build_payload(&[]), vec![0, 0, 0, 0]);
}

#[test]
fn encode_header_and_stream() {
    let entries = vec![entry("f.xml", b"<x/>")];
    let blob = encode(&entries).unwrap();
    let payload = build_payload(&entries);
    assert_eq!(&blob[0..4], b"GSSG");
    assert_eq!(&blob[4..8], &(payload.len() as u32).to_le_bytes());
    assert_ne!(&blob[8..], &payload[..]);
    let mut inflated = Vec::new();
    flate2::read::ZlibDecoder::new(&blob[8..]).read_to_end(&mut inflated).unwrap();
    assert_eq!(inflated, payload);
}

#[test]
fn decode_reads_foreign_archive() {
    let blob = archive_of(&build_payload(&[entry("a/b.txt", b"hello")]));
    let archive = decode(&blob).unwrap();
    assert_eq!(&archive.magic, b"GSSG");
    assert_eq!(archive.entries.len(), 1);
    assert_eq!(archive.entries[0].name, "a/b.txt");
    assert_eq!(archive.entries[0].data, b"hello");
}

#[test]
fn decode_keeps_marker_unchecked() {
    let mut blob = archive_of(&build_payload(&[entry("x", b"1")]));
    blob[0] = b'Z';
    let archive = decode(&blob).unwrap();
    assert_eq!(&archive.magic, b"ZSSG");
}

#[test]
fn decode_too_small() {
    assert!(matches!(decode(&[]), Err(DecodeError::TooSmall)));
    assert!(matches!(decode(b"GSSG\0\0\0"), Err(DecodeError::TooSmall)));
}

#[test]
fn decode_bad_stream() {
    let blob = b"GSSG\x04\0\0\0not zlib at all".to_vec();
    assert!(matches!(decode(&blob), Err(DecodeError::Decompress(_))));
}

#[test]
fn decode_payload_too_small() {
    let blob = archive_of(&[1, 0, 0]);
    assert!(matches!(decode(&blob), Err(DecodeError::PayloadTooSmall)));
}

#[test]
fn decode_truncated_entry() {
    let blob = archive_of(&[2, 0, 0, 0, 1, 0, 0, 0, b'a', 0, 0, 0, 0, 0, 0, 0]);
    assert!(matches!(
        decode(&blob),
        Err(DecodeError::Truncated { entry: 1, field: EntryField::NameLength })
    ));
}

#[test]
fn parse_payload_fields_that_end_early() {
    assert!(matches!(parse_payload(&[]), Err(DecodeError::PayloadTooSmall)));
    assert!(matches!(
        parse_payload(&[1, 0, 0, 0, 9, 0]),
        Err(DecodeError::Truncated { entry: 0, field: EntryField::NameLength })
    ));
    // name of four bytes needs eight bytes with its padding
    assert!(matches!(
        parse_payload(&[1, 0, 0, 0, 4, 0, 0, 0, b'a', b'b', b'c', b'd']),
        Err(DecodeError::Truncated { entry: 0, field: EntryField::Name })
    ));
    assert!(matches!(
        parse_payload(&[1, 0, 0, 0, 1, 0, 0, 0, b'a', 0, 0, 0, 5]),
        Err(DecodeError::Truncated { entry: 0, field: EntryField::DataLength })
    ));
    assert!(matches!(
        parse_payload(&[1, 0, 0, 0, 1, 0, 0, 0, b'a', 0, 0, 0, 2, 0, 0, 0, b'x', b'y']),
        Err(DecodeError::Truncated { entry: 0, field: EntryField::Data })
    ));
}

#[test]
fn parse_payload_huge_name_length_is_an_error() {
    assert!(matches!(
        parse_payload(&[1, 0, 0, 0, 0xff, 0xff, 0xff, 0xff, 0, 0, 0, 0]),
        Err(DecodeError::Truncated { entry: 0, field: EntryField::Name })
    ));
}

#[test]
fn parse_payload_ignores_trailing_bytes() {
    let mut p = build_payload(&[entry("n", b"d")]);
    p.extend_from_slice(&[9, 9, 9, 9, 9]);
    let es = parse_payload(&p).unwrap();
    assert_eq!(es.len(), 1);
    assert_eq!(es[0].name, "n");
    assert_eq!(es[0].data, b"d");
}

#[test]
fn parse_payload_trims_trailing_nuls_from_names() {
    let p = [1, 0, 0, 0, 3, 0, 0, 0, b'a', 0, 0, 0, 0, 0, 0, 0];
    let es = parse_payload(&p).unwrap();
    assert_eq!(es[0].name, "a");
    assert_eq!(es[0].data.len(), 0);
}

#[test]
fn parse_payload_replaces_invalid_utf8() {
    let p = [1, 0, 0, 0, 2, 0, 0, 0, b'a', 0xff, 0, 0, 0, 0, 0, 0];
    let es = parse_payload(&p).unwrap();
    assert_eq!(es[0].name, "a\u{FFFD}");
}

#[test]
fn roundtrip_unicode_names() {
    let entries = vec![entry("dir/ação.xml", b"\x00\x01\x02"), entry("日本", b"")];
    let archive = decode(&encode(&entries).unwrap()).unwrap();
    assert_eq!(archive.entries[0].name, "dir/ação.xml");
    assert_eq!(archive.entries[0].data, b"\x00\x01\x02");
    assert_eq!(archive.entries[1].name, "日本");
}

#[test]
fn roundtrip_loses_trailing_nul_in_name() {
    let entries = vec![entry("name\0", b"x")];
    let archive = decode(&encode(&entries).unwrap()).unwrap();
    assert_eq!(archive.entries[0].name, "name");
}

#[test]
fn roundtrip_no_entries() {
    let archive = decode(&encode(&[]).unwrap()).unwrap();
    assert_eq!(archive.entries.len(), 0);
}

#[test]
fn encode_dir_needs_files() {
    assert!(matches!(encode_dir(&[]), Err(EncodeError::NoFiles)));
    let blob = encode_dir(&[entry("a", b"b")]).unwrap();
    assert_eq!(decode(&blob).unwrap().entries[0].name, "a");
}

#[test]
fn collect_sorts_by_name_stably() {
    let found = vec![
        entry("b.xml", b"1"),
        entry("a/z.xml", b"2"),
        entry("B.xml", b"3"),
        entry("b.xml", b"4"),
        entry("a.xml", b"5"),
    ];
    let sorted = collect_entries_from_dir(found);
    let names: Vec<&str> = sorted.iter().map(|e| e.name.as_str()).collect();
    assert_eq!(names, vec!["B.xml", "a.xml", "a/z.xml", "b.xml", "b.xml"]);
    assert_eq!(sorted[3].data, b"1");
    assert_eq!(sorted[4].data, b"4");
}

#[test]
fn collect_orders_prefix_first_and_by_bytes() {
    let sorted = collect_entries_from_dir(vec![entry("ab", b""), entry("a", b""), entry("é", b""), entry("z", b"")]);
    let names: Vec<&str> = sorted.iter().map(|e| e.name.as_str()).collect();
    assert_eq!(names, vec!["a", "ab", "z", "é"]);
}

#[test]
fn ordinary_entries_fit_the_format() {
    assert!(fits_format(&[entry("a.xml", b"data"), entry("", b"")]));
    assert!(fits_format(&[]));
}

#[test]
fn encode_compresses_at_level_nine() {
    let entries = vec![entry("level.xml", b"aaaaaaaaaaaaaaaaaaaaaaaaaaaaaaaaaaaabbbbbbbbbbbbbbbbbbb")];
    let blob = encode(&entries).unwrap();
    assert_eq!(&blob[8..], &zlib(&build_payload(&entries))[..]);
}
