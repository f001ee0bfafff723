use xmap::frame::{decode_stream, encode_frame, encode_stream, get_u32, put_bytes, put_u32, write_frame};
use xmap::number::Decimal;
use xmap::record::{MatchedRecord, XmapMatch};
use xmap::stream::{decode_matches, encode_matches, frame_match, PIPE_CAPACITY};
use xmap::wire::{decode_match, encode_match};

fn decimal(text: &str) -> Decimal {
    let chars: Vec<char> = text.chars().collect();
    Decimal::parse(&chars).unwrap()
}

fn contribution(file_index: usize, orientation: char, start: &str) -> MatchedRecord {
    MatchedRecord {
        file_index,
        ref_contig_id: 200 + file_index as u8,
        qry_start_pos: decimal(start),
        qry_end_pos: decimal("2000.25"),
        ref_start_pos: decimal("-3e5"),
        ref_end_pos: decimal("inf"),
        orientation,
        confidence: decimal("NaN"),
        ref_len: decimal(".5"),
    }
}

fn a_match(contig: u32, records: Vec<MatchedRecord>) -> XmapMatch {
    XmapMatch { qry_contig_id: contig, file_indices: vec![0, 1], records }
}

fn assert_same(a: &XmapMatch, b: &XmapMatch) {
    assert_eq!(a.qry_contig_id, b.qry_contig_id);
    assert_eq!(a.file_indices, b.file_indices);
    assert_eq!(a.records.len(), b.records.len());
    for (x, y) in a.records.iter().zip(b.records.iter()) {
        assert_eq!(x.file_index, y.file_index);
        assert_eq!(x.ref_contig_id, y.ref_contig_id);
        assert_eq!(x.qry_start_pos.text(), y.qry_start_pos.text());
        assert_eq!(x.qry_end_pos.text(), y.qry_end_pos.text());
        assert_eq!(x.ref_start_pos.text(), y.ref_start_pos.text());
        assert_eq!(x.ref_end_pos.text(), y.ref_end_pos.text());
        assert_eq!(x.orientation, y.orientation);
        assert_eq!(x.confidence.text(), y.confidence.text());
        assert_eq!(x.ref_len.text(), y.ref_len.text());
    }
}

#[test]
fn a_frame_is_the_length_and_the_payload() {
    assert_eq!(encode_frame(&[]), Some(vec![0, 0, 0, 0]));
    assert_eq!(encode_frame(&[7, 8, 9]), Some(vec![3, 0, 0, 0, 7, 8, 9]));
    let long = vec![1u8; 0x1_0203];
    let frame = encode_frame(&long).unwrap();
    assert_eq!(&frame[..4], &[0x03, 0x02, 0x01, 0x00]);
    assert_eq!(&frame[4..], &long[..]);
    let mut out = vec![9];
    assert!(write_frame(&[5], &mut out));
    assert_eq!(out, vec![9, 1, 0, 0, 0, 5]);
}

#[test]
fn numbers_are_written_lowest_byte_first() {
    let mut out = Vec::new();
    put_u32(0x0403_0201, &mut out);
    put_u32(u32::MAX, &mut out);
    put_bytes(&[10, 11], &mut out);
    assert_eq!(out, vec![1, 2, 3, 4, 255, 255, 255, 255, 10, 11]);
    assert_eq!(get_u32(&out, 0), 0x0403_0201);
    assert_eq!(get_u32(&out, 4), u32::MAX);
    assert_eq!(get_u32(&out, 1), 0xff04_0302);
    assert_eq!(get_u32(&out, 6), 0x0b0a_ffff);
}

#[test]
fn framed_payloads_come_back() {
    for payloads in [
        vec![],
        vec![vec![]],
        vec![vec![1, 2, 3]],
        vec![vec![], vec![0; 300], vec![255], vec![]],
    ] {
        let stream = encode_stream(&payloads).unwrap();
        assert_eq!(decode_stream(&stream), Some(payloads));
    }
    assert_eq!(encode_stream(&vec![]), Some(vec![]));
    assert_eq!(
        encode_stream(&vec![vec![1], vec![2, 3]]),
        Some(vec![1, 0, 0, 0, 1, 2, 0, 0, 0, 2, 3])
    );
}

#[test]
fn a_stream_that_breaks_off_is_refused() {
    assert_eq!(decode_stream(&[]), Some(vec![]));
    assert_eq!(decode_stream(&[0]), None);
    assert_eq!(decode_stream(&[0, 0, 0]), None);
    assert_eq!(decode_stream(&[1, 0, 0, 0]), None);
    assert_eq!(decode_stream(&[2, 0, 0, 0, 9]), None);
    assert_eq!(decode_stream(&[1, 0, 0, 0, 9, 0]), None);
    assert_eq!(decode_stream(&[255, 255, 255, 255, 1, 2, 3]), None);
    assert_eq!(decode_stream(&[1, 0, 0, 0, 9, 0, 0, 0, 0]), Some(vec![vec![9], vec![]]));
}

#[test]
fn a_match_is_written_field_by_field() {
    let m = XmapMatch {
        qry_contig_id: 0x0102_0304,
        file_indices: vec![2],
        records: vec![MatchedRecord {
            file_index: 0x0a0b,
            ref_contig_id: 23,
            qry_start_pos: decimal("1.5"),
            qry_end_pos: decimal("2"),
            ref_start_pos: decimal("3"),
            ref_end_pos: decimal("4"),
            orientation: '-',
            confidence: decimal("5"),
            ref_len: decimal("6e1"),
        }],
    };
    let expected: Vec<u8> = vec![
        4, 3, 2, 1, // query contig
        1, 0, 0, 0, // one file position
        2, 0, 0, 0, 0, 0, 0, 0, // the position
        1, 0, 0, 0, // one record
        0x0b, 0x0a, 0, 0, 0, 0, 0, 0, // file position
        23, // reference contig
        45, 0, 0, 0, // orientation
        3, 0, 0, 0, 49, 46, 53, // 1.5
        1, 0, 0, 0, 50, // 2
        1, 0, 0, 0, 51, // 3
        1, 0, 0, 0, 52, // 4
        1, 0, 0, 0, 53, // 5
        3, 0, 0, 0, 54, 101, 49, // 6e1
    ];
    assert_eq!(encode_match(&m), Some(expected.clone()));
    assert_same(&decode_match(&expected).unwrap(), &m);
}

#[test]
fn an_encoded_match_comes_back() {
    let matches = [
        XmapMatch { qry_contig_id: 0, file_indices: vec![], records: vec![] },
        a_match(100, vec![contribution(0, '+', "1000.0"), contribution(1, '-', "1500.0")]),
        a_match(
            u32::MAX,
            vec![
                contribution(usize::MAX, '\u{1f600}', "1"),
                contribution(7, '\u{e9}', "+INFINITY"),
                contribution(0, '\0', "0.000000000000000000000000000000000000001"),
            ],
        ),
    ];
    for m in &matches {
        let bytes = encode_match(m).unwrap();
        assert_same(&decode_match(&bytes).unwrap(), m);
    }
}

#[test]
fn bytes_that_encode_no_match_are_refused() {
    let m = a_match(100, vec![contribution(0, '+', "1000.0"), contribution(1, '-', "1500.0")]);
    let bytes = encode_match(&m).unwrap();
    for cut in 0..bytes.len() {
        assert!(decode_match(&bytes[..cut]).is_none(), "cut at {}", cut);
    }
    let mut longer = bytes.clone();
    longer.push(0);
    assert!(decode_match(&longer).is_none());
    assert!(decode_match(&[]).is_none());
}

#[test]
fn a_misspelled_number_is_refused() {
    let m = a_match(1, vec![contribution(0, '+', "12")]);
    let bytes = encode_match(&m).unwrap();
    let at = 4 + 4 + 16 + 4 + 8 + 1 + 4 + 4;
    assert_eq!(&bytes[at..at + 2], b"12");
    for bad in [b'x', b' ', 0, 0xc3, 0xff] {
        let mut broken = bytes.clone();
        broken[at] = bad;
        assert!(decode_match(&broken).is_none(), "byte {}", bad);
    }
    let mut sound = bytes.clone();
    sound[at] = b'-';
    assert_eq!(
        decode_match(&sound).unwrap().records[0].qry_start_pos.text().iter().collect::<String>(),
        "-2"
    );
}

#[test]
fn an_orientation_is_a_character() {
    let m = a_match(1, vec![contribution(0, '+', "12")]);
    let bytes = encode_match(&m).unwrap();
    let at = 4 + 4 + 16 + 4 + 8 + 1;
    assert_eq!(&bytes[at..at + 4], &[43, 0, 0, 0]);
    for (code, expected) in [
        (0x41u32, Some('A')),
        (0xd7ff, Some('\u{d7ff}')),
        (0xd800, None),
        (0xdfff, None),
        (0xe000, Some('\u{e000}')),
        (0x10ffff, Some('\u{10ffff}')),
        (0x110000, None),
        (u32::MAX, None),
    ] {
        let mut changed = bytes.clone();
        changed[at..at + 4].copy_from_slice(&code.to_le_bytes());
        assert_eq!(decode_match(&changed).map(|m| m.records[0].orientation), expected, "{:x}", code);
    }
}

#[test]
fn a_file_position_fits_the_machine() {
    let m = XmapMatch { qry_contig_id: 1, file_indices: vec![usize::MAX, 0, 5], records: vec![] };
    let bytes = encode_match(&m).unwrap();
    assert_eq!(decode_match(&bytes).unwrap().file_indices, vec![usize::MAX, 0, 5]);
    assert_eq!(&bytes[8..16], &(usize::MAX as u64).to_le_bytes());
}

#[test]
fn streamed_matches_come_back() {
    let matches = vec![
        a_match(100, vec![contribution(0, '+', "1000.0"), contribution(1, '-', "1500.0")]),
        a_match(200, vec![]),
        a_match(300, vec![contribution(2, 'x', "7")]),
    ];
    let stream = encode_matches(&matches).unwrap();
    let back = decode_matches(&stream).unwrap();
    assert_eq!(back.len(), 3);
    for (a, b) in matches.iter().zip(back.iter()) {
        assert_same(a, b);
    }
    let mut framed = Vec::new();
    for m in &matches {
        framed.extend(frame_match(m).unwrap());
    }
    assert_eq!(framed, stream);
    let payloads = decode_stream(&stream).unwrap();
    assert_eq!(payloads[1], encode_match(&matches[1]).unwrap());
}

#[test]
fn no_match_makes_the_empty_stream() {
    assert_eq!(encode_matches(&vec![]), Some(vec![]));
    assert_eq!(decode_matches(&[]).map(|m| m.len()), Some(0));
}

#[test]
fn a_stream_of_something_else_is_refused() {
    assert!(decode_matches(&[1, 0, 0, 0, 9]).is_none());
    assert!(decode_matches(&[1, 0, 0]).is_none());
    let stream = encode_matches(&vec![a_match(1, vec![])]).unwrap();
    assert!(decode_matches(&stream[..stream.len() - 1]).is_none());
}

#[test]
fn the_pipe_holds_128_kib() {
    assert_eq!(PIPE_CAPACITY, 128 * 1024);
}
