use petro_meg::parser::{parse, parse_opt, MegParseError, ParseOptions};
use petro_meg::path::{MegPathBuf, MegPathError};
use petro_meg::version::MegV1;
use petro_meg::writer::BuildMeg;

fn u32le(v: u32) -> [u8; 4] {
    v.to_le_bytes()
}

/// A V1 file with the given names and records (crc, index, size, start, name), then `data`.
fn v1_file(names: &[&[u8]], records: &[(u32, u32, u32, u32, u32)], data: &[u8]) -> Vec<u8> {
    let mut out = Vec::new();
    out.extend_from_slice(&u32le(names.len() as u32));
    out.extend_from_slice(&u32le(records.len() as u32));
    for n in names {
        out.extend_from_slice(&(n.len() as u16).to_le_bytes());
        out.extend_from_slice(n);
    }
    for &(crc, index, size, start, name) in records {
        for w in [crc, index, size, start, name] {
            out.extend_from_slice(&u32le(w));
        }
    }
    out.extend_from_slice(data);
    out
}

const CRC_A: u32 = 0xD3D99E8B;

#[test]
fn parses_built_file() {
    let mut builder = MegV1.builder::<Vec<u8>>();
    builder.insert(MegPathBuf::from_string("x/a.txt".to_string()).unwrap(), b"first".to_vec());
    builder.insert(MegPathBuf::from_string("y/b.txt".to_string()).unwrap(), b"second".to_vec());
    let bytes = builder.build_bytes().unwrap();
    let mut it = parse(&bytes);
    let mut seen = Vec::new();
    while let Some(r) = it.next() {
        let f = r.unwrap();
        assert!(f.is_complete());
        assert_eq!(f.raw_name(), Some(f.path().unwrap().as_bytes()));
        seen.push((f.raw_name().unwrap().to_vec(), f.contents().to_vec()));
    }
    seen.sort();
    assert_eq!(
        seen,
        vec![
            (b"X\\A.TXT".to_vec(), b"first".to_vec()),
            (b"Y\\B.TXT".to_vec(), b"second".to_vec()),
        ]
    );
    assert!(it.next().is_none());
}

#[test]
fn header_too_short() {
    let results = parse(&[0, 0, 0]).collect();
    assert_eq!(results.len(), 1);
    assert_eq!(
        results[0].as_ref().err(),
        Some(&MegParseError::NotEnoughBytesForHeader { file_size: 3, min_bytes: 8 })
    );
}

#[test]
fn eof_in_names_and_records() {
    let mut bytes = v1_file(&[b"A"], &[], b"");
    bytes[0] = 2;
    let r = parse(&bytes).collect();
    assert_eq!(
        r[0].as_ref().err(),
        Some(&MegParseError::EofDuringNameParsing {
            file_size: 11,
            cursor_position: 11,
            num_names: 2,
            name_index: 1,
        })
    );
    let mut bytes = v1_file(&[b"A"], &[], b"");
    bytes[4] = 1;
    let r = parse(&bytes).collect();
    assert_eq!(
        r[0].as_ref().err(),
        Some(&MegParseError::EofDuringFileRecordsParsing {
            file_size: 11,
            cursor_position: 11,
            num_files: 1,
        })
    );
}

#[test]
fn record_errors_stop_parsing() {
    let bytes = v1_file(&[b"A"], &[(CRC_A, 0, 1, 51, 0), (CRC_A, 9, 0, 31, 0)], b"z");
    let r = parse(&bytes).collect();
    assert_eq!(r.len(), 2);
    assert_eq!(r[0].as_ref().unwrap().contents(), b"z");
    assert_eq!(
        r[1].as_ref().err(),
        Some(&MegParseError::InvalidFileIndex { file_index: 1, index_from_record: 9 })
    );
}

#[test]
fn name_and_bounds_errors() {
    let bytes = v1_file(&[b"A"], &[(CRC_A, 0, 0, 0, 4)], b"");
    assert_eq!(
        parse(&bytes).collect()[0].as_ref().err(),
        Some(&MegParseError::NameIndexOutOfRange { file_index: 0, name_index: 4, num_names: 1 })
    );
    let bytes = v1_file(&[b"A"], &[(5, 0, 0, 0, 0)], b"");
    assert_eq!(
        parse(&bytes).collect()[0].as_ref().err(),
        Some(&MegParseError::InvalidCrc { file_index: 0, expected_crc: 5, actual_crc: CRC_A })
    );
    let bytes = v1_file(&[b"A"], &[(CRC_A, 0, 10, 25, 0)], b"ab");
    assert_eq!(
        parse(&bytes).collect()[0].as_ref().err(),
        Some(&MegParseError::FileOutOfBounds { file_index: 0, file_size: 33, start: 25, size: 10 })
    );
    let bytes = v1_file(&[b"a:b"], &[(0, 0, 0, 0, 0)], b"");
    assert_eq!(
        parse(&bytes).collect()[0].as_ref().err(),
        Some(&MegParseError::InvalidName { name_index: 0, path_error: MegPathError::InvalidCharacter })
    );
    let long = vec![b'x'; 300];
    let bytes = v1_file(&[&long], &[(0, 0, 0, 0, 0)], b"");
    assert_eq!(
        parse(&bytes).collect()[0].as_ref().err(),
        Some(&MegParseError::NameTooLong { name_index: 0, name_len: 300 })
    );
}

#[test]
fn lenient_options() {
    let bytes = v1_file(&[b"a:b"], &[(0, 3, 10, 34, 7)], b"ab");
    let options = ParseOptions::with_validation(false, false, false, false, false, false);
    let r = parse_opt(&bytes, &options).collect();
    assert_eq!(r.len(), 1);
    let f = r[0].as_ref().unwrap();
    assert!(f.raw_name().is_none());
    assert!(f.path().is_none());
    assert_eq!(f.contents(), b"b");
    assert!(!f.is_complete());
    let bytes = v1_file(&[b"a:b"], &[(0, 0, 1, 34, 0)], b"ab");
    let r = parse_opt(&bytes, &options).collect();
    let f = r[0].as_ref().unwrap();
    assert_eq!(f.raw_name(), Some(b"a:b".as_slice()));
    assert!(f.path().is_none());
    assert_eq!(f.contents(), b"b");
    assert!(f.is_complete());
}

#[test]
fn size_hint_tracks_records_left() {
    let mut builder = MegV1.builder::<Vec<u8>>();
    for name in ["a.txt", "b.txt", "c.txt"] {
        builder.insert(MegPathBuf::from_string(name.to_string()).unwrap(), b"x".to_vec());
    }
    let bytes = builder.build_bytes().unwrap();
    let mut it = parse(&bytes);
    assert_eq!(it.size_hint(), (0, Some(u32::MAX as usize)));
    assert!(it.next().unwrap().is_ok());
    assert_eq!(it.size_hint(), (1, Some(2)));
    assert!(it.next().unwrap().is_ok());
    assert!(it.next().unwrap().is_ok());
    assert_eq!(it.size_hint(), (0, Some(0)));
    assert!(it.next().is_none());

    // After an error nothing is left.
    let short = [0u8; 3];
    let mut bad = parse(&short);
    assert!(bad.next().unwrap().is_err());
    assert_eq!(bad.size_hint(), (0, Some(0)));
}

#[test]
fn nothing_after_an_error() {
    let empty: [u8; 0] = [];
    let mut it = parse(&empty);
    match it.next() {
        Some(Err(MegParseError::NotEnoughBytesForHeader { file_size, min_bytes })) => {
            assert_eq!(file_size, 0);
            assert_eq!(min_bytes, 8);
        }
        _ => panic!("expected a header error"),
    }
    assert_eq!(it.size_hint(), (0, Some(0)));
    assert!(it.next().is_none());
    assert!(it.next().is_none());
}

#[test]
fn an_error_is_the_last_item() {
    // Three records; the second names a missing name.
    let data_start = 8 + 3 + 3 * 20;
    let bytes = v1_file(
        &[b"A"],
        &[
            (CRC_A, 0, 1, data_start, 0),
            (CRC_A, 1, 1, data_start, 5),
            (CRC_A, 2, 1, data_start, 0),
        ],
        b"x",
    );
    let mut it = parse(&bytes);
    assert!(it.next().unwrap().is_ok());
    match it.next() {
        Some(Err(MegParseError::NameIndexOutOfRange { file_index, name_index, num_names })) => {
            assert_eq!((file_index, name_index, num_names), (1, 5, 1));
        }
        _ => panic!("expected NameIndexOutOfRange"),
    }
    assert!(it.next().is_none());

    // Without an error, one item per record.
    let ok = v1_file(&[b"A"], &[(CRC_A, 0, 1, 8 + 3 + 20, 0)], b"x");
    let items: Vec<_> = parse_opt(&ok, &ParseOptions::new()).collect();
    assert_eq!(items.len(), 1);
    assert!(items[0].is_ok());
}
