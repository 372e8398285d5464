use petro_meg::mega_file::{compare_unix_paths, MegaFileError, MegaFileReader};

fn u32le(v: u32) -> [u8; 4] {
    v.to_le_bytes()
}

/// A V1 file with the given names and records (crc, index, size, start, name), then `data`.
fn v1_file(names: &[&[u8]], records: &[(u32, u32, u32, u32, u32)], data: &[u8]) -> Vec<u8> {
    let mut out = Vec::new();
    out.extend_from_slice(&u32le(names.len() as u32));
    out.extend_from_slice(&u32le(records.len() as u32));
    for n in names {
        out.extend_from_slice(&(n.len() as u16).to_le_bytes());
        out.extend_from_slice(n);
    }
    for &(crc, index, size, start, name) in records {
        for w in [crc, index, size, start, name] {
            out.extend_from_slice(&u32le(w));
        }
    }
    out.extend_from_slice(data);
    out
}

#[test]
fn unix_path_order() {
    assert_eq!(compare_unix_paths(b"a/b", b"a-b"), -1);
    assert_eq!(compare_unix_paths(b"a//b/", b"a/./b"), 0);
    assert_eq!(compare_unix_paths(b"./a", b"a"), -1);
    assert_eq!(compare_unix_paths(b"/a", b"./a"), -1);
    assert_eq!(compare_unix_paths(b"../a", b"a"), -1);
    assert_eq!(compare_unix_paths(b"B", b"a"), -1);
    assert_eq!(compare_unix_paths(b"ab", b"a"), 1);
}

#[test]
fn groups_files_by_name() {
    // Names: 8 + (2+5) + (2+3) + (2+6) = 28; three records: 28 + 60 = 88.
    let bytes = v1_file(
        &[b"x/b.c", b"a.b", b"x//b.c"],
        &[(0, 0, 2, 88, 1), (0, 1, 1, 90, 2), (0, 2, 1, 91, 2)],
        b"hiyz",
    );
    let reader = MegaFileReader::parse_v1(&bytes).unwrap();
    // "x//b.c" is the same path as "x/b.c" and, coming later, replaces it.
    assert_eq!(reader.file_names(), vec![b"a.b".as_slice(), b"x//b.c".as_slice()]);
    let files = reader.files();
    assert_eq!(files.len(), 2);
    assert_eq!(files[1].1.len(), 2);
    assert_eq!(reader.get_files(b"a.b").len(), 1);
    assert_eq!(reader.get_files(b"a.b")[0].size(), 2);
    assert_eq!(reader.get_files(b"x/b.c").len(), 2);
    assert!(reader.get_files(b"nope").is_empty());
    assert_eq!(reader.get_reader(b"a.b", 0).unwrap().read_all().unwrap(), b"hi".to_vec());
    assert_eq!(reader.get_reader(b"x/./b.c", 1).unwrap().read_all().unwrap(), b"z".to_vec());
    assert!(reader.get_reader(b"a.b", 1).is_none());
    assert!(reader.get_reader(b"zzz", 0).is_none());
}

#[test]
fn reader_errors() {
    assert_eq!(MegaFileReader::parse_v1(&[0, 0]).err(), Some(MegaFileError::UnexpectedEof));
    let bytes = v1_file(&[b"caf\xC3\xA9"], &[], b"");
    assert_eq!(
        MegaFileReader::parse_v1(&bytes).err(),
        Some(MegaFileError::NonAsciiName { name_index: 0 })
    );
    let bytes = v1_file(&[b"a"], &[(0, 0, 0, 0, 1)], b"");
    assert_eq!(
        MegaFileReader::parse_v1(&bytes).err(),
        Some(MegaFileError::NameIndexOutOfBounds { file_index: 0, name_index: 1, num_names: 1 })
    );
    let bytes = v1_file(&[b"a"], &[(0, 0, 5, 31, 0)], b"ab");
    let reader = MegaFileReader::parse_v1(&bytes).unwrap();
    assert_eq!(
        reader.get_reader(b"a", 0).unwrap().read_all().err(),
        Some(MegaFileError::UnexpectedEof)
    );
}
