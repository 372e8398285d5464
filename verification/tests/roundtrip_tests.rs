use petro_meg::crypto::Key;
use petro_meg::path::{MegPath, MegPathBuf};
use petro_meg::reader::{FileEntry, MegReadError, MegReadOptions, ReadMegMeta};
use petro_meg::version::{GuessVersion, MegV1, MegV2, MegV3, MegVersion};
use petro_meg::writer::{BuildMeg, BuildMegError, FileContent};

fn path(s: &str) -> MegPathBuf {
    MegPathBuf::from_string(s.to_string()).unwrap()
}

fn nist_key() -> Key {
    Key::new(
        [
            0x2b, 0x7e, 0x15, 0x16, 0x28, 0xae, 0xd2, 0xa6, 0xab, 0xf7, 0x15, 0x88, 0x09, 0xcf, 0x4f,
            0x3c,
        ],
        [
            0x00, 0x01, 0x02, 0x03, 0x04, 0x05, 0x06, 0x07, 0x08, 0x09, 0x0a, 0x0b, 0x0c, 0x0d, 0x0e,
            0x0f,
        ],
    )
}

fn names(entries: &[FileEntry]) -> Vec<Vec<u8>> {
    entries.iter().map(|e| e.name().as_bytes().to_vec()).collect()
}

fn sample_files() -> Vec<(&'static str, Vec<u8>)> {
    vec![
        ("data/xml/units.xml", b"<units/>".to_vec()),
        ("Art\\Models\\ship.alo", vec![7u8; 37]),
        ("readme.txt", Vec::new()),
    ]
}

fn check_roundtrip(version: MegVersion, key: Option<Key>) {
    let mut builder = version.builder::<Vec<u8>>();
    builder.set_encryption(key.clone());
    for (name, data) in sample_files() {
        assert!(builder.insert(path(name), data).is_none());
    }
    let out = builder.build_bytes().unwrap();
    let mut options = MegReadOptions::new();
    options.set_key(key.clone());
    let entries = Some(version).read_meg_meta_opt(&out, &options).unwrap();
    assert_eq!(entries.len(), 3);
    for (name, data) in sample_files() {
        let mut upper = path(name);
        upper.make_normalized();
        let entry = entries
            .iter()
            .find(|e| e.name().as_bytes() == upper.as_bytes())
            .expect("every built file reads back");
        assert_eq!(entry.size() as usize, data.len());
        assert_eq!(entry.encrypted(), key.is_some() && version == MegVersion::V3);
        assert_eq!(entry.extract_from(&out, &options).unwrap(), data);
    }
}

#[test]
fn roundtrip_v1() {
    check_roundtrip(MegVersion::V1, None);
}

#[test]
fn roundtrip_v2() {
    check_roundtrip(MegVersion::V2, None);
}

#[test]
fn roundtrip_v3_plain() {
    check_roundtrip(MegVersion::V3, None);
}

#[test]
fn roundtrip_v3_encrypted() {
    check_roundtrip(MegVersion::V3, Some(nist_key()));
}

#[test]
fn key_ignored_for_v1() {
    // A key set on a builder for any version only applies to V3.
    check_roundtrip(MegVersion::V1, Some(nist_key()));
}

#[test]
fn exact_v1_bytes() {
    let mut builder = MegV1.builder::<Vec<u8>>();
    builder.insert(path("a"), b"hi".to_vec());
    let out = builder.build_bytes().unwrap();
    let mut expected = vec![1, 0, 0, 0, 1, 0, 0, 0];
    expected.extend_from_slice(&[1, 0, b'A']);
    // crc32("A") = 0xD3D99E8B, index 0, size 2, start 8 + 3 + 20 = 31, name 0.
    expected.extend_from_slice(&[0x8B, 0x9E, 0xD9, 0xD3]);
    expected.extend_from_slice(&[0, 0, 0, 0]);
    expected.extend_from_slice(&[2, 0, 0, 0]);
    expected.extend_from_slice(&[31, 0, 0, 0]);
    expected.extend_from_slice(&[0, 0, 0, 0]);
    expected.extend_from_slice(b"hi");
    assert_eq!(out, expected);
}

#[test]
fn exact_v2_header() {
    let mut builder = MegV2.builder::<Vec<u8>>();
    builder.insert(path("a"), b"hi".to_vec());
    let out = builder.build_bytes().unwrap();
    assert_eq!(&out[0..8], &[0xFF, 0xFF, 0xFF, 0xFF, 0xA4, 0x70, 0x7D, 0x3F]);
    // Data starts after the 20 byte header, the 3 byte name and one 20 byte record.
    assert_eq!(&out[8..12], &[43, 0, 0, 0]);
    assert_eq!(&out[12..20], &[1, 0, 0, 0, 1, 0, 0, 0]);
    assert_eq!(out.len(), 45);
    assert_eq!(&out[43..], b"hi");
}

#[test]
fn exact_v3_encrypted_data_block() {
    // NIST SP 800-38A F.2.1: AES-128 CBC, first block.
    let plain: Vec<u8> = vec![
        0x6b, 0xc1, 0xbe, 0xe2, 0x2e, 0x40, 0x9f, 0x96, 0xe9, 0x3d, 0x7e, 0x11, 0x73, 0x93, 0x17, 0x2a,
    ];
    let cipher: [u8; 16] = [
        0x76, 0x49, 0xab, 0xac, 0x81, 0x19, 0xb2, 0x46, 0xce, 0xe9, 0x8e, 0x9b, 0x12, 0xe9, 0x19, 0x7d,
    ];
    let mut builder = MegV3.builder::<Vec<u8>>();
    builder.set_encryption(Some(nist_key()));
    builder.insert(path("a"), plain.clone());
    let out = builder.build_bytes().unwrap();
    assert_eq!(&out[0..4], &[0xFF, 0xFF, 0xFF, 0x8F]);
    // Header 24, names padded to 16, one encrypted record of 2 + 32 bytes, then the data.
    assert_eq!(out.len(), 24 + 16 + 34 + 16);
    assert_eq!(&out[74..90], &cipher);
    let mut options = MegReadOptions::new();
    options.set_key(Some(nist_key()));
    let entries = MegV3.read_meg_meta_opt(&out, &options).unwrap();
    assert_eq!(entries[0].extract_from(&out, &options).unwrap(), plain);
}

#[test]
fn builder_orders_by_crc_and_normalizes() {
    let mut builder = MegV1.builder::<Vec<u8>>();
    builder.insert(path("b"), vec![2]);
    builder.insert(path("a"), vec![1]);
    let out = builder.build_bytes().unwrap();
    let entries = MegV1.read_meg_meta(&out).unwrap();
    // crc32("B") = 0x4AD0CF31 < crc32("A") = 0xD3D99E8B.
    assert_eq!(names(&entries), vec![b"B".to_vec(), b"A".to_vec()]);
}

#[test]
fn insert_replaces_case_insensitively() {
    let mut builder = MegV1.builder::<Vec<u8>>();
    assert!(builder.insert(path("dir/File.txt"), vec![1]).is_none());
    let old = builder.insert(path("DIR\\file.TXT"), vec![2]);
    assert_eq!(old, Some(vec![1]));
    assert_eq!(builder.len(), 1);
    let removed = builder.remove(&MegPath::from_str("dir/FILE.txt").unwrap());
    assert_eq!(removed, Some(vec![2]));
    assert_eq!(builder.len(), 0);
    assert!(builder.remove(&MegPath::from_str("dir/FILE.txt").unwrap()).is_none());
}

#[test]
fn guess_reads_each_version() {
    for version in [MegVersion::V1, MegVersion::V2, MegVersion::V3] {
        let mut builder = version.builder::<Vec<u8>>();
        builder.insert(path("text/abc.txt"), b"abc".to_vec());
        let out = builder.build_bytes().unwrap();
        let guessed = GuessVersion.read_meg_meta(&out).unwrap();
        let named = Some(version).read_meg_meta(&out).unwrap();
        assert_eq!(names(&guessed), names(&named));
        assert_eq!(guessed[0].start(), named[0].start());
        let none: Option<MegVersion> = None;
        assert_eq!(names(&none.read_meg_meta(&out).unwrap()), names(&named));
    }
}

#[test]
fn guess_reads_encrypted_v3() {
    let mut builder = MegV3.builder::<Vec<u8>>();
    builder.set_encryption(Some(nist_key()));
    builder.insert(path("x"), b"secret".to_vec());
    let out = builder.build_bytes().unwrap();
    let mut options = MegReadOptions::new();
    options.set_key(Some(nist_key()));
    let entries = GuessVersion.read_meg_meta_opt(&out, &options).unwrap();
    assert_eq!(entries[0].extract_from(&out, &options).unwrap(), b"secret".to_vec());
    // Without the key, the header alone already fails.
    assert!(matches!(GuessVersion.read_meg_meta(&out), Err(MegReadError::MissingKey)));
}

#[test]
fn name_length_limit() {
    let mut builder = MegV1.builder::<Vec<u8>>();
    assert_eq!(builder.name_length_limit(), 260);
    builder.set_name_length_limit(3);
    assert_eq!(builder.name_length_limit(), 3);
    builder.insert(path("abcd"), vec![]);
    match builder.build_bytes() {
        Err(BuildMegError::NameTooLong { len, limit }) => {
            assert_eq!(len, 4);
            assert_eq!(limit, 3);
        }
        _ => panic!("expected NameTooLong"),
    }
}

#[test]
fn empty_builder_builds_header_only() {
    let builder = MegV1.builder::<Vec<u8>>();
    assert_eq!(builder.build_bytes().unwrap(), vec![0u8; 8]);
    let builder = MegV3.builder::<Vec<u8>>();
    let out = builder.build_bytes().unwrap();
    assert_eq!(out.len(), 24);
    assert!(MegV3.read_meg_meta(&out).unwrap().is_empty());
}

#[test]
fn set_version_and_encryption() {
    let mut builder = MegVersion::V1.builder::<Vec<u8>>();
    assert!(builder.encryption().is_none());
    builder.set_version(MegVersion::V3);
    builder.set_encryption(Some(nist_key()));
    assert!(builder.encryption().is_some());
    builder.insert(path("a"), vec![1, 2, 3]);
    let out = builder.build_bytes().unwrap();
    assert_eq!(&out[0..4], &[0xFF, 0xFF, 0xFF, 0x8F]);
}

/// Contents that report a length other than what they deliver.
struct Liar {
    reported: u64,
    data: Vec<u8>,
}

impl FileContent for Liar {
    fn file_len(&self) -> Result<u64, std::io::Error> {
        Ok(self.reported)
    }

    fn ensure_at_start(&mut self) -> Result<(), std::io::Error> {
        Ok(())
    }

    fn read_all(&mut self) -> Result<Vec<u8>, std::io::Error> {
        Ok(self.data.clone())
    }
}

#[test]
fn build_streams_file_contents() {
    let mut builder = MegV2.builder::<Liar>();
    builder.insert(path("a/b"), Liar { reported: 3, data: b"xyz".to_vec() });
    let mut out = Vec::new();
    let written = builder.build(&mut out).unwrap();
    assert_eq!(written, out.len() as u64);
    let entries = MegV2.read_meg_meta(&out).unwrap();
    assert_eq!(entries[0].extract_from(&out, &MegReadOptions::new()).unwrap(), b"xyz".to_vec());
}

#[test]
fn build_rejects_inaccurate_size() {
    let mut builder = MegV1.builder::<Liar>();
    builder.insert(path("a"), Liar { reported: 5, data: b"xyz".to_vec() });
    match builder.build(&mut Vec::new()) {
        Err(BuildMegError::InaccurateFileSize { reported_size, actual_size }) => {
            assert_eq!(reported_size, 5);
            assert_eq!(actual_size, 3);
        }
        _ => panic!("expected InaccurateFileSize"),
    }
}

#[test]
fn build_rejects_file_too_large() {
    let mut builder = MegV1.builder::<Liar>();
    builder.insert(path("a"), Liar { reported: 1 << 33, data: Vec::new() });
    match builder.build(&mut Vec::new()) {
        Err(BuildMegError::FileTooLarge { size }) => assert_eq!(size, 1 << 33),
        _ => panic!("expected FileTooLarge"),
    }
}

#[test]
fn build_rejects_offset_too_large() {
    let mut builder = MegV1.builder::<Liar>();
    builder.insert(path("a"), Liar { reported: u32::MAX as u64, data: Vec::new() });
    builder.insert(path("b"), Liar { reported: u32::MAX as u64, data: Vec::new() });
    assert!(matches!(builder.build(&mut Vec::new()), Err(BuildMegError::OffsetTooLarge)));
}

/// Contents whose length cannot be determined.
struct Broken;

impl FileContent for Broken {
    fn file_len(&self) -> Result<u64, std::io::Error> {
        Err(std::io::Error::new(std::io::ErrorKind::Other, "no length"))
    }

    fn ensure_at_start(&mut self) -> Result<(), std::io::Error> {
        Ok(())
    }

    fn read_all(&mut self) -> Result<Vec<u8>, std::io::Error> {
        Ok(Vec::new())
    }
}

#[test]
fn build_reports_io_errors() {
    let mut builder = MegV1.builder::<Broken>();
    builder.insert(path("a"), Broken);
    match builder.build(&mut Vec::new()) {
        Err(BuildMegError::IoError(e)) => assert_eq!(e.to_string(), "no length"),
        _ => panic!("expected IoError"),
    }
}

#[test]
fn v3_encrypted_names_are_not_plain_text() {
    let mut builder = MegV3.builder::<Vec<u8>>();
    builder.set_encryption(Some(nist_key()));
    builder.insert(path("secret/name.txt"), b"data".to_vec());
    let out = builder.build_bytes().unwrap();
    let needle = b"SECRET\\NAME.TXT";
    assert!(!out.windows(needle.len()).any(|w| w == needle));
    // The encrypted names table and record take whole blocks.
    assert_eq!(u32::from_le_bytes([out[20], out[21], out[22], out[23]]), 32);
}

#[test]
fn remove_undoes_insert() {
    let mut builder = MegV2.builder::<Vec<u8>>();
    builder.insert(path("a.txt"), vec![1]);
    builder.insert(path("b/c.txt"), vec![2]);
    let before = builder.build_bytes().unwrap();

    let mut builder = MegV2.builder::<Vec<u8>>();
    builder.insert(path("a.txt"), vec![1]);
    builder.insert(path("b/c.txt"), vec![2]);
    assert!(builder.insert(path("new/file.bin"), vec![9, 9]).is_none());
    assert_eq!(builder.len(), 3);
    let removed = builder.remove(&MegPath::from_str("NEW\\FILE.BIN").unwrap());
    assert_eq!(removed, Some(vec![9, 9]));
    assert_eq!(builder.len(), 2);
    // With the new name gone again, the builder writes exactly what it wrote before.
    assert_eq!(builder.build_bytes().unwrap(), before);
}

#[test]
fn build_without_files_succeeds() {
    let builder = MegV2.builder::<Broken>();
    let mut out = vec![0xAA];
    assert_eq!(builder.build(&mut out).unwrap(), 20);
    let mut expected = vec![0xAA];
    expected.extend_from_slice(&builder_bytes_v2_empty());
    assert_eq!(out, expected);
}

fn builder_bytes_v2_empty() -> Vec<u8> {
    let mut v = Vec::new();
    for w in [0xFFFF_FFFFu32, 0x3F7D_70A4, 20, 0, 0] {
        v.extend_from_slice(&w.to_le_bytes());
    }
    v
}

#[test]
fn build_one_file_v1_exact_bytes() {
    let mut builder = MegV1.builder::<Liar>();
    builder.insert(path("a"), Liar { reported: 2, data: b"xy".to_vec() });
    let mut out = Vec::new();
    assert_eq!(builder.build(&mut out).unwrap(), 33);
    let mut expected = vec![1, 0, 0, 0, 1, 0, 0, 0, 1, 0, 0x41];
    expected.extend_from_slice(&0xD3D9_9E8Bu32.to_le_bytes());
    expected.extend_from_slice(&[0, 0, 0, 0, 2, 0, 0, 0, 31, 0, 0, 0, 0, 0, 0, 0]);
    expected.extend_from_slice(b"xy");
    assert_eq!(out, expected);
    assert_eq!(out.len(), 33);
}

#[test]
fn names_within_limit_never_too_long() {
    let mut builder = MegV1.builder::<Vec<u8>>();
    builder.set_name_length_limit(4);
    builder.insert(path("abcd"), vec![1]);
    builder.insert(path("a/b"), vec![2]);
    assert!(builder.build_bytes().is_ok());
}

#[test]
fn encrypted_entry_needs_the_key_to_extract() {
    let mut builder = MegV3.builder::<Vec<u8>>();
    builder.set_encryption(Some(nist_key()));
    builder.insert(path("x"), b"secret".to_vec());
    let out = builder.build_bytes().unwrap();
    let mut options = MegReadOptions::new();
    options.set_key(Some(nist_key()));
    let entries = MegV3.read_meg_meta_opt(&out, &options).unwrap();
    assert!(entries[0].encrypted());
    assert_eq!(entries[0].extract_from(&out, &options).unwrap(), b"secret".to_vec());
    assert_eq!(
        entries[0].extract_from(&out, &MegReadOptions::new()).err(),
        Some(MegReadError::MissingKey)
    );
}

#[test]
fn build_failures_leave_what_was_written() {
    // A name too long: nothing is written.
    let mut builder = MegV1.builder::<Liar>();
    builder.set_name_length_limit(1);
    builder.insert(path("ab"), Liar { reported: 1, data: vec![1] });
    let mut out = vec![7u8];
    assert!(matches!(builder.build(&mut out), Err(BuildMegError::NameTooLong { .. })));
    assert_eq!(out, vec![7u8]);

    // A wrong size on the second file: header, tables, the first file and what the second
    // delivered are written.
    let mut builder = MegV1.builder::<Liar>();
    // "B" comes first in CRC order (0x4AD0CF31 < 0xD3D99E8B).
    builder.insert(path("b"), Liar { reported: 2, data: b"xy".to_vec() });
    builder.insert(path("a"), Liar { reported: 3, data: b"z".to_vec() });
    let mut out = Vec::new();
    match builder.build(&mut out) {
        Err(BuildMegError::InaccurateFileSize { reported_size, actual_size }) => {
            assert_eq!((reported_size, actual_size), (3, 1));
        }
        _ => panic!("expected InaccurateFileSize"),
    }
    // 8 header + 2 * 3 names + 2 * 20 records = 54 bytes of tables.
    assert_eq!(out.len(), 54 + 2 + 1);
    assert_eq!(&out[0..8], &[2, 0, 0, 0, 2, 0, 0, 0]);
    assert_eq!(&out[54..57], b"xyz");
}

#[test]
fn set_version_writes_that_version_and_ignores_key_below_v3() {
    let mut with_key = MegVersion::V3.builder::<Vec<u8>>();
    with_key.set_encryption(Some(nist_key()));
    with_key.insert(path("a"), b"abc".to_vec());
    let v3 = with_key.build_bytes().unwrap();
    assert_eq!(&v3[0..8], &[0xFF, 0xFF, 0xFF, 0x8F, 0xA4, 0x70, 0x7D, 0x3F]);
    with_key.set_version(MegVersion::V2);
    let v2 = with_key.build_bytes().unwrap();
    assert_eq!(&v2[0..8], &[0xFF, 0xFF, 0xFF, 0xFF, 0xA4, 0x70, 0x7D, 0x3F]);
    let mut plain = MegVersion::V2.builder::<Vec<u8>>();
    plain.insert(path("a"), b"abc".to_vec());
    assert_eq!(v2, plain.build_bytes().unwrap());
    with_key.set_version(MegVersion::V1);
    let v1 = with_key.build_bytes().unwrap();
    assert_eq!(&v1[0..8], &[1, 0, 0, 0, 1, 0, 0, 0]);
}
