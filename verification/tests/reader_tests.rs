use petro_meg::crypto::Key;
use petro_meg::path::MegPathError;
use petro_meg::reader::{MegReadError, MegReadOptions, ReadMegMeta};
use petro_meg::writer::BuildMeg;
use petro_meg::version::{GuessVersion, MegV1, MegV2, MegV3, MegVersion};

fn u32le(v: u32) -> [u8; 4] {
    v.to_le_bytes()
}

/// A V1 file with the given names and records (crc, index, size, start, name), then `data`.
fn v1_file(names: &[&[u8]], records: &[(u32, u32, u32, u32, u32)], data: &[u8]) -> Vec<u8> {
    let mut out = Vec::new();
    out.extend_from_slice(&u32le(names.len() as u32));
    out.extend_from_slice(&u32le(records.len() as u32));
    for n in names {
        out.extend_from_slice(&(n.len() as u16).to_le_bytes());
        out.extend_from_slice(n);
    }
    for &(crc, index, size, start, name) in records {
        for w in [crc, index, size, start, name] {
            out.extend_from_slice(&u32le(w));
        }
    }
    out.extend_from_slice(data);
    out
}

const CRC_A: u32 = 0xD3D99E8B;

/// A valid V1 file holding "A" with contents "hi".
fn good_v1() -> Vec<u8> {
    // 8 header + 3 name + 20 record = 31.
    v1_file(&[b"A"], &[(CRC_A, 0, 2, 31, 0)], b"hi")
}

#[test]
fn reads_valid_v1() {
    let bytes = good_v1();
    let entries = MegV1.read_meg_meta(&bytes).unwrap();
    assert_eq!(entries.len(), 1);
    let e = &entries[0];
    assert_eq!(e.name().as_bytes(), b"A");
    assert_eq!(e.size(), 2);
    assert_eq!(e.start(), 31);
    assert!(!e.encrypted());
    assert_eq!(e.range(), 31..33);
    assert_eq!(&bytes[e.range()], b"hi");
    assert_eq!(e.extract_from(&bytes, &MegReadOptions::new()).unwrap(), b"hi".to_vec());
}

#[test]
fn error_unexpected_eof() {
    assert_eq!(MegV1.read_meg_meta(&[1, 0, 0, 0]).err(), Some(MegReadError::UnexpectedEof));
    let mut bytes = good_v1();
    bytes.truncate(20);
    assert_eq!(MegV1.read_meg_meta(&bytes).err(), Some(MegReadError::UnexpectedEof));
}

#[test]
fn error_invalid_file_id() {
    let bytes = [0u8; 24];
    assert_eq!(
        MegV2.read_meg_meta(&bytes).err(),
        Some(MegReadError::InvalidFileId { id1: 0, id2: 0 })
    );
    assert_eq!(
        MegV3.read_meg_meta(&bytes).err(),
        Some(MegReadError::InvalidFileId { id1: 0, id2: 0 })
    );
    let mut odd = vec![1, 0, 0, 0, 2, 0, 0, 0];
    odd.extend_from_slice(&[0u8; 16]);
    assert_eq!(
        GuessVersion.read_meg_meta(&odd).err(),
        Some(MegReadError::InvalidFileId { id1: 1, id2: 2 })
    );
}

#[test]
fn error_missing_key() {
    let mut bytes = Vec::new();
    bytes.extend_from_slice(&u32le(0x8FFF_FFFF));
    bytes.extend_from_slice(&u32le(0x3F7D70A4));
    bytes.extend_from_slice(&[0u8; 16]);
    assert_eq!(MegV3.read_meg_meta(&bytes).err(), Some(MegReadError::MissingKey));
}

#[test]
fn error_name_file_count_mismatch() {
    let bytes = v1_file(&[b"A"], &[(CRC_A, 0, 0, 0, 0), (CRC_A, 1, 0, 0, 0)], b"");
    assert_eq!(
        MegV1.read_meg_meta(&bytes).err(),
        Some(MegReadError::NameFileCountMismatch { num_filenames: 1, num_files: 2 })
    );
}

#[test]
fn error_name_too_long() {
    let long = vec![b'x'; 261];
    let bytes = v1_file(&[&long], &[(0, 0, 0, 0, 0)], b"");
    assert_eq!(
        MegV1.read_meg_meta(&bytes).err(),
        Some(MegReadError::NameTooLong { name_index: 0, name_len: 261 })
    );
}

#[test]
fn error_invalid_name() {
    let bytes = v1_file(&[b"/A"], &[(0, 0, 0, 0, 0)], b"");
    assert_eq!(
        MegV1.read_meg_meta(&bytes).err(),
        Some(MegReadError::InvalidName { name_index: 0, path_error: MegPathError::LeadingSlash })
    );
}

#[test]
fn error_invalid_file_index() {
    let bytes = v1_file(&[b"A"], &[(CRC_A, 5, 0, 31, 0)], b"");
    assert_eq!(
        MegV1.read_meg_meta(&bytes).err(),
        Some(MegReadError::InvalidFileIndex { file_index: 0, index_from_record: 5 })
    );
}

#[test]
fn error_name_index_out_of_range() {
    let bytes = v1_file(&[b"A"], &[(CRC_A, 0, 0, 31, 3)], b"");
    assert_eq!(
        MegV1.read_meg_meta(&bytes).err(),
        Some(MegReadError::NameIndexOutOfRange { file_index: 0, name_index: 3, num_names: 1 })
    );
}

#[test]
fn error_name_already_used() {
    let bytes = v1_file(&[b"A", b"B"], &[(CRC_A, 0, 0, 0, 0), (CRC_A, 1, 0, 0, 0)], b"");
    assert_eq!(
        MegV1.read_meg_meta(&bytes).err(),
        Some(MegReadError::NameAlreadyUsed { file_index: 1, name_index: 0, num_names: 2 })
    );
}

#[test]
fn error_invalid_crc() {
    let bytes = v1_file(&[b"A"], &[(7, 0, 0, 31, 0)], b"");
    assert_eq!(
        MegV1.read_meg_meta(&bytes).err(),
        Some(MegReadError::InvalidCrc { file_index: 0, expected_crc: 7, actual_crc: CRC_A })
    );
}

/// A V2 file with one name "A" and one record starting at `start`, the data start at `data_start`.
fn v2_file(data_start: u32, start: u32) -> Vec<u8> {
    let mut out = Vec::new();
    out.extend_from_slice(&u32le(0xFFFF_FFFF));
    out.extend_from_slice(&u32le(0x3F7D70A4));
    out.extend_from_slice(&u32le(data_start));
    out.extend_from_slice(&u32le(1));
    out.extend_from_slice(&u32le(1));
    out.extend_from_slice(&[1, 0, b'A']);
    for w in [CRC_A, 0, 0, start, 0] {
        out.extend_from_slice(&u32le(w));
    }
    out
}

#[test]
fn error_file_below_data_start() {
    let bytes = v2_file(43, 10);
    assert_eq!(
        MegV2.read_meg_meta(&bytes).err(),
        Some(MegReadError::FileBelowDataStart { file_index: 0, file_start: 10, data_start: 43 })
    );
    assert_eq!(MegV2.read_meg_meta(&v2_file(43, 43)).unwrap().len(), 1);
}

/// A V3 file, unencrypted, with one name "A" and one record with the given flags.
fn v3_file(flags: u16) -> Vec<u8> {
    let mut out = Vec::new();
    out.extend_from_slice(&u32le(0xFFFF_FFFF));
    out.extend_from_slice(&u32le(0x3F7D70A4));
    out.extend_from_slice(&u32le(47));
    out.extend_from_slice(&u32le(1));
    out.extend_from_slice(&u32le(1));
    out.extend_from_slice(&u32le(3));
    out.extend_from_slice(&[1, 0, b'A']);
    out.extend_from_slice(&flags.to_le_bytes());
    for w in [CRC_A, 0, 0, 47] {
        out.extend_from_slice(&u32le(w));
    }
    out.extend_from_slice(&0u16.to_le_bytes());
    out
}

#[test]
fn reads_plain_v3() {
    let entries = MegV3.read_meg_meta(&v3_file(0)).unwrap();
    assert_eq!(entries.len(), 1);
    assert_eq!(entries[0].start(), 47);
}

#[test]
fn error_invalid_file_flags() {
    assert_eq!(
        MegV3.read_meg_meta(&v3_file(2)).err(),
        Some(MegReadError::InvalidFileFlags { file_index: 0, flags: 2 })
    );
}

#[test]
fn error_mismatched_encryption() {
    assert_eq!(
        MegV3.read_meg_meta(&v3_file(1)).err(),
        Some(MegReadError::MismatchedEncryption {
            file_index: 0,
            meg_encrypted: false,
            record_encrypted: true,
        })
    );
}

#[test]
fn extract_incomplete_contents() {
    let mut bytes = good_v1();
    bytes.pop();
    let entries = MegV1.read_meg_meta(&bytes).unwrap();
    assert_eq!(
        entries[0].extract_from(&bytes, &MegReadOptions::new()).err(),
        Some(MegReadError::UnexpectedEof)
    );
}

#[test]
fn options_key_roundtrip() {
    let mut options = MegReadOptions::new();
    assert!(options.key().is_none());
    assert!(options.validate_file_complete());
    options.set_key(Some(Key::new([1; 16], [2; 16])));
    assert!(options.key().is_some());
    options.set_key(None);
    assert!(options.key().is_none());
}

#[test]
fn version_dispatch() {
    let bytes = good_v1();
    assert_eq!(MegVersion::V1.read_meg_meta(&bytes).unwrap().len(), 1);
    assert!(MegVersion::V2.read_meg_meta(&bytes).is_err());
}

#[test]
fn truncated_file_delivers_what_is_there() {
    let mut builder = petro_meg::version::MegV1.builder::<Vec<u8>>();
    builder.insert(petro_meg::path::MegPathBuf::from_string("a".to_string()).unwrap(), b"hello".to_vec());
    let full = builder.build_bytes().unwrap();
    let cut = &full[..full.len() - 2];
    let options = MegReadOptions::new();
    let entries = petro_meg::version::MegV1.read_meg_meta(cut).unwrap();
    assert_eq!(entries[0].extract_from(cut, &options), Err(MegReadError::UnexpectedEof));
    let mut out = vec![9u8];
    assert_eq!(entries[0].extract_into(cut, &options, &mut out), Err(MegReadError::UnexpectedEof));
    assert_eq!(out, b"\x09hel".to_vec());
    let mut whole = Vec::new();
    assert_eq!(entries[0].extract_into(&full, &options, &mut whole), Ok(5));
    assert_eq!(whole, b"hello".to_vec());
}
