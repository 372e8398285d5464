//! Reading the metadata of MEGA files from their bytes, and extracting file contents.

use crate::checksum::{crc32, crc32_hash};
use crate::crypto::{
    aes128_cbc_decrypt, cbc_decrypt, round_down_to_block, round_up_to_block, spec_round_down_to_block,
    spec_round_up_to_block, Key,
};
use crate::encoding::{append_bytes, read_u16_le, read_u32_le, spec_u16_le, spec_u32_le};
use crate::path::{
    spec_is_dir_separator, spec_is_valid_component, spec_validate_path, valid_path, MegPath,
    MegPathBuf, MegPathError, is_dir_separator, is_valid_component, WIN_PATH_LIMIT,
};
use crate::version::{GuessVersion, MegV1, MegV2, MegV3, MegVersion};
use vstd::prelude::*;

verus! {

/// Value of the second ID word in V2 and V3 headers.
pub const ID2: u32 = 0x3F7D70A4;

/// First header word of an unencrypted V2 or V3 file.
pub const ID_PLAIN: u32 = 0xFFFF_FFFF;

/// First header word of an encrypted V3 file.
pub const ID_ENCRYPTED: u32 = 0x8FFF_FFFF;

/// Reader options, as plain values.
pub struct ReadOptionsView {
    pub validate_crc: bool,
    pub validate_index: bool,
    pub validate_name_length: bool,
    pub validate_name_count: bool,
    pub validate_names_unique: bool,
    pub validate_file_start_data_start: bool,
    pub validate_consistent_encryption: bool,
    pub validate_file_complete: bool,
    pub key: Option<(Seq<u8>, Seq<u8>)>,
}

/// Options for reading MEGA files.
pub struct MegReadOptions {
    /// Whether a mismatched filename CRC is an error (default `true`).
    validate_crc: bool,
    /// Whether a mismatched file index is an error (default `true`).
    validate_index: bool,
    /// Whether names over the Windows 260 character limit are an error (default `true`).
    validate_name_length: bool,
    /// Whether differing numbers of names and files are an error (default `true`).
    validate_name_count: bool,
    /// Whether two files sharing a name is an error (default `true`).
    validate_names_unique: bool,
    /// Whether a file starting before the data section is an error (default `true`).
    validate_file_start_data_start: bool,
    /// Whether a file whose encryption differs from the MEGA file's is an error (default `true`).
    validate_consistent_encryption: bool,
    /// Whether extracting a file whose contents are cut short is an error (default `true`).
    validate_file_complete: bool,
    /// Key and initial vector for decrypting V3 MEGA files (default `None`).
    key: Option<Key>,
}

impl View for MegReadOptions {
    type V = ReadOptionsView;

    closed spec fn view(&self) -> ReadOptionsView {
        ReadOptionsView {
            validate_crc: self.validate_crc,
            validate_index: self.validate_index,
            validate_name_length: self.validate_name_length,
            validate_name_count: self.validate_name_count,
            validate_names_unique: self.validate_names_unique,
            validate_file_start_data_start: self.validate_file_start_data_start,
            validate_consistent_encryption: self.validate_consistent_encryption,
            validate_file_complete: self.validate_file_complete,
            key: match self.key {
                Some(k) => Some(k@),
                None => None,
            },
        }
    }
}

/// The default options: every validation on, no key.
pub open spec fn default_read_options() -> ReadOptionsView {
    ReadOptionsView {
        validate_crc: true,
        validate_index: true,
        validate_name_length: true,
        validate_name_count: true,
        validate_names_unique: true,
        validate_file_start_data_start: true,
        validate_consistent_encryption: true,
        validate_file_complete: true,
        key: None,
    }
}

impl MegReadOptions {
    /// Create the default options: every validation on, no key.
    pub fn new() -> (r: Self)
        ensures
            r@ == default_read_options(),
    {
        MegReadOptions {
            validate_crc: true,
            validate_index: true,
            validate_name_length: true,
            validate_names_unique: true,
            validate_name_count: true,
            validate_file_start_data_start: true,
            validate_consistent_encryption: true,
            validate_file_complete: true,
            key: None,
        }
    }

    /// Set the crypto key used for reading.
    pub fn set_key(&mut self, key: Option<Key>) -> (r: &mut Self)
        ensures
            (*r)@ == (ReadOptionsView {
                key: match key {
                    Some(k) => Some(k@),
                    None => None,
                },
                ..old(self)@
            }),
            *final(self) == *final(r),
    {
        self.key = key;
        self
    }

    /// The key used for reading, if any.
    pub fn key(&self) -> (r: Option<&Key>)
        ensures
            match r {
                Some(k) => self@.key == Some(k@),
                None => self@.key is None,
            },
    {
        match &self.key {
            Some(k) => Some(k),
            None => None,
        }
    }

    /// Whether extracting a file whose contents are cut short is an error.
    pub fn validate_file_complete(&self) -> (r: bool)
        ensures
            r == self@.validate_file_complete,
    {
        self.validate_file_complete
    }
}

impl Default for MegReadOptions {
    fn default() -> (r: Self)
        ensures
            r@ == default_read_options(),
    {
        Self::new()
    }
}

/// Errors from reading MEGA file metadata.
#[derive(Debug, Clone, Copy, PartialEq, Eq, Structural)]
pub enum MegReadError {
    /// The data ended before a field that had to be read.
    UnexpectedEof,
    /// For V2 or V3, the first two words were not recognized as the correct file id.
    InvalidFileId { id1: u32, id2: u32 },
    /// The header marked the file as encrypted, but no key was provided to decrypt it.
    MissingKey,
    /// The number of files listed differs from the number of file names.
    NameFileCountMismatch { num_filenames: u32, num_files: u32 },
    /// A name exceeded the Windows 260 character limit.
    NameTooLong { name_index: u32, name_len: usize },
    /// A name was not a valid MEGA path.
    InvalidName { name_index: u32, path_error: MegPathError },
    /// A V3 file record had a flags value other than 0 or 1.
    InvalidFileFlags { file_index: u32, flags: u16 },
    /// A V3 file record's encryption flag didn't match the containing MEGA file.
    MismatchedEncryption { file_index: u32, meg_encrypted: bool, record_encrypted: bool },
    /// A file record specified a different index than its position.
    InvalidFileIndex { file_index: u32, index_from_record: u32 },
    /// A file record referenced a name index past the names table.
    NameIndexOutOfRange { file_index: u32, name_index: u32, num_names: u32 },
    /// A file record referenced a name that another file already used.
    NameAlreadyUsed { file_index: u32, name_index: u32, num_names: u32 },
    /// A file record's CRC did not match the CRC-32 of its name.
    InvalidCrc { file_index: u32, expected_crc: u32, actual_crc: u32 },
    /// A file record started before the header's data section start.
    FileBelowDataStart { file_index: u32, file_start: u32, data_start: u32 },
}

/// The header of a MEGA file, as read.
#[derive(Debug, Clone, Copy, PartialEq, Eq, Structural)]
pub struct MegHeader {
    /// The version that the rest of the file is read as.
    pub version: MegVersion,
    /// Whether the names table and file records are encrypted (V3 only).
    pub encrypted: bool,
    /// Start of the data section (V2 and V3; 0 for V1).
    pub data_start: u32,
    /// Number of names in the names table.
    pub num_filenames: u32,
    /// Number of records in the file table.
    pub num_files: u32,
    /// Size in bytes of the names table (V3 only; 0 otherwise).
    pub filenames_size: u32,
}

/// A raw file record, not yet interpreted.
#[derive(Debug, Clone, Copy, PartialEq, Eq, Structural)]
pub struct FileRecord {
    /// Encryption flag. Only V3 files set it.
    pub encrypted: bool,
    /// CRC-32 of the filename.
    pub crc: u32,
    /// Index of this record in the records table.
    pub index: u32,
    /// Size of this file in the data section.
    pub size: u32,
    /// Start of this file relative to the start of the MEGA file.
    pub start: u32,
    /// Index of the name in the names table.
    pub name: u32,
}

/// A file entry as plain values.
pub struct FileEntryView {
    pub name: Seq<u8>,
    pub start: u32,
    pub size: u32,
    pub encrypted: bool,
}

/// Entry for a file read from the files table of a MEGA file.
pub struct FileEntry {
    /// The path of the file.
    name: MegPathBuf,
    /// Start offset of this file within the MEGA file.
    start: u32,
    /// Size of this file within the MEGA file.
    size: u32,
    /// Whether this file is encrypted.
    encrypted: bool,
}

impl View for FileEntry {
    type V = FileEntryView;

    closed spec fn view(&self) -> FileEntryView {
        FileEntryView {
            name: self.name@,
            start: self.start,
            size: self.size,
            encrypted: self.encrypted,
        }
    }
}

/// The plain values of a list of entries.
pub open spec fn entries_view(v: Seq<FileEntry>) -> Seq<FileEntryView> {
    v.map_values(|e: FileEntry| e@)
}

/// Forgets that a position was a `usize`.
pub open spec fn lift<T>(r: Result<(T, usize), MegReadError>) -> Result<(T, int), MegReadError> {
    match r {
        Ok((v, p)) => Ok((v, p as int)),
        Err(e) => Err(e),
    }
}

/// Reads a `u16` at `pos`, or fails at the end of the data.
pub open spec fn spec_take_u16(s: Seq<u8>, pos: int) -> Result<(u16, int), MegReadError> {
    if 0 <= pos && pos + 2 <= s.len() {
        Ok((spec_u16_le(s, pos), pos + 2))
    } else {
        Err(MegReadError::UnexpectedEof)
    }
}

/// Reads a `u32` at `pos`, or fails at the end of the data.
pub open spec fn spec_take_u32(s: Seq<u8>, pos: int) -> Result<(u32, int), MegReadError> {
    if 0 <= pos && pos + 4 <= s.len() {
        Ok((spec_u32_le(s, pos), pos + 4))
    } else {
        Err(MegReadError::UnexpectedEof)
    }
}

fn take_u16(b: &[u8], pos: usize) -> (r: Result<(u16, usize), MegReadError>)
    ensures
        lift(r) == spec_take_u16(b@, pos as int),
        r matches Ok((_, p)) ==> p <= b@.len(),
{
    if pos <= b.len() && b.len() - pos >= 2 {
        Ok((read_u16_le(b, pos), pos + 2))
    } else {
        Err(MegReadError::UnexpectedEof)
    }
}

fn take_u32(b: &[u8], pos: usize) -> (r: Result<(u32, usize), MegReadError>)
    ensures
        lift(r) == spec_take_u32(b@, pos as int),
        r matches Ok((_, p)) ==> p <= b@.len(),
{
    if pos <= b.len() && b.len() - pos >= 4 {
        Ok((read_u32_le(b, pos), pos + 4))
    } else {
        Err(MegReadError::UnexpectedEof)
    }
}


/// True when every byte could belong to a path: a separator or a valid component character.
pub open spec fn spec_is_valid_path_chars(s: Seq<u8>) -> bool {
    forall|i: int| 0 <= i < s.len() ==> spec_is_dir_separator(#[trigger] s[i])
        || spec_is_valid_component(s[i])
}

/// True when every byte could belong to a path: a separator or a valid component character.
pub fn is_valid_path_chars(s: &[u8]) -> (r: bool)
    ensures
        r == spec_is_valid_path_chars(s@),
{
    let mut i: usize = 0;
    while i < s.len()
        invariant
            0 <= i <= s@.len(),
            forall|j: int| 0 <= j < i ==> spec_is_dir_separator(#[trigger] s@[j])
                || spec_is_valid_component(s@[j]),
        decreases s@.len() - i,
    {
        if !is_dir_separator(s[i]) && !is_valid_component(s[i]) {
            return false;
        }
        i = i + 1;
    }
    true
}

/// The header of a MEGA file as `mode` reads it (`None` guesses the version), with the position
/// where the names table starts.
///
/// V1 is two words: the number of names and of files. V2 is `0xFFFFFFFF`, [`ID2`], the data
/// start, the number of names and of files. V3 is like V2 but starts with `0x8FFFFFFF` when
/// encrypted and adds the size of the names table. Guessing takes V1 when the first two words are
/// equal; V3 when the file is encrypted; otherwise V3 when the two words after the V2 header do
/// not look like the start of a name (a length over 260 or two bytes that cannot occur in a path),
/// and V2 when they do.
pub open spec fn spec_read_header(mode: Option<MegVersion>, b: Seq<u8>, has_key: bool) -> Result<
    (MegHeader, int),
    MegReadError,
> {
    if b.len() < 8 {
        Err(MegReadError::UnexpectedEof)
    } else {
        let w0 = spec_u32_le(b, 0);
        let w1 = spec_u32_le(b, 4);
        match mode {
            Some(MegVersion::V1) => Ok(
                (
                    MegHeader {
                        version: MegVersion::V1,
                        encrypted: false,
                        data_start: 0,
                        num_filenames: w0,
                        num_files: w1,
                        filenames_size: 0,
                    },
                    8,
                ),
            ),
            Some(MegVersion::V2) => if w0 != ID_PLAIN || w1 != ID2 {
                Err(MegReadError::InvalidFileId { id1: w0, id2: w1 })
            } else if b.len() < 20 {
                Err(MegReadError::UnexpectedEof)
            } else {
                Ok(
                    (
                        MegHeader {
                            version: MegVersion::V2,
                            encrypted: false,
                            data_start: spec_u32_le(b, 8),
                            num_filenames: spec_u32_le(b, 12),
                            num_files: spec_u32_le(b, 16),
                            filenames_size: 0,
                        },
                        20,
                    ),
                )
            },
            Some(MegVersion::V3) => if (w0 != ID_PLAIN && w0 != ID_ENCRYPTED) || w1 != ID2 {
                Err(MegReadError::InvalidFileId { id1: w0, id2: w1 })
            } else if w0 == ID_ENCRYPTED && !has_key {
                Err(MegReadError::MissingKey)
            } else if b.len() < 24 {
                Err(MegReadError::UnexpectedEof)
            } else {
                Ok(
                    (
                        MegHeader {
                            version: MegVersion::V3,
                            encrypted: w0 == ID_ENCRYPTED,
                            data_start: spec_u32_le(b, 8),
                            num_filenames: spec_u32_le(b, 12),
                            num_files: spec_u32_le(b, 16),
                            filenames_size: spec_u32_le(b, 20),
                        },
                        24,
                    ),
                )
            },
            None => if w0 == w1 {
                Ok(
                    (
                        MegHeader {
                            version: MegVersion::V1,
                            encrypted: false,
                            data_start: 0,
                            num_filenames: w0,
                            num_files: w1,
                            filenames_size: 0,
                        },
                        8,
                    ),
                )
            } else if (w0 != ID_PLAIN && w0 != ID_ENCRYPTED) || w1 != ID2 {
                Err(MegReadError::InvalidFileId { id1: w0, id2: w1 })
            } else if b.len() < 20 {
                Err(MegReadError::UnexpectedEof)
            } else if w0 == ID_ENCRYPTED && !has_key {
                Err(MegReadError::MissingKey)
            } else if b.len() < 24 {
                Err(MegReadError::UnexpectedEof)
            } else if w0 == ID_ENCRYPTED || spec_u16_le(b, 20) > 260 || !spec_is_valid_path_chars(
                b.subrange(22, 24),
            ) {
                Ok(
                    (
                        MegHeader {
                            version: MegVersion::V3,
                            encrypted: w0 == ID_ENCRYPTED,
                            data_start: spec_u32_le(b, 8),
                            num_filenames: spec_u32_le(b, 12),
                            num_files: spec_u32_le(b, 16),
                            filenames_size: spec_u32_le(b, 20),
                        },
                        24,
                    ),
                )
            } else {
                Ok(
                    (
                        MegHeader {
                            version: MegVersion::V2,
                            encrypted: false,
                            data_start: spec_u32_le(b, 8),
                            num_filenames: spec_u32_le(b, 12),
                            num_files: spec_u32_le(b, 16),
                            filenames_size: 0,
                        },
                        20,
                    ),
                )
            },
        }
    }
}

/// Reads the header of a MEGA file; see [`spec_read_header`].
pub fn read_header(mode: Option<MegVersion>, b: &[u8], options: &MegReadOptions) -> (r: Result<
    (MegHeader, usize),
    MegReadError,
>)
    ensures
        lift(r) == spec_read_header(mode, b@, options@.key is Some),
        r matches Ok((_, p)) ==> p <= b@.len(),
{
    let has_key = options.key.is_some();
    if b.len() < 8 {
        return Err(MegReadError::UnexpectedEof);
    }
    let w0 = read_u32_le(b, 0);
    let w1 = read_u32_le(b, 4);
    match mode {
        Some(MegVersion::V1) => Ok(
            (
                MegHeader {
                    version: MegVersion::V1,
                    encrypted: false,
                    data_start: 0,
                    num_filenames: w0,
                    num_files: w1,
                    filenames_size: 0,
                },
                8,
            ),
        ),
        Some(MegVersion::V2) => {
            if w0 != ID_PLAIN || w1 != ID2 {
                return Err(MegReadError::InvalidFileId { id1: w0, id2: w1 });
            }
            if b.len() < 20 {
                return Err(MegReadError::UnexpectedEof);
            }
            Ok(
                (
                    MegHeader {
                        version: MegVersion::V2,
                        encrypted: false,
                        data_start: read_u32_le(b, 8),
                        num_filenames: read_u32_le(b, 12),
                        num_files: read_u32_le(b, 16),
                        filenames_size: 0,
                    },
                    20,
                ),
            )
        },
        Some(MegVersion::V3) => {
            if (w0 != ID_PLAIN && w0 != ID_ENCRYPTED) || w1 != ID2 {
                return Err(MegReadError::InvalidFileId { id1: w0, id2: w1 });
            }
            if w0 == ID_ENCRYPTED && !has_key {
                return Err(MegReadError::MissingKey);
            }
            if b.len() < 24 {
                return Err(MegReadError::UnexpectedEof);
            }
            Ok(
                (
                    MegHeader {
                        version: MegVersion::V3,
                        encrypted: w0 == ID_ENCRYPTED,
                        data_start: read_u32_le(b, 8),
                        num_filenames: read_u32_le(b, 12),
                        num_files: read_u32_le(b, 16),
                        filenames_size: read_u32_le(b, 20),
                    },
                    24,
                ),
            )
        },
        None => {
            if w0 == w1 {
                return Ok(
                    (
                        MegHeader {
                            version: MegVersion::V1,
                            encrypted: false,
                            data_start: 0,
                            num_filenames: w0,
                            num_files: w1,
                            filenames_size: 0,
                        },
                        8,
                    ),
                );
            }
            if (w0 != ID_PLAIN && w0 != ID_ENCRYPTED) || w1 != ID2 {
                return Err(MegReadError::InvalidFileId { id1: w0, id2: w1 });
            }
            if b.len() < 20 {
                return Err(MegReadError::UnexpectedEof);
            }
            if w0 == ID_ENCRYPTED && !has_key {
                return Err(MegReadError::MissingKey);
            }
            if b.len() < 24 {
                return Err(MegReadError::UnexpectedEof);
            }
            let data_start = read_u32_le(b, 8);
            let num_filenames = read_u32_le(b, 12);
            let num_files = read_u32_le(b, 16);
            let peek = vstd::slice::slice_subrange(b, 22, 24);
            if w0 == ID_ENCRYPTED || read_u16_le(b, 20) as usize > WIN_PATH_LIMIT
                || !is_valid_path_chars(peek) {
                Ok(
                    (
                        MegHeader {
                            version: MegVersion::V3,
                            encrypted: w0 == ID_ENCRYPTED,
                            data_start,
                            num_filenames,
                            num_files,
                            filenames_size: read_u32_le(b, 20),
                        },
                        24,
                    ),
                )
            } else {
                Ok(
                    (
                        MegHeader {
                            version: MegVersion::V2,
                            encrypted: false,
                            data_start,
                            num_filenames,
                            num_files,
                            filenames_size: 0,
                        },
                        20,
                    ),
                )
            }
        },
    }
}

/// Reads the name record at `pos` of `buf`: a `u16` length and that many bytes, which must form a
/// valid path. A length over 260 is an error when name lengths are validated.
pub open spec fn spec_read_name(buf: Seq<u8>, pos: int, name_index: u32, opts: ReadOptionsView) -> Result<
    (Seq<u8>, int),
    MegReadError,
> {
    match spec_take_u16(buf, pos) {
        Err(e) => Err(e),
        Ok((len, p)) => if len > 260 && opts.validate_name_length {
            Err(MegReadError::NameTooLong { name_index, name_len: len as usize })
        } else if p + len > buf.len() {
            Err(MegReadError::UnexpectedEof)
        } else {
            let raw = buf.subrange(p, p + len);
            match spec_validate_path(raw) {
                Ok(_) => Ok((raw, p + len)),
                Err(pe) => Err(MegReadError::InvalidName { name_index, path_error: pe }),
            }
        },
    }
}

/// Reads the names with indexes `idx..n` from `pos` on, after the names `acc` already read.
pub open spec fn spec_read_names_from(
    buf: Seq<u8>,
    pos: int,
    idx: int,
    n: int,
    acc: Seq<Seq<u8>>,
    opts: ReadOptionsView,
) -> Result<(Seq<Seq<u8>>, int), MegReadError>
    decreases n - idx,
{
    if idx >= n {
        Ok((acc, pos))
    } else {
        match spec_read_name(buf, pos, idx as u32, opts) {
            Err(e) => Err(e),
            Ok((name, p)) => spec_read_names_from(buf, p, idx + 1, n, acc.push(name), opts),
        }
    }
}

/// The plain values of a list of paths.
pub open spec fn paths_view(v: Seq<MegPathBuf>) -> Seq<Seq<u8>> {
    v.map_values(|p: MegPathBuf| p@)
}

/// Reads one name record; see [`spec_read_name`].
fn read_name(buf: &[u8], pos: usize, name_index: u32, options: &MegReadOptions) -> (r: Result<
    (MegPathBuf, usize),
    MegReadError,
>)
    requires
        pos <= buf@.len(),
    ensures
        match r {
            Ok((name, p)) => spec_read_name(buf@, pos as int, name_index, options@) == Ok::<
                (Seq<u8>, int),
                MegReadError,
            >((name@, p as int)) && p <= buf@.len(),
            Err(e) => spec_read_name(buf@, pos as int, name_index, options@) == Err::<
                (Seq<u8>, int),
                MegReadError,
            >(e),
        },
{
    let (len, p) = match take_u16(buf, pos) {
        Ok(x) => x,
        Err(e) => return Err(e),
    };
    if len as usize > WIN_PATH_LIMIT && options.validate_name_length {
        return Err(MegReadError::NameTooLong { name_index, name_len: len as usize });
    }
    if buf.len() - p < len as usize {
        return Err(MegReadError::UnexpectedEof);
    }
    let end = p + len as usize;
    let raw = vstd::slice::slice_to_vec(vstd::slice::slice_subrange(buf, p, end));
    proof {
        crate::path::lemma_validate_ok_iff_valid(raw@);
    }
    match MegPathBuf::from_vec(raw) {
        Ok(name) => Ok((name, end)),
        Err(path_error) => Err(MegReadError::InvalidName { name_index, path_error }),
    }
}

/// Reads `n` name records from `pos` on; see [`spec_read_names_from`].
pub fn read_names(buf: &[u8], pos: usize, n: u32, options: &MegReadOptions) -> (r: Result<
    (Vec<MegPathBuf>, usize),
    MegReadError,
>)
    requires
        pos <= buf@.len(),
    ensures
        match r {
            Ok((names, p)) => spec_read_names_from(
                buf@,
                pos as int,
                0,
                n as int,
                Seq::empty(),
                options@,
            ) == Ok::<(Seq<Seq<u8>>, int), MegReadError>((paths_view(names@), p as int)) && p
                <= buf@.len(),
            Err(e) => spec_read_names_from(buf@, pos as int, 0, n as int, Seq::empty(), options@)
                == Err::<(Seq<Seq<u8>>, int), MegReadError>(e),
        },
{
    let mut names: Vec<MegPathBuf> = Vec::new();
    let mut cur = pos;
    let mut idx: u32 = 0;
    assert(paths_view(names@) =~= Seq::<Seq<u8>>::empty());
    while idx < n
        invariant
            cur <= buf@.len(),
            idx <= n,
            spec_read_names_from(buf@, pos as int, 0, n as int, Seq::empty(), options@)
                == spec_read_names_from(
                buf@,
                cur as int,
                idx as int,
                n as int,
                paths_view(names@),
                options@,
            ),
        decreases n - idx,
    {
        match read_name(buf, cur, idx, options) {
            Ok((name, p)) => {
                let ghost before = paths_view(names@);
                let ghost nv = name@;
                names.push(name);
                assert(paths_view(names@) =~= before.push(nv));
                cur = p;
            },
            Err(e) => {
                return Err(e);
            },
        }
        idx = idx + 1;
    }
    Ok((names, cur))
}


/// A V1 or V2 file record at `p`: CRC, index, size, start and name index, five `u32` words.
pub open spec fn spec_parse_record_v1v2(b: Seq<u8>, p: int) -> FileRecord {
    FileRecord {
        encrypted: false,
        crc: spec_u32_le(b, p),
        index: spec_u32_le(b, p + 4),
        size: spec_u32_le(b, p + 8),
        start: spec_u32_le(b, p + 12),
        name: spec_u32_le(b, p + 16),
    }
}

/// The body of a V3 file record at `p`: like V1 and V2 but with a `u16` name index.
pub open spec fn spec_parse_record_v3(b: Seq<u8>, p: int, encrypted: bool) -> FileRecord {
    FileRecord {
        encrypted,
        crc: spec_u32_le(b, p),
        index: spec_u32_le(b, p + 4),
        size: spec_u32_le(b, p + 8),
        start: spec_u32_le(b, p + 12),
        name: spec_u16_le(b, p + 16) as u32,
    }
}

/// Accepts a record unless it starts before the data section and that is validated.
pub open spec fn spec_check_data_start(
    h: MegHeader,
    rec: FileRecord,
    file_index: u32,
    opts: ReadOptionsView,
    next: int,
) -> Result<(FileRecord, int), MegReadError> {
    if rec.start < h.data_start && opts.validate_file_start_data_start {
        Err(
            MegReadError::FileBelowDataStart {
                file_index,
                file_start: rec.start,
                data_start: h.data_start,
            },
        )
    } else {
        Ok((rec, next))
    }
}

/// Reads the file record at `pos`, with the position after it.
///
/// V1 and V2 records are 20 bytes. A V3 record is a `u16` flags word (0 plain, 1 encrypted)
/// followed by an 18 byte body, or, when encrypted, by 32 bytes that decrypt to the body.
pub open spec fn spec_read_record(
    h: MegHeader,
    b: Seq<u8>,
    pos: int,
    file_index: u32,
    opts: ReadOptionsView,
) -> Result<(FileRecord, int), MegReadError> {
    match h.version {
        MegVersion::V1 => if pos + 20 > b.len() {
            Err(MegReadError::UnexpectedEof)
        } else {
            Ok((spec_parse_record_v1v2(b, pos), pos + 20))
        },
        MegVersion::V2 => if pos + 20 > b.len() {
            Err(MegReadError::UnexpectedEof)
        } else {
            spec_check_data_start(h, spec_parse_record_v1v2(b, pos), file_index, opts, pos + 20)
        },
        MegVersion::V3 => match spec_take_u16(b, pos) {
            Err(e) => Err(e),
            Ok((flags, p)) => if flags != 0 && flags != 1 {
                Err(MegReadError::InvalidFileFlags { file_index, flags })
            } else if (flags == 1) != h.encrypted && opts.validate_consistent_encryption {
                Err(
                    MegReadError::MismatchedEncryption {
                        file_index,
                        meg_encrypted: h.encrypted,
                        record_encrypted: flags == 1,
                    },
                )
            } else if flags == 1 {
                match opts.key {
                    None => Err(MegReadError::MissingKey),
                    Some(k) => if p + 32 > b.len() {
                        Err(MegReadError::UnexpectedEof)
                    } else {
                        let plain = aes128_cbc_decrypt(k.0, k.1, b.subrange(p, p + 32));
                        spec_check_data_start(
                            h,
                            spec_parse_record_v3(plain, 0, true),
                            file_index,
                            opts,
                            p + 32,
                        )
                    },
                }
            } else if p + 18 > b.len() {
                Err(MegReadError::UnexpectedEof)
            } else {
                spec_check_data_start(h, spec_parse_record_v3(b, p, false), file_index, opts, p + 18)
            },
        },
    }
}

fn parse_record_v1v2(b: &[u8], p: usize) -> (r: FileRecord)
    requires
        p + 20 <= b@.len(),
    ensures
        r == spec_parse_record_v1v2(b@, p as int),
{
    let _n = b.len();
    FileRecord {
        encrypted: false,
        crc: read_u32_le(b, p),
        index: read_u32_le(b, p + 4),
        size: read_u32_le(b, p + 8),
        start: read_u32_le(b, p + 12),
        name: read_u32_le(b, p + 16),
    }
}

fn parse_record_v3(b: &[u8], p: usize, encrypted: bool) -> (r: FileRecord)
    requires
        p + 18 <= b@.len(),
    ensures
        r == spec_parse_record_v3(b@, p as int, encrypted),
{
    let _n = b.len();
    FileRecord {
        encrypted,
        crc: read_u32_le(b, p),
        index: read_u32_le(b, p + 4),
        size: read_u32_le(b, p + 8),
        start: read_u32_le(b, p + 12),
        name: read_u16_le(b, p + 16) as u32,
    }
}

fn check_data_start(
    h: &MegHeader,
    rec: FileRecord,
    file_index: u32,
    options: &MegReadOptions,
    next: usize,
) -> (r: Result<(FileRecord, usize), MegReadError>)
    ensures
        lift(r) == spec_check_data_start(*h, rec, file_index, options@, next as int),
        r matches Ok((_, p)) ==> p == next,
{
    if rec.start < h.data_start && options.validate_file_start_data_start {
        Err(
            MegReadError::FileBelowDataStart {
                file_index,
                file_start: rec.start,
                data_start: h.data_start,
            },
        )
    } else {
        Ok((rec, next))
    }
}

/// Reads the file record at `pos`; see [`spec_read_record`].
pub fn read_file_record(
    h: &MegHeader,
    b: &[u8],
    pos: usize,
    file_index: u32,
    options: &MegReadOptions,
) -> (r: Result<(FileRecord, usize), MegReadError>)
    requires
        pos <= b@.len(),
    ensures
        lift(r) == spec_read_record(*h, b@, pos as int, file_index, options@),
        r matches Ok((_, p)) ==> p <= b@.len(),
{
    match h.version {
        MegVersion::V1 => {
            if b.len() - pos < 20 {
                return Err(MegReadError::UnexpectedEof);
            }
            Ok((parse_record_v1v2(b, pos), pos + 20))
        },
        MegVersion::V2 => {
            if b.len() - pos < 20 {
                return Err(MegReadError::UnexpectedEof);
            }
            check_data_start(h, parse_record_v1v2(b, pos), file_index, options, pos + 20)
        },
        MegVersion::V3 => {
            let (flags, p) = match take_u16(b, pos) {
                Ok(x) => x,
                Err(e) => return Err(e),
            };
            if flags != 0 && flags != 1 {
                return Err(MegReadError::InvalidFileFlags { file_index, flags });
            }
            let encrypted = flags == 1;
            if encrypted != h.encrypted && options.validate_consistent_encryption {
                return Err(
                    MegReadError::MismatchedEncryption {
                        file_index,
                        meg_encrypted: h.encrypted,
                        record_encrypted: encrypted,
                    },
                );
            }
            if encrypted {
                let key = match &options.key {
                    Some(k) => k,
                    None => return Err(MegReadError::MissingKey),
                };
                if b.len() - p < 32 {
                    return Err(MegReadError::UnexpectedEof);
                }
                let plain = cbc_decrypt(key, vstd::slice::slice_subrange(b, p, p + 32));
                let rec = parse_record_v3(plain.as_slice(), 0, true);
                check_data_start(h, rec, file_index, options, p + 32)
            } else {
                if b.len() - p < 18 {
                    return Err(MegReadError::UnexpectedEof);
                }
                check_data_start(h, parse_record_v3(b, p, false), file_index, options, p + 18)
            }
        },
    }
}

/// The names table of a MEGA file, with the position of the file table after it.
///
/// V1 and V2 names follow the header directly. V3 names sit in a block of `filenames_size` bytes;
/// when the file is encrypted, the whole blocks of it are decrypted first, and the names are read
/// from the plaintext. The block must lie within the data.
pub open spec fn spec_names_section(h: MegHeader, b: Seq<u8>, pos: int, opts: ReadOptionsView) -> Result<
    (Seq<Seq<u8>>, int),
    MegReadError,
> {
    if h.version == MegVersion::V3 {
        let end = pos + h.filenames_size;
        let avail = if end <= b.len() {
            end
        } else {
            b.len() as int
        };
        let region = b.subrange(pos, avail);
        if h.encrypted && opts.key is None {
            Err(MegReadError::MissingKey)
        } else {
            let buf = if h.encrypted {
                aes128_cbc_decrypt(
                    opts.key->Some_0.0,
                    opts.key->Some_0.1,
                    region.subrange(0, spec_round_down_to_block(region.len() as int)),
                )
            } else {
                region
            };
            match spec_read_names_from(buf, 0, 0, h.num_filenames as int, Seq::empty(), opts) {
                Err(e) => Err(e),
                Ok((names, _)) => if end > b.len() {
                    Err(MegReadError::UnexpectedEof)
                } else {
                    Ok((names, end))
                },
            }
        }
    } else {
        spec_read_names_from(b, pos, 0, h.num_filenames as int, Seq::empty(), opts)
    }
}

/// Reads the names table; see [`spec_names_section`].
fn read_names_section(h: &MegHeader, b: &[u8], pos: usize, options: &MegReadOptions) -> (r:
    Result<(Vec<MegPathBuf>, usize), MegReadError>)
    requires
        pos <= b@.len(),
    ensures
        match r {
            Ok((names, p)) => spec_names_section(*h, b@, pos as int, options@) == Ok::<
                (Seq<Seq<u8>>, int),
                MegReadError,
            >((paths_view(names@), p as int)) && p <= b@.len(),
            Err(e) => spec_names_section(*h, b@, pos as int, options@) == Err::<
                (Seq<Seq<u8>>, int),
                MegReadError,
            >(e),
        },
{
    match h.version {
        MegVersion::V3 => {
            let size = h.filenames_size as usize;
            let complete = size <= b.len() - pos;
            let avail = if complete {
                pos + size
            } else {
                b.len()
            };
            let region = vstd::slice::slice_subrange(b, pos, avail);
            let names = if h.encrypted {
                let key = match &options.key {
                    Some(k) => k,
                    None => return Err(MegReadError::MissingKey),
                };
                let whole = round_down_to_block(region.len());
                let plain = cbc_decrypt(key, vstd::slice::slice_subrange(region, 0, whole));
                match read_names(plain.as_slice(), 0, h.num_filenames, options) {
                    Ok((names, _)) => names,
                    Err(e) => return Err(e),
                }
            } else {
                match read_names(region, 0, h.num_filenames, options) {
                    Ok((names, _)) => names,
                    Err(e) => return Err(e),
                }
            };
            if !complete {
                return Err(MegReadError::UnexpectedEof);
            }
            Ok((names, pos + size))
        },
        _ => read_names(b, pos, h.num_filenames, options),
    }
}

/// The plain values of a names table in which used names may have been taken out.
pub open spec fn opt_paths_view(v: Seq<Option<MegPathBuf>>) -> Seq<Option<Seq<u8>>> {
    v.map_values(
        |o: Option<MegPathBuf>|
            match o {
                Some(p) => Some(p@),
                None => None,
            },
    )
}

/// Reads the file records with indexes `idx..num_files` from `pos` on, with the names still
/// available in `names` and the entries `acc` already read.
///
/// Each record must carry its own index (when validated) and a name index within the table;
/// with unique names validated, each name may be used once. The CRC of the name must match the
/// record's (when validated).
pub open spec fn spec_read_files_from(
    h: MegHeader,
    b: Seq<u8>,
    pos: int,
    idx: int,
    names: Seq<Option<Seq<u8>>>,
    acc: Seq<FileEntryView>,
    opts: ReadOptionsView,
) -> Result<Seq<FileEntryView>, MegReadError>
    decreases h.num_files - idx,
{
    if idx >= h.num_files {
        Ok(acc)
    } else {
        let file_index = idx as u32;
        match spec_read_record(h, b, pos, file_index, opts) {
            Err(e) => Err(e),
            Ok((rec, p)) => if rec.index != file_index && opts.validate_index {
                Err(MegReadError::InvalidFileIndex { file_index, index_from_record: rec.index })
            } else if rec.name >= names.len() {
                Err(
                    MegReadError::NameIndexOutOfRange {
                        file_index,
                        name_index: rec.name,
                        num_names: h.num_filenames,
                    },
                )
            } else if opts.validate_names_unique && names[rec.name as int] is None {
                Err(
                    MegReadError::NameAlreadyUsed {
                        file_index,
                        name_index: rec.name,
                        num_names: h.num_filenames,
                    },
                )
            } else {
                let name = names[rec.name as int]->Some_0;
                let rest = if opts.validate_names_unique {
                    names.update(rec.name as int, None)
                } else {
                    names
                };
                if rec.crc != crc32(name) && opts.validate_crc {
                    Err(
                        MegReadError::InvalidCrc {
                            file_index,
                            expected_crc: rec.crc,
                            actual_crc: crc32(name),
                        },
                    )
                } else {
                    spec_read_files_from(
                        h,
                        b,
                        p,
                        idx + 1,
                        rest,
                        acc.push(
                            FileEntryView {
                                name,
                                start: rec.start,
                                size: rec.size,
                                encrypted: rec.encrypted,
                            },
                        ),
                        opts,
                    )
                }
            },
        }
    }
}

/// The metadata of the MEGA file in `b`, as `mode` reads it (`None` guesses the version): the
/// header, a check that the numbers of names and files agree (when validated), the names table,
/// then the file records.
pub open spec fn spec_read_meg_meta(mode: Option<MegVersion>, b: Seq<u8>, opts: ReadOptionsView) -> Result<
    Seq<FileEntryView>,
    MegReadError,
> {
    match spec_read_header(mode, b, opts.key is Some) {
        Err(e) => Err(e),
        Ok((h, p)) => if h.num_filenames != h.num_files && opts.validate_name_count {
            Err(
                MegReadError::NameFileCountMismatch {
                    num_filenames: h.num_filenames,
                    num_files: h.num_files,
                },
            )
        } else {
            match spec_names_section(h, b, p, opts) {
                Err(e) => Err(e),
                Ok((names, p2)) => spec_read_files_from(
                    h,
                    b,
                    p2,
                    0,
                    names.map_values(|n: Seq<u8>| Some(n)),
                    Seq::empty(),
                    opts,
                ),
            }
        },
    }
}

/// Whether a read result agrees with the specified one.
pub open spec fn read_matches(
    r: Result<Vec<FileEntry>, MegReadError>,
    s: Result<Seq<FileEntryView>, MegReadError>,
) -> bool {
    match r {
        Ok(v) => s == Ok::<Seq<FileEntryView>, MegReadError>(entries_view(v@)),
        Err(e) => s == Err::<Seq<FileEntryView>, MegReadError>(e),
    }
}

/// Reads the metadata of the MEGA file in `bytes`; see [`spec_read_meg_meta`].
pub fn read_meg_meta_bytes(mode: Option<MegVersion>, bytes: &[u8], options: &MegReadOptions) -> (r:
    Result<Vec<FileEntry>, MegReadError>)
    ensures
        read_matches(r, spec_read_meg_meta(mode, bytes@, options@)),
{
    let (h, pos) = match read_header(mode, bytes, options) {
        Ok(x) => x,
        Err(e) => return Err(e),
    };
    if h.num_filenames != h.num_files && options.validate_name_count {
        return Err(
            MegReadError::NameFileCountMismatch {
                num_filenames: h.num_filenames,
                num_files: h.num_files,
            },
        );
    }
    let (name_list, pos2) = match read_names_section(&h, bytes, pos, options) {
        Ok(x) => x,
        Err(e) => return Err(e),
    };
    let mut names: Vec<Option<MegPathBuf>> = Vec::new();
    let ghost all = paths_view(name_list@);
    let mut k: usize = 0;
    while k < name_list.len()
        invariant
            all == paths_view(name_list@),
            0 <= k <= name_list@.len(),
            names@.len() == k,
            forall|i: int|
                0 <= i < k ==> #[trigger] names@[i] is Some && names@[i]->Some_0@ == all[i],
        decreases name_list@.len() - k,
    {
        names.push(Some(name_list[k].clone()));
        k = k + 1;
    }
    assert(opt_paths_view(names@) =~= all.map_values(|n: Seq<u8>| Some(n)));
    let mut files: Vec<FileEntry> = Vec::new();
    let mut cur = pos2;
    let mut idx: u32 = 0;
    assert(entries_view(files@) =~= Seq::<FileEntryView>::empty());
    while idx < h.num_files
        invariant
            cur <= bytes@.len(),
            idx <= h.num_files,
            spec_read_meg_meta(mode, bytes@, options@) == spec_read_files_from(
                h,
                bytes@,
                cur as int,
                idx as int,
                opt_paths_view(names@),
                entries_view(files@),
                options@,
            ),
            !options@.validate_names_unique ==> forall|i: int|
                0 <= i < names@.len() ==> #[trigger] names@[i] is Some,
        decreases h.num_files - idx,
    {
        let (rec, p) = match read_file_record(&h, bytes, cur, idx, options) {
            Ok(x) => x,
            Err(e) => return Err(e),
        };
        if rec.index != idx && options.validate_index {
            return Err(MegReadError::InvalidFileIndex { file_index: idx, index_from_record: rec.index });
        }
        if rec.name as usize >= names.len() {
            return Err(
                MegReadError::NameIndexOutOfRange {
                    file_index: idx,
                    name_index: rec.name,
                    num_names: h.num_filenames,
                },
            );
        }
        let ni = rec.name as usize;
        let name = if options.validate_names_unique {
            let mut taken: Option<MegPathBuf> = None;
            let ghost before_names = names@;
            names.set_and_swap(ni, &mut taken);
            assert(opt_paths_view(names@) =~= opt_paths_view(before_names).update(
                ni as int,
                None,
            ));
            match taken {
                Some(name) => name,
                None => {
                    return Err(
                        MegReadError::NameAlreadyUsed {
                            file_index: idx,
                            name_index: rec.name,
                            num_names: h.num_filenames,
                        },
                    );
                },
            }
        } else {
            match &names[ni] {
                Some(name) => name.clone(),
                None => {
                    proof {
                        assert(names@[ni as int] is Some);
                    }
                    vstd::pervasive::unreached()
                },
            }
        };
        let actual_crc = crc32_hash(name.as_bytes());
        if rec.crc != actual_crc && options.validate_crc {
            return Err(
                MegReadError::InvalidCrc {
                    file_index: idx,
                    expected_crc: rec.crc,
                    actual_crc,
                },
            );
        }
        let ghost before = entries_view(files@);
        let entry = FileEntry { name, start: rec.start, size: rec.size, encrypted: rec.encrypted };
        let ghost ev = entry@;
        files.push(entry);
        assert(entries_view(files@) =~= before.push(ev));
        cur = p;
        idx = idx + 1;
    }
    Ok(files)
}


/// The contents of the file of entry `e` in the MEGA file `meg`.
///
/// The bytes from `start` on are taken: `size` of them, or for an encrypted file `size` rounded up
/// to whole blocks, which are decrypted and cut back to `size`. Bytes past the end of `meg` are
/// missing: an encrypted file that ends inside a block fails, and missing contents fail when
/// completeness is validated.
pub open spec fn spec_extract(e: FileEntryView, meg: Seq<u8>, opts: ReadOptionsView) -> Result<
    Seq<u8>,
    MegReadError,
> {
    let need = if e.encrypted {
        spec_round_up_to_block(e.size as int)
    } else {
        e.size as int
    };
    let lo = if e.start <= meg.len() {
        e.start as int
    } else {
        meg.len() as int
    };
    let hi = if e.start + need <= meg.len() {
        e.start + need
    } else {
        meg.len() as int
    };
    let avail = meg.subrange(lo, hi);
    if e.encrypted {
        match opts.key {
            None => Err(MegReadError::MissingKey),
            Some(k) => if avail.len() % 16 != 0 {
                Err(MegReadError::UnexpectedEof)
            } else {
                let plain = aes128_cbc_decrypt(k.0, k.1, avail);
                let content = if e.size <= plain.len() {
                    plain.subrange(0, e.size as int)
                } else {
                    plain
                };
                if opts.validate_file_complete && content.len() < e.size {
                    Err(MegReadError::UnexpectedEof)
                } else {
                    Ok(content)
                }
            },
        }
    } else if opts.validate_file_complete && avail.len() < e.size {
        Err(MegReadError::UnexpectedEof)
    } else {
        Ok(avail)
    }
}

/// What reading the file's contents to the end hands out before it ends or fails: the stored
/// bytes that are there, decrypted block by block when encrypted (a trailing partial block
/// yields nothing) and cut to the file's size; nothing when the file is encrypted and no key is
/// given.
pub open spec fn spec_delivered(e: FileEntryView, meg: Seq<u8>, opts: ReadOptionsView) -> Seq<u8> {
    let need = if e.encrypted {
        spec_round_up_to_block(e.size as int)
    } else {
        e.size as int
    };
    let lo = if e.start <= meg.len() {
        e.start as int
    } else {
        meg.len() as int
    };
    let hi = if e.start + need <= meg.len() {
        e.start + need
    } else {
        meg.len() as int
    };
    let avail = meg.subrange(lo, hi);
    if e.encrypted {
        match opts.key {
            None => Seq::empty(),
            Some(k) => {
                let plain = aes128_cbc_decrypt(k.0, k.1, avail.subrange(0, avail.len() - avail.len() % 16));
                if e.size <= plain.len() {
                    plain.subrange(0, e.size as int)
                } else {
                    plain
                }
            },
        }
    } else {
        avail
    }
}

impl FileEntry {
    /// Gets the MEGA file path that the file entry was stored under.
    pub fn name(&self) -> (r: MegPath<'_>)
        ensures
            r@ == self@.name,
    {
        self.name.as_path()
    }

    /// Get the range of the MEGA file occupied by this file's contents.
    pub fn range(&self) -> (r: core::ops::Range<usize>)
        requires
            self@.start + self@.size <= usize::MAX,
        ensures
            r.start == self@.start,
            r.end == self@.start + self@.size,
    {
        let start = self.start as usize;
        let size = self.size as usize;
        start..start + size
    }

    /// Get the size of the file's contents in the MEGA file.
    pub fn size(&self) -> (r: u32)
        ensures
            r == self@.size,
    {
        self.size
    }

    /// Get the offset of the file's contents in the MEGA file.
    pub fn start(&self) -> (r: u32)
        ensures
            r == self@.start,
    {
        self.start
    }

    /// Returns true if the file was encrypted.
    pub fn encrypted(&self) -> (r: bool)
        ensures
            r == self@.encrypted,
    {
        self.encrypted
    }

    /// Extract this file's contents from the bytes of the MEGA file it belongs to; see
    /// [`spec_extract`].
    pub fn extract_from(&self, meg: &[u8], options: &MegReadOptions) -> (r: Result<
        Vec<u8>,
        MegReadError,
    >)
        ensures
            match r {
                Ok(v) => spec_extract(self@, meg@, options@) == Ok::<Seq<u8>, MegReadError>(v@),
                Err(e) => spec_extract(self@, meg@, options@) == Err::<Seq<u8>, MegReadError>(e),
            },
    {
        let mut out: Vec<u8> = Vec::new();
        match self.extract_into(meg, options, &mut out) {
            Ok(_) => {
                assert(out@ =~= spec_delivered(self@, meg@, options@));
                Ok(out)
            },
            Err(e) => Err(e),
        }
    }

    /// Reads this file's contents to the end from the bytes of the MEGA file it belongs to,
    /// appending them to `out`, as reading its contents with a reader does: what is handed out
    /// before an error stays in `out` ([`spec_delivered`]). The result is the number of bytes
    /// appended, or the error of [`extract_from`](Self::extract_from), whose contents, on
    /// success, are exactly the bytes appended.
    pub fn extract_into(&self, meg: &[u8], options: &MegReadOptions, out: &mut Vec<u8>) -> (r:
        Result<usize, MegReadError>)
        ensures
            final(out)@ == old(out)@ + spec_delivered(self@, meg@, options@),
            match r {
                Ok(k) => k == spec_delivered(self@, meg@, options@).len() && spec_extract(
                    self@,
                    meg@,
                    options@,
                ) == Ok::<Seq<u8>, MegReadError>(spec_delivered(self@, meg@, options@)),
                Err(e) => spec_extract(self@, meg@, options@) == Err::<Seq<u8>, MegReadError>(e),
            },
    {
        let n = meg.len();
        let need: u64 = if self.encrypted {
            round_up_to_block(self.size as u64)
        } else {
            self.size as u64
        };
        let start = self.start as usize;
        let lo = if start <= n {
            start
        } else {
            n
        };
        let hi = if (n - lo) as u64 >= need && start <= n {
            lo + need as usize
        } else {
            n
        };
        let avail = vstd::slice::slice_subrange(meg, lo, hi);
        if self.encrypted {
            let key = match &options.key {
                Some(k) => k,
                None => return Err(MegReadError::MissingKey),
            };
            let whole_len = avail.len() - avail.len() % 16;
            let whole = vstd::slice::slice_subrange(avail, 0, whole_len);
            let plain = cbc_decrypt(key, whole);
            let size = self.size as usize;
            let content = if size <= plain.len() {
                vstd::slice::slice_to_vec(vstd::slice::slice_subrange(plain.as_slice(), 0, size))
            } else {
                plain
            };
            append_bytes(out, content.as_slice());
            if avail.len() % 16 != 0 {
                return Err(MegReadError::UnexpectedEof);
            }
            assert(avail@.subrange(0, avail@.len() as int) =~= avail@);
            if options.validate_file_complete && content.len() < size {
                return Err(MegReadError::UnexpectedEof);
            }
            Ok(content.len())
        } else {
            append_bytes(out, avail);
            if options.validate_file_complete && avail.len() < self.size as usize {
                return Err(MegReadError::UnexpectedEof);
            }
            Ok(avail.len())
        }
    }
}

/// Restricts [`ReadMegMeta`] to the version types of this library.
pub trait Sealed {

}

impl Sealed for MegVersion {

}

impl Sealed for Option<MegVersion> {

}

impl Sealed for MegV1 {

}

impl Sealed for MegV2 {

}

impl Sealed for MegV3 {

}

impl Sealed for GuessVersion {

}

/// Reading the metadata of a MEGA file as a given version, or by guessing the version.
pub trait ReadMegMeta: Sized + Sealed {
    /// The version this reads as; `None` guesses it from the header.
    spec fn read_mode(&self) -> Option<MegVersion>;

    /// Reads the list of file entries with the default options.
    fn read_meg_meta(self, bytes: &[u8]) -> (r: Result<Vec<FileEntry>, MegReadError>)
        ensures
            read_matches(r, spec_read_meg_meta(self.read_mode(), bytes@, default_read_options())),
    ;

    /// Reads the list of file entries with the given options.
    fn read_meg_meta_opt(self, bytes: &[u8], options: &MegReadOptions) -> (r: Result<
        Vec<FileEntry>,
        MegReadError,
    >)
        ensures
            read_matches(r, spec_read_meg_meta(self.read_mode(), bytes@, options@)),
    ;
}

impl ReadMegMeta for MegVersion {
    open spec fn read_mode(&self) -> Option<MegVersion> {
        Some(*self)
    }

    fn read_meg_meta(self, bytes: &[u8]) -> (r: Result<Vec<FileEntry>, MegReadError>) {
        read_meg_meta_bytes(Some(self), bytes, &MegReadOptions::new())
    }

    fn read_meg_meta_opt(self, bytes: &[u8], options: &MegReadOptions) -> (r: Result<
        Vec<FileEntry>,
        MegReadError,
    >) {
        read_meg_meta_bytes(Some(self), bytes, options)
    }
}

impl ReadMegMeta for Option<MegVersion> {
    open spec fn read_mode(&self) -> Option<MegVersion> {
        *self
    }

    fn read_meg_meta(self, bytes: &[u8]) -> (r: Result<Vec<FileEntry>, MegReadError>) {
        read_meg_meta_bytes(self, bytes, &MegReadOptions::new())
    }

    fn read_meg_meta_opt(self, bytes: &[u8], options: &MegReadOptions) -> (r: Result<
        Vec<FileEntry>,
        MegReadError,
    >) {
        read_meg_meta_bytes(self, bytes, options)
    }
}

impl ReadMegMeta for MegV1 {
    open spec fn read_mode(&self) -> Option<MegVersion> {
        Some(MegVersion::V1)
    }

    fn read_meg_meta(self, bytes: &[u8]) -> (r: Result<Vec<FileEntry>, MegReadError>) {
        read_meg_meta_bytes(Some(MegVersion::V1), bytes, &MegReadOptions::new())
    }

    fn read_meg_meta_opt(self, bytes: &[u8], options: &MegReadOptions) -> (r: Result<
        Vec<FileEntry>,
        MegReadError,
    >) {
        read_meg_meta_bytes(Some(MegVersion::V1), bytes, options)
    }
}

impl ReadMegMeta for MegV2 {
    open spec fn read_mode(&self) -> Option<MegVersion> {
        Some(MegVersion::V2)
    }

    fn read_meg_meta(self, bytes: &[u8]) -> (r: Result<Vec<FileEntry>, MegReadError>) {
        read_meg_meta_bytes(Some(MegVersion::V2), bytes, &MegReadOptions::new())
    }

    fn read_meg_meta_opt(self, bytes: &[u8], options: &MegReadOptions) -> (r: Result<
        Vec<FileEntry>,
        MegReadError,
    >) {
        read_meg_meta_bytes(Some(MegVersion::V2), bytes, options)
    }
}

impl ReadMegMeta for MegV3 {
    open spec fn read_mode(&self) -> Option<MegVersion> {
        Some(MegVersion::V3)
    }

    fn read_meg_meta(self, bytes: &[u8]) -> (r: Result<Vec<FileEntry>, MegReadError>) {
        read_meg_meta_bytes(Some(MegVersion::V3), bytes, &MegReadOptions::new())
    }

    fn read_meg_meta_opt(self, bytes: &[u8], options: &MegReadOptions) -> (r: Result<
        Vec<FileEntry>,
        MegReadError,
    >) {
        read_meg_meta_bytes(Some(MegVersion::V3), bytes, options)
    }
}

impl ReadMegMeta for GuessVersion {
    open spec fn read_mode(&self) -> Option<MegVersion> {
        None
    }

    fn read_meg_meta(self, bytes: &[u8]) -> (r: Result<Vec<FileEntry>, MegReadError>) {
        read_meg_meta_bytes(None, bytes, &MegReadOptions::new())
    }

    fn read_meg_meta_opt(self, bytes: &[u8], options: &MegReadOptions) -> (r: Result<
        Vec<FileEntry>,
        MegReadError,
    >) {
        read_meg_meta_bytes(None, bytes, options)
    }
}

} // verus!
