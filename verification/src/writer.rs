//! Laying out and encoding MEGA files.

use crate::checksum::{crc32, crc32_hash};
use crate::crypto::{
    cipher_roundtrips, pad_to_block, encrypt_section, round_up_to_block, spec_encrypt_section, spec_round_up_to_block, Key,
};
use crate::encoding::{append_bytes, push_u16_le, push_u32_le, u16_le_bytes, u32_le_bytes};
use crate::path::{
    is_normalized, lemma_lex_lt_irreflexive, lemma_lex_lt_total, lemma_lex_lt_transitive,
    lemma_normalize_idempotent, lemma_normalize_is_normalized, lemma_normalize_valid,
    lemma_path_eq_iff_same_normal,
    lemma_path_key_injective, lex_lt, normalize, path_bytes_lt, path_key, spec_path_eq,
    spec_path_lt, valid_path, MegPath, MegPathBuf, WIN_PATH_LIMIT,
};
use vstd::pervasive::VecAdditionalExecFns;
use crate::reader::{ReadOptionsView, ID2, ID_ENCRYPTED, ID_PLAIN};
use crate::parser::{spec_parse_results, ParseOptionsView};
use crate::roundtrip::{
    built_files, content_lens, guess_reads_as, guess_shows_version, lemma_built_laws, options_fit,
    parse_options_fit, reads_back,
};
use crate::version::{MegV1, MegV2, MegV3, MegVersion};
use vstd::prelude::*;

verus! {

#[verifier::external_type_specification]
#[verifier::external_body]
pub struct ExIoError(std::io::Error);

/// Error produced when building a MEGA file.
#[derive(Debug)]
#[allow(inconsistent_fields)]
pub enum BuildMegError {
    /// Getting the length or the contents of a file failed.
    IoError(std::io::Error),
    /// The number of files to pack exceeded the limit.
    TooManyFiles { files: usize, limit: u32 },
    /// A name in the MEGA file is longer than the name length limit.
    NameTooLong { len: usize, limit: u16 },
    /// An individual file's size won't fit in 32 bits (or, encrypted, its padded size won't).
    FileTooLarge { size: u64 },
    /// The offsets needed to pack the headers and files exceeded the 32 bit limit.
    OffsetTooLarge,
    /// A file delivered a different number of bytes than it reported.
    InaccurateFileSize { reported_size: u32, actual_size: u64 },
}

/// The effective key as plain values.
pub open spec fn opt_key_view(k: Option<&Key>) -> Option<(Seq<u8>, Seq<u8>)> {
    match k {
        Some(k) => Some(k@),
        None => None,
    }
}

/// The key held by an option as plain values.
pub open spec fn owned_key_view(k: Option<Key>) -> Option<(Seq<u8>, Seq<u8>)> {
    match k {
        Some(k) => Some(k@),
        None => None,
    }
}

/// Version-specific settings of a MEGA file builder: the version written and the key used to
/// encrypt, if any (only V3 files are ever encrypted).
pub trait WriteVersion {
    /// The version that is written.
    spec fn spec_write_version(&self) -> MegVersion;

    /// The key the written file is encrypted with, if any.
    spec fn spec_write_key(&self) -> Option<(Seq<u8>, Seq<u8>)>;

    /// The version that is written.
    fn write_version(&self) -> (r: MegVersion)
        ensures
            r == self.spec_write_version(),
    ;

    /// The key the written file is encrypted with, if any.
    fn write_key(&self) -> (r: Option<&Key>)
        ensures
            opt_key_view(r) == self.spec_write_key(),
            self.spec_write_key() is Some ==> self.spec_write_version() == MegVersion::V3,
    ;
}

/// Version settings that allow configuring an encryption key.
pub trait WriteEncrypted {
    /// The configured key.
    spec fn spec_encryption(&self) -> Option<(Seq<u8>, Seq<u8>)>;

    /// Get the encryption key set for the builder, if one is used.
    fn encryption(&self) -> (r: Option<&Key>)
        ensures
            opt_key_view(r) == self.spec_encryption(),
    ;

    /// Set the encryption key to use, or `None` to disable encryption.
    fn set_encryption(&mut self, encryption: Option<Key>)
        ensures
            final(self).spec_encryption() == owned_key_view(encryption),
    ;
}

impl WriteVersion for MegV1 {
    open spec fn spec_write_version(&self) -> MegVersion {
        MegVersion::V1
    }

    open spec fn spec_write_key(&self) -> Option<(Seq<u8>, Seq<u8>)> {
        None
    }

    fn write_version(&self) -> (r: MegVersion) {
        MegVersion::V1
    }

    fn write_key(&self) -> (r: Option<&Key>) {
        None
    }
}

impl WriteVersion for MegV2 {
    open spec fn spec_write_version(&self) -> MegVersion {
        MegVersion::V2
    }

    open spec fn spec_write_key(&self) -> Option<(Seq<u8>, Seq<u8>)> {
        None
    }

    fn write_version(&self) -> (r: MegVersion) {
        MegVersion::V2
    }

    fn write_key(&self) -> (r: Option<&Key>) {
        None
    }
}

/// Settings for V3 MEGA files: an optional encryption key.
pub struct V3Settings {
    encryption: Option<Key>,
}

impl V3Settings {
    /// Settings without encryption.
    pub fn new() -> (r: Self)
        ensures
            r.spec_encryption() is None,
    {
        V3Settings { encryption: None }
    }
}

impl Default for V3Settings {
    fn default() -> (r: Self)
        ensures
            r.spec_encryption() is None,
    {
        V3Settings::new()
    }
}

impl WriteEncrypted for V3Settings {
    closed spec fn spec_encryption(&self) -> Option<(Seq<u8>, Seq<u8>)> {
        owned_key_view(self.encryption)
    }

    fn encryption(&self) -> (r: Option<&Key>) {
        match &self.encryption {
            Some(k) => Some(k),
            None => None,
        }
    }

    fn set_encryption(&mut self, encryption: Option<Key>) {
        self.encryption = encryption;
    }
}

impl WriteVersion for V3Settings {
    open spec fn spec_write_version(&self) -> MegVersion {
        MegVersion::V3
    }

    open spec fn spec_write_key(&self) -> Option<(Seq<u8>, Seq<u8>)> {
        self.spec_encryption()
    }

    fn write_version(&self) -> (r: MegVersion) {
        MegVersion::V3
    }

    fn write_key(&self) -> (r: Option<&Key>) {
        self.encryption()
    }
}

/// Settings for any MEGA file version, chosen at run time. A key only takes effect for V3.
pub struct AnyVersionSettings {
    version: MegVersion,
    v3settings: V3Settings,
}

impl AnyVersionSettings {
    /// Settings for `version`, without encryption.
    pub fn new(version: MegVersion) -> (r: Self)
        ensures
            r.spec_version() == version,
            r.spec_encryption() is None,
    {
        AnyVersionSettings { version, v3settings: V3Settings::new() }
    }

    /// The configured version.
    pub closed spec fn spec_version(&self) -> MegVersion {
        self.version
    }

    /// The configured version.
    pub fn version(&self) -> (r: MegVersion)
        ensures
            r == self.spec_version(),
    {
        self.version
    }

    /// Change the version.
    pub fn set_version(&mut self, version: MegVersion)
        ensures
            final(self).spec_version() == version,
            final(self).spec_encryption() == old(self).spec_encryption(),
    {
        self.version = version;
    }
}

impl WriteEncrypted for AnyVersionSettings {
    closed spec fn spec_encryption(&self) -> Option<(Seq<u8>, Seq<u8>)> {
        self.v3settings.spec_encryption()
    }

    fn encryption(&self) -> (r: Option<&Key>) {
        self.v3settings.encryption()
    }

    fn set_encryption(&mut self, encryption: Option<Key>) {
        self.v3settings.set_encryption(encryption);
    }
}

impl WriteVersion for AnyVersionSettings {
    open spec fn spec_write_version(&self) -> MegVersion {
        self.spec_version()
    }

    open spec fn spec_write_key(&self) -> Option<(Seq<u8>, Seq<u8>)> {
        if self.spec_version() == MegVersion::V3 {
            self.spec_encryption()
        } else {
            None
        }
    }

    fn write_version(&self) -> (r: MegVersion) {
        self.version
    }

    fn write_key(&self) -> (r: Option<&Key>) {
        if self.version == MegVersion::V3 {
            self.v3settings.encryption()
        } else {
            None
        }
    }
}

/// The limit on the number of files: V3 name indexes are only 16 bits.
pub open spec fn spec_file_limit(v: MegVersion) -> u32 {
    if v == MegVersion::V3 {
        0xFFFF
    } else {
        0xFFFF_FFFF
    }
}

/// The size of the header.
pub open spec fn spec_header_size(v: MegVersion) -> u32 {
    match v {
        MegVersion::V1 => 8,
        MegVersion::V2 => 20,
        MegVersion::V3 => 24,
    }
}

/// The size of one file record: five words for V1 and V2; for V3 a flags word and an 18 byte
/// body, padded to 32 bytes when encrypted.
pub open spec fn spec_file_record_size(v: MegVersion, encrypted: bool) -> u32 {
    match v {
        MegVersion::V3 => if encrypted {
            34
        } else {
            20
        },
        _ => 20,
    }
}

/// A length adjusted for encryption: rounded up to whole blocks when encrypted; `None` when that
/// does not fit in 32 bits.
pub open spec fn spec_adjust_len(encrypted: bool, len: u32) -> Option<u32> {
    if encrypted {
        if spec_round_up_to_block(len as int) <= u32::MAX {
            Some(spec_round_up_to_block(len as int) as u32)
        } else {
            None
        }
    } else {
        Some(len)
    }
}

/// The limit on the number of files.
pub fn file_limit(v: MegVersion) -> (r: u32)
    ensures
        r == spec_file_limit(v),
{
    if v == MegVersion::V3 {
        0xFFFF
    } else {
        0xFFFF_FFFF
    }
}

/// The size of the header.
pub fn header_size(v: MegVersion) -> (r: u32)
    ensures
        r == spec_header_size(v),
{
    match v {
        MegVersion::V1 => 8,
        MegVersion::V2 => 20,
        MegVersion::V3 => 24,
    }
}

/// The size of one file record.
pub fn file_record_size(v: MegVersion, encrypted: bool) -> (r: u32)
    ensures
        r == spec_file_record_size(v, encrypted),
{
    match v {
        MegVersion::V3 => {
            let flags_len: u32 = 2;
            let content_len: u32 = 18;
            if encrypted {
                flags_len + round_up_to_block(content_len as u64) as u32
            } else {
                flags_len + content_len
            }
        },
        _ => 20,
    }
}

/// A length adjusted for encryption.
pub fn adjust_len(encrypted: bool, len: u32) -> (r: Option<u32>)
    ensures
        r == spec_adjust_len(encrypted, len),
{
    if encrypted {
        let rounded = round_up_to_block(len as u64);
        if rounded <= u32::MAX as u64 {
            Some(rounded as u32)
        } else {
            None
        }
    } else {
        Some(len)
    }
}

/// Counts the bytes written to a buffer, with a movable mark.
pub struct CountingWriter {
    inner: Vec<u8>,
    /// The count at the mark.
    mark: u64,
    /// The total number of bytes written.
    written: u64,
}

impl CountingWriter {
    /// The bytes written so far.
    pub closed spec fn spec_bytes(&self) -> Seq<u8> {
        self.inner@
    }

    /// The total count.
    pub closed spec fn spec_written(&self) -> u64 {
        self.written
    }

    /// The count at the mark.
    pub closed spec fn spec_mark(&self) -> u64 {
        self.mark
    }

    /// Counting writers only count what they hold.
    pub closed spec fn wf(&self) -> bool {
        &&& self.written == self.inner@.len()
        &&& self.mark <= self.written
    }

    /// Create a new, empty writer with both counts at zero.
    pub fn new() -> (r: Self)
        ensures
            r.wf(),
            r.spec_bytes() == Seq::<u8>::empty(),
            r.spec_written() == 0,
            r.spec_mark() == 0,
    {
        CountingWriter { inner: Vec::new(), mark: 0, written: 0 }
    }

    /// Appends bytes, counting them.
    pub fn write_all(&mut self, data: &[u8])
        requires
            old(self).wf(),
            old(self).spec_written() + data@.len() <= u64::MAX,
        ensures
            final(self).wf(),
            final(self).spec_bytes() == old(self).spec_bytes() + data@,
            final(self).spec_written() == old(self).spec_written() + data@.len(),
            final(self).spec_mark() == old(self).spec_mark(),
    {
        let n = data.len();
        let mut i: usize = 0;
        let ghost start = self.inner@;
        let ghost mark = self.mark;
        while i < n
            invariant
                n == data@.len(),
                0 <= i <= n,
                self.inner@ =~= start + data@.subrange(0, i as int),
                self.written == start.len(),
                self.mark <= self.written,
                self.mark == mark,
                self.written + n <= u64::MAX,
            decreases n - i,
        {
            self.inner.push(data[i]);
            i = i + 1;
        }
        assert(data@.subrange(0, n as int) =~= data@);
        self.written = self.written + n as u64;
    }

    /// Move the mark to the current count.
    pub fn move_mark(&mut self)
        requires
            old(self).wf(),
        ensures
            final(self).wf(),
            final(self).spec_mark() == old(self).spec_written(),
            final(self).spec_written() == old(self).spec_written(),
            final(self).spec_bytes() == old(self).spec_bytes(),
    {
        self.mark = self.written;
    }

    /// The number of bytes written since the mark was moved.
    pub fn written_since_mark(&self) -> (r: u64)
        requires
            self.wf(),
        ensures
            r == self.spec_written() - self.spec_mark(),
    {
        self.written - self.mark
    }

    /// The total number of bytes written.
    pub fn total_written(&self) -> (r: u64)
        ensures
            r == self.spec_written(),
    {
        self.written
    }

    /// The bytes written.
    pub fn into_inner(self) -> (r: Vec<u8>)
        ensures
            r@ == self.spec_bytes(),
    {
        self.inner
    }
}


/// The order in which a builder keeps and writes its files: by the CRC-32 of the normalized
/// name, then by the path order.
pub open spec fn key_lt(a: Seq<u8>, b: Seq<u8>) -> bool {
    crc32(a) < crc32(b) || (crc32(a) == crc32(b) && lex_lt(path_key(a), path_key(b)))
}

/// Builder names: valid, normalized, and strictly increasing in [`key_lt`] order (so distinct).
pub open spec fn keys_ok(names: Seq<Seq<u8>>) -> bool {
    &&& forall|i: int|
        0 <= i < names.len() ==> valid_path(#[trigger] names[i]) && is_normalized(names[i])
    &&& forall|i: int, j: int| 0 <= i < j < names.len() ==> key_lt(names[i], names[j])
}

proof fn lemma_key_lt_irreflexive(a: Seq<u8>)
    ensures
        !key_lt(a, a),
{
    lemma_lex_lt_irreflexive(path_key(a));
}

proof fn lemma_key_lt_transitive(a: Seq<u8>, b: Seq<u8>, c: Seq<u8>)
    requires
        key_lt(a, b),
        key_lt(b, c),
    ensures
        key_lt(a, c),
{
    if crc32(a) == crc32(b) && crc32(b) == crc32(c) {
        lemma_lex_lt_transitive(path_key(a), path_key(b), path_key(c));
    }
}

proof fn lemma_key_lt_total(a: Seq<u8>, b: Seq<u8>)
    requires
        valid_path(a),
        valid_path(b),
        is_normalized(a),
        is_normalized(b),
        a != b,
    ensures
        key_lt(a, b) || key_lt(b, a),
{
    if path_key(a) == path_key(b) {
        lemma_path_key_injective(a, b);
    }
    lemma_lex_lt_total(path_key(a), path_key(b));
}

/// A builder never holds two files under one name: the names of a well-formed builder are
/// distinct.
pub proof fn lemma_keys_distinct(names: Seq<Seq<u8>>)
    requires
        keys_ok(names),
    ensures
        forall|i: int, j: int|
            0 <= i < names.len() && 0 <= j < names.len() && #[trigger] names[i] == #[trigger] names[j]
                ==> i == j,
{
    assert forall|i: int, j: int|
        0 <= i < names.len() && 0 <= j < names.len() && #[trigger] names[i] == #[trigger] names[j]
            implies i == j by {
        if i != j {
            lemma_key_lt_irreflexive(names[i]);
        }
    }
}

/// Byte equality.
fn bytes_eq(a: &[u8], b: &[u8]) -> (r: bool)
    ensures
        r == (a@ == b@),
{
    if a.len() != b.len() {
        return false;
    }
    let mut i: usize = 0;
    while i < a.len()
        invariant
            a@.len() == b@.len(),
            0 <= i <= a@.len(),
            forall|j: int| 0 <= j < i ==> a@[j] == b@[j],
        decreases a@.len() - i,
    {
        if a[i] != b[i] {
            return false;
        }
        i = i + 1;
    }
    assert(a@ =~= b@);
    true
}

/// One file of a builder, under its normalized name.
struct BuilderEntry<F> {
    crc: u32,
    path: MegPathBuf,
    file: F,
}

/// The names of builder entries, in order.
spec fn entry_names<F>(s: Seq<BuilderEntry<F>>) -> Seq<Seq<u8>> {
    s.map_values(|e: BuilderEntry<F>| e.path@)
}

/// The files of builder entries, in order.
spec fn entry_files<F>(s: Seq<BuilderEntry<F>>) -> Seq<F> {
    s.map_values(|e: BuilderEntry<F>| e.file)
}

/// Builder entries whose names are in order and whose cached CRCs are right.
spec fn entries_ok<F>(s: Seq<BuilderEntry<F>>) -> bool {
    &&& keys_ok(entry_names(s))
    &&& forall|i: int| 0 <= i < s.len() ==> #[trigger] s[i].crc == crc32(s[i].path@)
}

/// Finds where `key` is or would go: the first position whose name is not before it.
fn find_entry<F>(files: &Vec<BuilderEntry<F>>, crc: u32, key: &MegPathBuf) -> (r: usize)
    requires
        entries_ok(files@),
        crc == crc32(key@),
    ensures
        r <= entry_names(files@).len(),
        forall|j: int| 0 <= j < r ==> key_lt(#[trigger] entry_names(files@)[j], key@),
        r < entry_names(files@).len() ==> !key_lt(entry_names(files@)[r as int], key@),
{
    let n = files.len();
    let mut i: usize = 0;
    while i < n
        invariant
            n == files@.len(),
            0 <= i <= n,
            entries_ok(files@),
            crc == crc32(key@),
            forall|j: int| 0 <= j < i ==> key_lt(#[trigger] entry_names(files@)[j], key@),
        decreases n - i,
    {
        let e = &files[i];
        let lt = e.crc < crc || (e.crc == crc && path_bytes_lt(e.path.as_bytes(), key.as_bytes()));
        assert(e.crc == crc32(entry_names(files@)[i as int]));
        if !lt {
            return i;
        }
        i = i + 1;
    }
    i
}


/// Inserts a file under the normalized form of `path`, in its place in the entries' order;
/// a file already under that name is replaced and returned.
fn insert_entry<F>(files: &mut Vec<BuilderEntry<F>>, path: MegPathBuf, file: F) -> (r: Option<F>)
    requires
        entries_ok(old(files)@),
    ensures
        entries_ok(final(files)@),
        ({
        &&& entry_names(old(files)@).contains(normalize(path@)) <==> r is Some
        &&& match r {
            Some(f) => exists|i: int|
                0 <= i < entry_names(old(files)@).len() && #[trigger] entry_names(old(files)@)[i]
                    == normalize(path@) && entry_names(final(files)@) == entry_names(old(files)@)
                    && entry_files(final(files)@) == entry_files(old(files)@).update(i, file) && f
                    == entry_files(old(files)@)[i],
            None => exists|i: int|
                0 <= i <= entry_names(old(files)@).len() && #[trigger] entry_names(
                    old(files)@,
                ).insert(i, normalize(path@)) == entry_names(final(files)@) && entry_files(
                    final(files)@,
                ) == entry_files(old(files)@).insert(i, file),
        }
        }),
{
    let mut key = path;
    key.make_normalized();
    proof {
        lemma_normalize_is_normalized(path@);
    }
    let crc = crc32_hash(key.as_bytes());
    let i = find_entry(files, crc, &key);
    let ghost names = entry_names(files@);
    let ghost fs0 = entry_files(files@);
    let ghost k = key@;
    proof {
        assert forall|j: int| 0 <= j < i implies #[trigger] names[j] != k by {
            lemma_key_lt_irreflexive(k);
        }
    }
    if i < files.len() && files[i].crc == crc && bytes_eq(
        files[i].path.as_bytes(),
        key.as_bytes(),
    ) {
        let mut entry = BuilderEntry { crc, path: key, file };
        files.set_and_swap(i, &mut entry);
        proof {
            assert(names[i as int] == k);
            assert(entry_names(files@) =~= names);
            assert(entry_files(files@) =~= fs0.update(i as int, file));
            assert(names.contains(k));
        }
        Some(entry.file)
    } else {
        proof {
            if i < names.len() {
                assert(names[i as int] != k);
                lemma_key_lt_total(names[i as int], k);
                assert(key_lt(k, names[i as int]));
                assert forall|j: int| i < j < names.len() implies key_lt(k, #[trigger] names[j]) by {
                    lemma_key_lt_transitive(k, names[i as int], names[j]);
                }
                assert forall|j: int| i <= j < names.len() implies #[trigger] names[j] != k by {
                    lemma_key_lt_irreflexive(k);
                }
            }
            assert(!names.contains(k));
        }
        let ghost old_entries = files@;
        files.insert(i, BuilderEntry { crc, path: key, file });
        proof {
            assert(entry_names(files@) =~= names.insert(i as int, k));
            assert(entry_files(files@) =~= fs0.insert(i as int, file));
            let nn = entry_names(files@);
            assert forall|a: int, b: int| 0 <= a < b < nn.len() implies key_lt(nn[a], nn[b]) by {
                if a < i && b < i {
                } else if a < i && b == i {
                } else if a < i && b > i {
                    assert(nn[b] == names[b - 1]);
                } else if a == i {
                    assert(nn[b] == names[b - 1]);
                } else {
                    assert(nn[a] == names[a - 1]);
                    assert(nn[b] == names[b - 1]);
                }
            }
            assert forall|j: int| 0 <= j < files@.len() implies #[trigger] files@[j].crc
                == crc32(files@[j].path@) by {
                if j < i {
                    assert(files@[j] == old_entries[j]);
                } else if j > i {
                    assert(files@[j] == old_entries[j - 1]);
                }
            }
        }
        None
    }
}


/// Removes the file stored under the normalized form of `path`, if any.
fn remove_entry<F>(files: &mut Vec<BuilderEntry<F>>, path: &MegPath) -> (r: Option<F>)
    requires
        entries_ok(old(files)@),
    ensures
        entries_ok(final(files)@),
        ({
        &&& entry_names(old(files)@).contains(normalize(path@)) <==> r is Some
        &&& match r {
            Some(f) => exists|i: int|
                0 <= i < entry_names(old(files)@).len() && #[trigger] entry_names(old(files)@)[i]
                    == normalize(path@) && entry_names(final(files)@) == entry_names(
                    old(files)@,
                ).remove(i) && entry_files(final(files)@) == entry_files(old(files)@).remove(i)
                    && f == entry_files(old(files)@)[i],
            None => entry_names(final(files)@) == entry_names(old(files)@) && entry_files(
                final(files)@,
            ) == entry_files(old(files)@),
        }
        }),
{
    let mut key = path.to_owned();
    key.make_normalized();
    proof {
        lemma_normalize_is_normalized(path@);
    }
    let crc = crc32_hash(key.as_bytes());
    let i = find_entry(files, crc, &key);
    let ghost names = entry_names(files@);
    let ghost fs0 = entry_files(files@);
    let ghost k = key@;
    proof {
        assert forall|j: int| 0 <= j < i implies #[trigger] names[j] != k by {
            lemma_key_lt_irreflexive(k);
        }
    }
    if i < files.len() && files[i].crc == crc && bytes_eq(
        files[i].path.as_bytes(),
        key.as_bytes(),
    ) {
        let ghost old_entries = files@;
        let entry = files.remove(i);
        proof {
            assert(names[i as int] == k);
            assert(names.contains(k));
            assert(entry_names(files@) =~= names.remove(i as int));
            assert(entry_files(files@) =~= fs0.remove(i as int));
            let nn = entry_names(files@);
            assert forall|a: int, b: int| 0 <= a < b < nn.len() implies key_lt(nn[a], nn[b]) by {
                if a >= i {
                    assert(nn[a] == names[a + 1]);
                }
                if b >= i {
                    assert(nn[b] == names[b + 1]);
                }
            }
            assert forall|j: int| 0 <= j < files@.len() implies #[trigger] files@[j].crc
                == crc32(files@[j].path@) by {
                if j >= i {
                    assert(files@[j] == old_entries[j + 1]);
                }
            }
        }
        Some(entry.file)
    } else {
        proof {
            if i < names.len() {
                assert(names[i as int] != k);
                lemma_key_lt_total(names[i as int], k);
                assert forall|j: int| i <= j < names.len() implies #[trigger] names[j] != k by {
                    if j > i {
                        lemma_key_lt_transitive(k, names[i as int], names[j]);
                    }
                    lemma_key_lt_irreflexive(k);
                }
            }
            assert(!names.contains(k));
        }
        None
    }
}


/// The files of a builder, in order of the CRC-32 of their normalized names, then path order.
struct BuilderFiles<F> {
    entries: Vec<BuilderEntry<F>>,
}

impl<F> BuilderFiles<F> {
    /// The names are in order and the cached CRCs are right.
    #[verifier::type_invariant]
    spec fn inv(&self) -> bool {
        entries_ok(self.entries@)
    }

    /// Inserts a file under the normalized form of `path`; see [`insert_entry`].
    fn insert(&mut self, path: MegPathBuf, file: F) -> (r: Option<F>)
        ensures
            entries_ok(old(self).entries@),
            entries_ok(final(self).entries@),
            ({
                let n0 = entry_names(old(self).entries@);
                let f0 = entry_files(old(self).entries@);
                let n1 = entry_names(final(self).entries@);
                let f1 = entry_files(final(self).entries@);
                &&& n0.contains(normalize(path@)) <==> r is Some
                &&& match r {
                    Some(f) => exists|i: int|
                        0 <= i < n0.len() && #[trigger] n0[i] == normalize(path@) && n1 == n0 && f1
                            == f0.update(i, file) && f == f0[i],
                    None => exists|i: int|
                        0 <= i <= n0.len() && #[trigger] n0.insert(i, normalize(path@)) == n1 && f1
                            == f0.insert(i, file),
                }
            }),
    {
        proof {
            use_type_invariant(&*self);
        }
        let mut entries: Vec<BuilderEntry<F>> = Vec::new();
        std::mem::swap(&mut entries, &mut self.entries);
        let r = insert_entry(&mut entries, path, file);
        self.entries = entries;
        r
    }

    /// Removes the file under the normalized form of `path`, if any; see [`remove_entry`].
    fn remove(&mut self, path: &MegPath) -> (r: Option<F>)
        ensures
            entries_ok(old(self).entries@),
            entries_ok(final(self).entries@),
            ({
                let n0 = entry_names(old(self).entries@);
                let f0 = entry_files(old(self).entries@);
                let n1 = entry_names(final(self).entries@);
                let f1 = entry_files(final(self).entries@);
                &&& n0.contains(normalize(path@)) <==> r is Some
                &&& match r {
                    Some(f) => exists|i: int|
                        0 <= i < n0.len() && #[trigger] n0[i] == normalize(path@) && n1 == n0.remove(i)
                            && f1 == f0.remove(i) && f == f0[i],
                    None => n1 == n0 && f1 == f0,
                }
            }),
    {
        proof {
            use_type_invariant(&*self);
        }
        let mut entries: Vec<BuilderEntry<F>> = Vec::new();
        std::mem::swap(&mut entries, &mut self.entries);
        let r = remove_entry(&mut entries, path);
        self.entries = entries;
        r
    }

    /// The entries, in order.
    fn into_entries(self) -> (r: Vec<BuilderEntry<F>>)
        ensures
            r@ == self.entries@,
            entries_ok(r@),
    {
        proof {
            use_type_invariant(&self);
        }
        self.entries
    }
}

/// Builder for a MEGA file.
pub struct MegBuilder<F, V> {
    version_settings: V,
    files: BuilderFiles<F>,
    /// Name length limit to apply. Defaults to the Windows path length limit.
    name_length_limit: u16,
}

impl<F, V> MegBuilder<F, V> {
    /// The normalized names of the files, in the order they are written.
    pub closed spec fn spec_names(&self) -> Seq<Seq<u8>> {
        entry_names(self.files.entries@)
    }

    /// The files, in the order they are written.
    pub closed spec fn spec_files(&self) -> Seq<F> {
        entry_files(self.files.entries@)
    }

    /// The version settings.
    pub closed spec fn spec_settings(&self) -> V {
        self.version_settings
    }

    /// The name length limit.
    pub closed spec fn spec_limit(&self) -> u16 {
        self.name_length_limit
    }

    /// The builder's names are in order and its cached CRCs are right (its files' type
    /// invariant, so this holds of every builder).
    pub closed spec fn wf(&self) -> bool {
        entries_ok(self.files.entries@)
    }

    /// What a well-formed builder guarantees of its names.
    pub proof fn lemma_wf(&self)
        requires
            self.wf(),
        ensures
            keys_ok(self.spec_names()),
            self.spec_names().len() == self.spec_files().len(),
    {
    }

    /// What inserting `file` under the normalized name `key` does, `after` being the builder
    /// afterwards and `r` the result: a file already stored under `key` is replaced in its place
    /// and returned; otherwise the name and file go in at one position and nothing is returned.
    pub open spec fn spec_inserted(&self, after: Self, key: Seq<u8>, file: F, r: Option<F>) -> bool {
        &&& self.spec_names().contains(key) <==> r is Some
        &&& match r {
            Some(f) => exists|i: int|
                0 <= i < self.spec_names().len() && #[trigger] self.spec_names()[i] == key
                    && after.spec_names() == self.spec_names() && after.spec_files()
                    == self.spec_files().update(i, file) && f == self.spec_files()[i],
            None => exists|i: int|
                0 <= i <= self.spec_names().len() && #[trigger] self.spec_names().insert(i, key)
                    == after.spec_names() && after.spec_files() == self.spec_files().insert(i, file),
        }
    }

    /// What removing the normalized name `key` does, `after` being the builder afterwards and `r`
    /// the result: the file stored under `key` leaves with its name and is returned; without
    /// one, nothing changes and nothing is returned.
    pub open spec fn spec_removed(&self, after: Self, key: Seq<u8>, r: Option<F>) -> bool {
        &&& self.spec_names().contains(key) <==> r is Some
        &&& match r {
            Some(f) => exists|i: int|
                0 <= i < self.spec_names().len() && #[trigger] self.spec_names()[i] == key
                    && after.spec_names() == self.spec_names().remove(i) && after.spec_files()
                    == self.spec_files().remove(i) && f == self.spec_files()[i],
            None => after.spec_names() == self.spec_names() && after.spec_files()
                == self.spec_files(),
        }
    }

    /// Removing a name right after inserting a file under it gives that file back. If the name
    /// was new, the builder's names and files are as before the insert; if it replaced a file,
    /// they are as before minus that name's entry.
    pub proof fn lemma_remove_undoes_insert(
        b0: Self,
        b1: Self,
        b2: Self,
        key: Seq<u8>,
        file: F,
        r1: Option<F>,
        r2: Option<F>,
    )
        requires
            b0.wf(),
            b1.wf(),
            b0.spec_inserted(b1, key, file, r1),
            b1.spec_removed(b2, key, r2),
        ensures
            r2 == Some(file),
            r1 is None ==> b2.spec_names() == b0.spec_names() && b2.spec_files()
                == b0.spec_files(),
            r1 is Some ==> exists|i: int|
                0 <= i < b0.spec_names().len() && #[trigger] b0.spec_names()[i] == key
                    && b2.spec_names() == b0.spec_names().remove(i) && b2.spec_files()
                    == b0.spec_files().remove(i),
    {
        let n0 = b0.spec_names();
        let f0 = b0.spec_files();
        let n1 = b1.spec_names();
        let f1 = b1.spec_files();
        lemma_keys_distinct(n1);
        let i = if r1 is Some {
            choose|i: int|
                0 <= i < n0.len() && #[trigger] n0[i] == key && n1 == n0 && f1 == f0.update(i, file)
                    && r1 == Some(f0[i])
        } else {
            choose|i: int| 0 <= i <= n0.len() && #[trigger] n0.insert(i, key) == n1 && f1 == f0.insert(i, file)
        };
        assert(n1[i] == key);
        assert(f1[i] == file);
        assert(n1.contains(key));
        let j = choose|j: int|
            0 <= j < n1.len() && #[trigger] n1[j] == key && b2.spec_names() == n1.remove(j)
                && b2.spec_files() == f1.remove(j) && r2 == Some(f1[j]);
        assert(j == i);
        if r1 is None {
            assert(n1.remove(i) =~= n0);
            assert(f1.remove(i) =~= f0);
        } else {
            assert(f1.remove(i) =~= f0.remove(i));
        }
    }

    /// A builder holds a file under a path exactly when one of its names is equal to that path
    /// as a path (ASCII case ignored, `/` and `\` alike); the builder keeps the normalized form.
    pub proof fn lemma_holds_equal_path(&self, p: Seq<u8>)
        requires
            self.wf(),
            valid_path(p),
        ensures
            self.spec_names().contains(normalize(p)) <==> exists|i: int|
                0 <= i < self.spec_names().len() && spec_path_eq(#[trigger] self.spec_names()[i], p),
    {
        let names = self.spec_names();
        if names.contains(normalize(p)) {
            let i = choose|i: int| 0 <= i < names.len() && names[i] == normalize(p);
            lemma_normalize_idempotent(names[i]);
            lemma_path_eq_iff_same_normal(names[i], p);
        }
        assert forall|i: int| 0 <= i < names.len() && spec_path_eq(#[trigger] names[i], p) implies names.contains(
            normalize(p),
        ) by {
            lemma_normalize_idempotent(names[i]);
            lemma_path_eq_iff_same_normal(names[i], p);
        }
    }

    /// After inserting under `p`, the builder holds a name equal to `p` as a path (its normal
    /// form); every other name it holds it held before, and it still holds every name it held.
    pub proof fn lemma_insert_holds(b0: Self, b1: Self, p: Seq<u8>, file: F, r: Option<F>)
        requires
            b0.wf(),
            valid_path(p),
            b0.spec_inserted(b1, normalize(p), file, r),
        ensures
            b1.spec_names().contains(normalize(p)),
            exists|i: int| 0 <= i < b1.spec_names().len() && spec_path_eq(#[trigger] b1.spec_names()[i], p),
            forall|n: Seq<u8>| #[trigger] b1.spec_names().contains(n) ==> n == normalize(p)
                || b0.spec_names().contains(n),
            forall|n: Seq<u8>| #[trigger] b0.spec_names().contains(n) ==> b1.spec_names().contains(n),
    {
        let n0 = b0.spec_names();
        let n1 = b1.spec_names();
        let k = normalize(p);
        let i = if r is Some {
            choose|i: int|
                0 <= i < n0.len() && #[trigger] n0[i] == k && n1 == n0 && b1.spec_files()
                    == b0.spec_files().update(i, file) && r == Some(b0.spec_files()[i])
        } else {
            choose|i: int|
                0 <= i <= n0.len() && #[trigger] n0.insert(i, k) == n1 && b1.spec_files()
                    == b0.spec_files().insert(i, file)
        };
        assert(n1[i] == k);
        lemma_normalize_is_normalized(p);
        lemma_normalize_valid(p);
        lemma_normalize_idempotent(k);
        lemma_path_eq_iff_same_normal(k, p);
        assert forall|n: Seq<u8>| #[trigger] n1.contains(n) implies n == k || n0.contains(n) by {
            if r is None {
                let j = choose|j: int| 0 <= j < n1.len() && n1[j] == n;
                if j < i {
                    assert(n0[j] == n);
                } else if j > i {
                    assert(n0[j - 1] == n);
                }
            }
        }
        assert forall|n: Seq<u8>| #[trigger] n0.contains(n) implies n1.contains(n) by {
            if r is None {
                let j = choose|j: int| 0 <= j < n0.len() && n0[j] == n;
                if j < i {
                    assert(n1[j] == n);
                } else {
                    assert(n1[j + 1] == n);
                }
            }
        }
    }

    /// Removing, by any path equal to it as a path, a path that was just inserted gives the
    /// inserted file back. If no equal path was held before, the builder's names and files are as
    /// before the insert; otherwise they are as before minus that path's entry.
    pub proof fn lemma_remove_equal_path_undoes_insert(
        b0: Self,
        b1: Self,
        b2: Self,
        p: Seq<u8>,
        q: Seq<u8>,
        file: F,
        r1: Option<F>,
        r2: Option<F>,
    )
        requires
            b0.wf(),
            b1.wf(),
            valid_path(p),
            valid_path(q),
            spec_path_eq(p, q),
            b0.spec_inserted(b1, normalize(p), file, r1),
            b1.spec_removed(b2, normalize(q), r2),
        ensures
            r2 == Some(file),
            r1 is None ==> b2.spec_names() == b0.spec_names() && b2.spec_files()
                == b0.spec_files(),
            r1 is Some ==> exists|i: int|
                0 <= i < b0.spec_names().len() && spec_path_eq(#[trigger] b0.spec_names()[i], p)
                    && b2.spec_names() == b0.spec_names().remove(i) && b2.spec_files()
                    == b0.spec_files().remove(i),
    {
        lemma_path_eq_iff_same_normal(p, q);
        Self::lemma_remove_undoes_insert(b0, b1, b2, normalize(p), file, r1, r2);
        if r1 is Some {
            let i = choose|i: int|
                0 <= i < b0.spec_names().len() && #[trigger] b0.spec_names()[i] == normalize(p)
                    && b2.spec_names() == b0.spec_names().remove(i) && b2.spec_files()
                    == b0.spec_files().remove(i);
            lemma_normalize_idempotent(b0.spec_names()[i]);
            lemma_path_eq_iff_same_normal(b0.spec_names()[i], p);
        }
    }

    /// Inserting under a path equal, as a path, to one just inserted replaces that file and
    /// returns it: the names stay, and the one entry under that path now holds the new file.
    pub proof fn lemma_insert_equal_path_replaces(
        b0: Self,
        b1: Self,
        b2: Self,
        p: Seq<u8>,
        q: Seq<u8>,
        f1: F,
        f2: F,
        r1: Option<F>,
        r2: Option<F>,
    )
        requires
            b0.wf(),
            b1.wf(),
            valid_path(p),
            valid_path(q),
            spec_path_eq(p, q),
            b0.spec_inserted(b1, normalize(p), f1, r1),
            b1.spec_inserted(b2, normalize(q), f2, r2),
        ensures
            r2 == Some(f1),
            b2.spec_names() == b1.spec_names(),
            exists|i: int|
                0 <= i < b1.spec_names().len() && spec_path_eq(#[trigger] b1.spec_names()[i], q)
                    && b2.spec_files() == b1.spec_files().update(i, f2),
            forall|i: int, j: int|
                0 <= i < b2.spec_names().len() && 0 <= j < b2.spec_names().len() && spec_path_eq(
                    #[trigger] b2.spec_names()[i],
                    q,
                ) && spec_path_eq(#[trigger] b2.spec_names()[j], q) ==> i == j,
    {
        lemma_path_eq_iff_same_normal(p, q);
        let k = normalize(p);
        let n0 = b0.spec_names();
        let f0 = b0.spec_files();
        let n1 = b1.spec_names();
        let f1s = b1.spec_files();
        lemma_keys_distinct(n1);
        let i = if r1 is Some {
            choose|i: int|
                0 <= i < n0.len() && #[trigger] n0[i] == k && n1 == n0 && f1s == f0.update(i, f1)
                    && r1 == Some(f0[i])
        } else {
            choose|i: int| 0 <= i <= n0.len() && #[trigger] n0.insert(i, k) == n1 && f1s == f0.insert(i, f1)
        };
        assert(n1[i] == k);
        assert(f1s[i] == f1);
        assert(n1.contains(k));
        let j = choose|j: int|
            0 <= j < n1.len() && #[trigger] n1[j] == k && b2.spec_names() == n1 && b2.spec_files()
                == f1s.update(j, f2) && r2 == Some(f1s[j]);
        assert(j == i);
        lemma_normalize_idempotent(n1[i]);
        lemma_path_eq_iff_same_normal(n1[i], q);
        assert forall|a: int, c: int|
            0 <= a < b2.spec_names().len() && 0 <= c < b2.spec_names().len() && spec_path_eq(
                #[trigger] b2.spec_names()[a],
                q,
            ) && spec_path_eq(#[trigger] b2.spec_names()[c], q) implies a == c by {
            lemma_normalize_idempotent(n1[a]);
            lemma_path_eq_iff_same_normal(n1[a], q);
            lemma_normalize_idempotent(n1[c]);
            lemma_path_eq_iff_same_normal(n1[c], q);
        }
    }

    /// Create a new builder with the given version settings.
    pub fn new(version_settings: V) -> (r: Self)
        ensures
            r.wf(),
            r.spec_names().len() == 0,
            r.spec_files().len() == 0,
            r.spec_settings() == version_settings,
            r.spec_limit() == 260,
    {
        let r = MegBuilder {
            version_settings,
            files: BuilderFiles { entries: Vec::new() },
            name_length_limit: 260,
        };
        assert(r.spec_names() =~= Seq::<Seq<u8>>::empty());
        r
    }

    /// Number of files in the builder.
    pub fn len(&self) -> (r: usize)
        ensures
            r == self.spec_names().len(),
    {
        proof {
            use_type_invariant(&self.files);
        }
        self.files.entries.len()
    }

    /// Inserts a file into the builder under the normalized form of `path`. If a file with the
    /// same normalized path was already in the builder, it is replaced and returned; otherwise the
    /// new file goes to its place in the builder's order.
    pub fn insert(&mut self, path: MegPathBuf, file: F) -> (r: Option<F>)
        ensures
            old(self).wf(),
            final(self).wf(),
            final(self).spec_settings() == old(self).spec_settings(),
            final(self).spec_limit() == old(self).spec_limit(),
            old(self).spec_inserted(*final(self), normalize(path@), file, r),
    {
        proof {
            use_type_invariant(&self.files);
        }
        self.files.insert(path, file)
    }

    /// Removes the file stored under the normalized form of `path`, if any.
    pub fn remove(&mut self, path: &MegPath) -> (r: Option<F>)
        ensures
            old(self).wf(),
            final(self).wf(),
            final(self).spec_settings() == old(self).spec_settings(),
            final(self).spec_limit() == old(self).spec_limit(),
            old(self).spec_removed(*final(self), normalize(path@), r),
    {
        proof {
            use_type_invariant(&self.files);
        }
        self.files.remove(path)
    }

    /// Gets the length limit for MEGA file path names (default 260, the Windows path length
    /// limit). Building fails if a name is longer.
    pub fn name_length_limit(&self) -> (r: u16)
        ensures
            r == self.spec_limit(),
    {
        self.name_length_limit
    }

    /// Sets the length limit for MEGA file path names.
    pub fn set_name_length_limit(&mut self, len: u16)
        ensures
            final(self).spec_limit() == len,
            final(self).spec_names() == old(self).spec_names(),
            final(self).spec_files() == old(self).spec_files(),
            final(self).spec_settings() == old(self).spec_settings(),
    {
        proof {
            use_type_invariant(&self.files);
        }
        self.name_length_limit = len;
    }
}

impl<F> MegBuilder<F, AnyVersionSettings> {
    /// Changes the MEGA file version that is written. A key set for encryption only applies to V3.
    pub fn set_version(&mut self, version: MegVersion)
        ensures
            final(self).spec_settings().spec_version() == version,
            final(self).spec_settings().spec_encryption() == old(self).spec_settings().spec_encryption(),
            final(self).spec_limit() == old(self).spec_limit(),
            final(self).spec_names() == old(self).spec_names(),
            final(self).spec_files() == old(self).spec_files(),
    {
        proof {
            use_type_invariant(&self.files);
        }
        self.version_settings.set_version(version);
    }
}

impl<F, V: WriteEncrypted> MegBuilder<F, V> {
    /// Gets the encryption key of the builder.
    pub fn encryption(&self) -> (r: Option<&Key>)
        ensures
            opt_key_view(r) == self.spec_settings().spec_encryption(),
    {
        self.version_settings.encryption()
    }

    /// Sets the encryption key of the builder; `None` turns encryption off. It only applies when
    /// the version written is V3.
    pub fn set_encryption(&mut self, encryption: Option<Key>)
        ensures
            final(self).spec_settings().spec_encryption() == owned_key_view(encryption),
            final(self).spec_limit() == old(self).spec_limit(),
            final(self).spec_names() == old(self).spec_names(),
            final(self).spec_files() == old(self).spec_files(),
    {
        proof {
            use_type_invariant(&self.files);
        }
        self.version_settings.set_encryption(encryption);
    }
}


/// The total length of the name records of `names[i..]` after `acc` bytes of earlier records:
/// each record is a `u16` length and the name. The first name over `limit` is an error, and so is
/// a total that leaves 32 bits.
pub open spec fn spec_name_records_len_from(names: Seq<Seq<u8>>, i: int, acc: int, limit: u16) -> Result<
    u32,
    BuildMegError,
>
    decreases names.len() - i,
{
    if i < 0 || i >= names.len() {
        Ok(acc as u32)
    } else if names[i].len() > limit {
        Err(BuildMegError::NameTooLong { len: names[i].len() as usize, limit })
    } else if acc + 2 + names[i].len() > u32::MAX {
        Err(BuildMegError::OffsetTooLarge)
    } else {
        spec_name_records_len_from(names, i + 1, acc + 2 + names[i].len(), limit)
    }
}

/// Measuring the name records fails only with a name too long, which is one of the names and
/// longer than the limit, or a table past 32 bits; with every name within the limit, never
/// with a name too long.
proof fn lemma_name_records_len_errors(names: Seq<Seq<u8>>, i: int, acc: int, limit: u16)
    requires
        0 <= i,
    ensures
        spec_name_records_len_from(names, i, acc, limit) matches Err(e) ==> (e is NameTooLong
            || e is OffsetTooLarge),
        spec_name_records_len_from(names, i, acc, limit) matches Err(BuildMegError::NameTooLong {
            len,
            limit: l,
        }) ==> (l == limit && exists|j: int|
            i <= j < names.len() && names[j].len() > limit && len == #[trigger] names[j].len() as usize),
        (forall|j: int| i <= j < names.len() ==> #[trigger] names[j].len() <= limit) ==> !(
        spec_name_records_len_from(names, i, acc, limit) matches Err(BuildMegError::NameTooLong { .. })),
    decreases names.len() - i,
{
    if i < names.len() {
        lemma_name_records_len_errors(names, i + 1, acc + 2 + names[i].len(), limit);
    }
}

/// Building fails before reading any file only with a name too long, too many files, or tables
/// past 32 bits. A name too long is one of the names, longer than the limit, reported with that
/// limit; when every name is within the limit, building never fails with a name too long.
pub proof fn lemma_prelude_errors(v: MegVersion, encrypted: bool, names: Seq<Seq<u8>>, limit: u16)
    ensures
        spec_prelude(v, encrypted, names, limit) matches Err(e) ==> (e is NameTooLong
            || e is TooManyFiles || e is OffsetTooLarge),
        spec_prelude(v, encrypted, names, limit) matches Err(BuildMegError::NameTooLong {
            len,
            limit: l,
        }) ==> (l == limit && exists|j: int|
            0 <= j < names.len() && names[j].len() > limit && len == #[trigger] names[j].len() as usize),
        (forall|j: int| 0 <= j < names.len() ==> #[trigger] names[j].len() <= limit) ==> !(spec_prelude(
            v,
            encrypted,
            names,
            limit,
        ) matches Err(BuildMegError::NameTooLong { .. })),
{
    lemma_name_records_len_errors(names, 0, 0, limit);
}

/// The length of the names table: the name records, padded to whole blocks when encrypted.
pub open spec fn spec_names_len(names: Seq<Seq<u8>>, limit: u16, encrypted: bool) -> Result<
    u32,
    BuildMegError,
> {
    match spec_name_records_len_from(names, 0, 0, limit) {
        Err(e) => Err(e),
        Ok(n) => match spec_adjust_len(encrypted, n) {
            Some(m) => Ok(m),
            None => Err(BuildMegError::OffsetTooLarge),
        },
    }
}

/// The length of the file table for `n` files.
pub open spec fn spec_file_records_len(v: MegVersion, encrypted: bool, n: nat) -> Result<
    u32,
    BuildMegError,
> {
    if n > u32::MAX || n > spec_file_limit(v) {
        Err(BuildMegError::TooManyFiles { files: n as usize, limit: spec_file_limit(v) })
    } else if n * spec_file_record_size(v, encrypted) > u32::MAX {
        Err(BuildMegError::OffsetTooLarge)
    } else {
        Ok((n * spec_file_record_size(v, encrypted)) as u32)
    }
}

/// The length of the names table and the end of the file table, where file data begins.
pub open spec fn spec_prelude(v: MegVersion, encrypted: bool, names: Seq<Seq<u8>>, limit: u16) -> Result<
    (u32, u32),
    BuildMegError,
> {
    match spec_names_len(names, limit, encrypted) {
        Err(e) => Err(e),
        Ok(names_len) => if spec_header_size(v) + names_len > u32::MAX {
            Err(BuildMegError::OffsetTooLarge)
        } else {
            match spec_file_records_len(v, encrypted, names.len()) {
                Err(e) => Err(e),
                Ok(files_len) => if spec_header_size(v) + names_len + files_len > u32::MAX {
                    Err(BuildMegError::OffsetTooLarge)
                } else {
                    Ok((names_len, (spec_header_size(v) + names_len + files_len) as u32))
                },
            }
        },
    }
}

/// One step of placing files: the start of a file that reported `len` bytes is `next`, its
/// size is `len`, and the following file starts after its (padded) size; `None` once that leaves
/// 32 bits.
///
/// A file over 32 bits, or whose padded size is, is an error; so is a file that would start past
/// the 32 bit limit. The last file may end past it.
pub open spec fn spec_offset_step(encrypted: bool, next: Option<u32>, len: u64) -> Result<
    (u32, u32, Option<u32>),
    BuildMegError,
> {
    match next {
        None => Err(BuildMegError::OffsetTooLarge),
        Some(start) => if len > u32::MAX {
            Err(BuildMegError::FileTooLarge { size: len })
        } else {
            match spec_adjust_len(encrypted, len as u32) {
                None => Err(BuildMegError::FileTooLarge { size: len }),
                Some(step) => Ok(
                    (
                        start,
                        len as u32,
                        if start + step <= u32::MAX {
                            Some((start + step) as u32)
                        } else {
                            None
                        },
                    ),
                ),
            }
        },
    }
}

/// The starts and sizes of the files with these reported lengths, placed in order from
/// `files_end`, and where a further file would start.
pub open spec fn spec_offsets(encrypted: bool, lens: Seq<u64>, files_end: u32) -> Result<
    (Seq<u32>, Seq<u32>, Option<u32>),
    BuildMegError,
>
    decreases lens.len(),
{
    if lens.len() == 0 {
        Ok((Seq::empty(), Seq::empty(), Some(files_end)))
    } else {
        match spec_offsets(encrypted, lens.drop_last(), files_end) {
            Err(e) => Err(e),
            Ok((starts, sizes, next)) => match spec_offset_step(encrypted, next, lens.last()) {
                Err(e) => Err(e),
                Ok((start, size, after)) => Ok((starts.push(start), sizes.push(size), after)),
            },
        }
    }
}

/// Placing never fails on a longer list of lengths where it failed on a prefix.
proof fn lemma_offsets_prefix_err(encrypted: bool, lens: Seq<u64>, k: int, files_end: u32)
    requires
        0 <= k <= lens.len(),
        spec_offsets(encrypted, lens.subrange(0, k), files_end) is Err,
    ensures
        spec_offsets(encrypted, lens, files_end) == spec_offsets(
            encrypted,
            lens.subrange(0, k),
            files_end,
        ),
    decreases lens.len() - k,
{
    if k < lens.len() {
        let p = lens.subrange(0, k + 1);
        assert(p.drop_last() =~= lens.subrange(0, k));
        lemma_offsets_prefix_err(encrypted, lens, k + 1, files_end);
    } else {
        assert(lens.subrange(0, k) =~= lens);
    }
}

/// Placed offsets cover every file.
pub(crate) proof fn lemma_offsets_lengths(encrypted: bool, lens: Seq<u64>, files_end: u32)
    ensures
        spec_offsets(encrypted, lens, files_end) matches Ok((s, z, _)) ==> s.len() == lens.len()
            && z.len() == lens.len(),
    decreases lens.len(),
{
    if lens.len() > 0 {
        lemma_offsets_lengths(encrypted, lens.drop_last(), files_end);
    }
}

/// Placed sizes are the reported lengths.
pub(crate) proof fn lemma_offsets_sizes(encrypted: bool, lens: Seq<u64>, files_end: u32)
    ensures
        spec_offsets(encrypted, lens, files_end) matches Ok((s, z, _)) ==> forall|i: int|
            0 <= i < z.len() ==> #[trigger] z[i] == lens[i],
    decreases lens.len(),
{
    lemma_offsets_lengths(encrypted, lens, files_end);
    if lens.len() > 0 {
        lemma_offsets_sizes(encrypted, lens.drop_last(), files_end);
        lemma_offsets_lengths(encrypted, lens.drop_last(), files_end);
    }
}

/// The layout of a MEGA file as plain values.
pub struct LayoutView {
    pub names_len: u32,
    pub files_end: u32,
    pub starts: Seq<u32>,
    pub sizes: Seq<u32>,
}

/// The layout of a MEGA file: the length of the names table, where the file data begins, and the
/// start and size of each file.
pub struct MegLayout {
    pub names_len: u32,
    pub files_end: u32,
    pub starts: Vec<u32>,
    pub sizes: Vec<u32>,
}

impl View for MegLayout {
    type V = LayoutView;

    open spec fn view(&self) -> LayoutView {
        LayoutView {
            names_len: self.names_len,
            files_end: self.files_end,
            starts: self.starts@,
            sizes: self.sizes@,
        }
    }
}

/// The layout of a MEGA file with these names, given the lengths the files report.
pub open spec fn spec_layout(
    v: MegVersion,
    encrypted: bool,
    names: Seq<Seq<u8>>,
    limit: u16,
    lens: Seq<u64>,
) -> Result<LayoutView, BuildMegError> {
    match spec_prelude(v, encrypted, names, limit) {
        Err(e) => Err(e),
        Ok((names_len, files_end)) => match spec_offsets(encrypted, lens, files_end) {
            Err(e) => Err(e),
            Ok((starts, sizes, _)) => Ok(LayoutView { names_len, files_end, starts, sizes }),
        },
    }
}

/// The header: V1 writes the file count twice; V2 writes `0xFFFFFFFF`, [`ID2`], the data offset
/// and the file count twice; V3 writes like V2, starting with `0x8FFFFFFF` when encrypted, and adds
/// the names table length.
pub open spec fn spec_header_bytes(
    v: MegVersion,
    encrypted: bool,
    num_files: u32,
    data_offset: u32,
    names_len: u32,
) -> Seq<u8> {
    match v {
        MegVersion::V1 => u32_le_bytes(num_files) + u32_le_bytes(num_files),
        MegVersion::V2 => u32_le_bytes(ID_PLAIN) + u32_le_bytes(ID2) + u32_le_bytes(data_offset)
            + u32_le_bytes(num_files) + u32_le_bytes(num_files),
        MegVersion::V3 => u32_le_bytes(
            if encrypted {
                ID_ENCRYPTED
            } else {
                ID_PLAIN
            },
        ) + u32_le_bytes(ID2) + u32_le_bytes(data_offset) + u32_le_bytes(num_files) + u32_le_bytes(
            num_files,
        ) + u32_le_bytes(names_len),
    }
}

/// A built MEGA file starts with the header of its version: V1 with the file count twice; V2
/// and V3 with `0xFFFFFFFF` (V3 encrypted: `0x8FFFFFFF`) and then [`ID2`], followed by the data
/// offset and the rest of the header.
pub proof fn lemma_build_starts_with_header(
    v: MegVersion,
    key: Option<(Seq<u8>, Seq<u8>)>,
    names: Seq<Seq<u8>>,
    limit: u16,
    lens: Seq<u64>,
    contents: Seq<Seq<u8>>,
    out: Seq<u8>,
)
    requires
        spec_build(v, key, names, limit, lens, contents) == Ok::<Seq<u8>, BuildMegError>(out),
    ensures
        spec_layout(v, key is Some, names, limit, lens) is Ok,
        out.len() >= spec_header_size(v),
        out.subrange(0, spec_header_size(v) as int) == spec_header_bytes(
            v,
            key is Some,
            names.len() as u32,
            spec_layout(v, key is Some, names, limit, lens)->Ok_0.files_end,
            spec_layout(v, key is Some, names, limit, lens)->Ok_0.names_len,
        ),
        out.subrange(0, 4) == u32_le_bytes(
            match v {
                MegVersion::V1 => names.len() as u32,
                MegVersion::V2 => ID_PLAIN,
                MegVersion::V3 => if key is Some {
                    ID_ENCRYPTED
                } else {
                    ID_PLAIN
                },
            },
        ),
        v != MegVersion::V1 ==> out.subrange(4, 8) == u32_le_bytes(ID2),
{
    let l = spec_layout(v, key is Some, names, limit, lens)->Ok_0;
    let h = spec_header_bytes(v, key is Some, names.len() as u32, l.files_end, l.names_len);
    let rest = spec_names_bytes(key, names) + spec_records_bytes(
        v,
        key,
        names,
        l.starts,
        l.sizes,
        names.len() as int,
    ) + spec_data_bytes(key, contents);
    assert(out =~= h + rest);
    assert(h.len() == spec_header_size(v));
    assert(out.subrange(0, spec_header_size(v) as int) =~= h);
    assert(out.subrange(0, 4) =~= h.subrange(0, 4));
    assert(out.subrange(4, 8) =~= h.subrange(4, 8));
}

/// The name records: a `u16` length and the name, for each name in order.
pub open spec fn spec_name_records(names: Seq<Seq<u8>>) -> Seq<u8>
    decreases names.len(),
{
    if names.len() == 0 {
        Seq::empty()
    } else {
        spec_name_records(names.drop_last()) + u16_le_bytes(names.last().len() as u16)
            + names.last()
    }
}

/// The names table: the name records, encrypted when a key is used.
pub open spec fn spec_names_bytes(key: Option<(Seq<u8>, Seq<u8>)>, names: Seq<Seq<u8>>) -> Seq<
    u8,
> {
    match key {
        Some(k) => spec_encrypt_section(k, spec_name_records(names)),
        None => spec_name_records(names),
    }
}

/// The 18 byte body of a V3 file record.
pub open spec fn spec_record_body_v3(crc: u32, index: u32, start: u32, size: u32) -> Seq<u8> {
    u32_le_bytes(crc) + u32_le_bytes(index) + u32_le_bytes(size) + u32_le_bytes(start)
        + u16_le_bytes(index as u16)
}

/// One file record. The file's index doubles as its name index. V1 and V2 records are five
/// words; a V3 record is a flags word (1 when encrypted) and the body, encrypted when a key is
/// used.
pub open spec fn spec_record_bytes(
    v: MegVersion,
    key: Option<(Seq<u8>, Seq<u8>)>,
    crc: u32,
    index: u32,
    start: u32,
    size: u32,
) -> Seq<u8> {
    match v {
        MegVersion::V3 => match key {
            Some(k) => u16_le_bytes(1) + spec_encrypt_section(
                k,
                spec_record_body_v3(crc, index, start, size),
            ),
            None => u16_le_bytes(0) + spec_record_body_v3(crc, index, start, size),
        },
        _ => u32_le_bytes(crc) + u32_le_bytes(index) + u32_le_bytes(size) + u32_le_bytes(start)
            + u32_le_bytes(index),
    }
}

/// The file table for the first `n` files.
pub open spec fn spec_records_bytes(
    v: MegVersion,
    key: Option<(Seq<u8>, Seq<u8>)>,
    names: Seq<Seq<u8>>,
    starts: Seq<u32>,
    sizes: Seq<u32>,
    n: int,
) -> Seq<u8>
    decreases n,
{
    if n <= 0 {
        Seq::empty()
    } else {
        spec_records_bytes(v, key, names, starts, sizes, n - 1) + spec_record_bytes(
            v,
            key,
            crc32(names[n - 1]),
            (n - 1) as u32,
            starts[n - 1],
            sizes[n - 1],
        )
    }
}

/// The stored bytes of one file: its contents, padded and encrypted when a key is used.
pub open spec fn spec_file_bytes(key: Option<(Seq<u8>, Seq<u8>)>, content: Seq<u8>) -> Seq<u8> {
    match key {
        Some(k) => spec_encrypt_section(k, content),
        None => content,
    }
}

/// The data section: the stored bytes of each file in order.
pub open spec fn spec_data_bytes(key: Option<(Seq<u8>, Seq<u8>)>, contents: Seq<Seq<u8>>) -> Seq<
    u8,
>
    decreases contents.len(),
{
    if contents.len() == 0 {
        Seq::empty()
    } else {
        spec_data_bytes(key, contents.drop_last()) + spec_file_bytes(key, contents.last())
    }
}

/// The first file from `i` on whose contents differ in length from the size it reported.
pub open spec fn spec_size_mismatch_from(sizes: Seq<u32>, contents: Seq<Seq<u8>>, i: int) -> Option<
    BuildMegError,
>
    decreases contents.len() - i,
{
    if i < 0 || i >= contents.len() {
        None
    } else if contents[i].len() != sizes[i] {
        Some(
            BuildMegError::InaccurateFileSize {
                reported_size: sizes[i],
                actual_size: contents[i].len() as u64,
            },
        )
    } else {
        spec_size_mismatch_from(sizes, contents, i + 1)
    }
}

/// Contents that all have their reported sizes give no size mismatch.
proof fn lemma_no_size_mismatch(sizes: Seq<u32>, contents: Seq<Seq<u8>>, i: int)
    requires
        0 <= i,
        sizes.len() == contents.len(),
        forall|k: int| 0 <= k < contents.len() ==> #[trigger] contents[k].len() == sizes[k],
    ensures
        spec_size_mismatch_from(sizes, contents, i) is None,
    decreases contents.len() - i,
{
    if i < contents.len() {
        lemma_no_size_mismatch(sizes, contents, i + 1);
    }
}

/// The bytes of a MEGA file: header, names table, file table, then the file data; or the error
/// for the first file whose contents differ in length from what it reported.
pub open spec fn spec_encode(
    v: MegVersion,
    key: Option<(Seq<u8>, Seq<u8>)>,
    names: Seq<Seq<u8>>,
    layout: LayoutView,
    contents: Seq<Seq<u8>>,
) -> Result<Seq<u8>, BuildMegError> {
    match spec_size_mismatch_from(layout.sizes, contents, 0) {
        Some(e) => Err(e),
        None => Ok(
            spec_header_bytes(
                v,
                key is Some,
                names.len() as u32,
                layout.files_end,
                layout.names_len,
            ) + spec_names_bytes(key, names) + spec_records_bytes(
                v,
                key,
                names,
                layout.starts,
                layout.sizes,
                names.len() as int,
            ) + spec_data_bytes(key, contents),
        ),
    }
}


/// Whether a layout result agrees with the specified one.
pub open spec fn layout_matches(
    r: Result<MegLayout, BuildMegError>,
    s: Result<LayoutView, BuildMegError>,
) -> bool {
    match r {
        Ok(l) => s == Ok::<LayoutView, BuildMegError>(l@),
        Err(e) => s == Err::<LayoutView, BuildMegError>(e),
    }
}

/// The plain values of a list of file contents.
pub open spec fn contents_view(c: Seq<Vec<u8>>) -> Seq<Seq<u8>> {
    c.map_values(|v: Vec<u8>| v@)
}

/// Length of the names table; see [`spec_names_len`].
fn names_len(names: &Vec<MegPathBuf>, limit: u16, encrypted: bool) -> (r: Result<u32, BuildMegError>)
    ensures
        r == spec_names_len(paths_of(names@), limit, encrypted),
{
    let ghost ns = paths_of(names@);
    let mut acc: u32 = 0;
    let mut i: usize = 0;
    while i < names.len()
        invariant
            ns == paths_of(names@),
            0 <= i <= names@.len(),
            spec_name_records_len_from(ns, 0, 0, limit) == spec_name_records_len_from(
                ns,
                i as int,
                acc as int,
                limit,
            ),
        decreases names@.len() - i,
    {
        let len = names[i].len();
        assert(ns[i as int] == names@[i as int]@);
        if len > limit as usize {
            return Err(BuildMegError::NameTooLong { len, limit });
        }
        let record_len = 2 + len as u64;
        if acc as u64 + record_len > u32::MAX as u64 {
            return Err(BuildMegError::OffsetTooLarge);
        }
        acc = (acc as u64 + record_len) as u32;
        i = i + 1;
    }
    match adjust_len(encrypted, acc) {
        Some(m) => Ok(m),
        None => Err(BuildMegError::OffsetTooLarge),
    }
}

/// The plain values of a list of paths.
pub open spec fn paths_of(v: Seq<MegPathBuf>) -> Seq<Seq<u8>> {
    v.map_values(|p: MegPathBuf| p@)
}

/// How many files a build can hold: a V3 file at most 65535, a V1 or V2 file at most
/// `u32::MAX`. Up to that many, building never fails with too many files; past it, building
/// fails with too many files (the count and that limit) unless a name already failed or the
/// names table left 32 bits.
pub proof fn lemma_file_count_limit(v: MegVersion, encrypted: bool, names: Seq<Seq<u8>>, limit: u16)
    ensures
        ({
            let most: int = if v == MegVersion::V3 {
                65535
            } else {
                0xFFFF_FFFF
            };
            let r = spec_prelude(v, encrypted, names, limit);
            &&& names.len() <= most ==> !(r matches Err(BuildMegError::TooManyFiles { .. }))
            &&& r matches Err(BuildMegError::TooManyFiles { files, limit: l }) ==> files
                == names.len() as usize && l == most && names.len() > most
            &&& (names.len() > most && spec_names_len(names, limit, encrypted) is Ok
                && spec_header_size(v) + spec_names_len(names, limit, encrypted)->Ok_0 <= u32::MAX)
                ==> r == Err::<(u32, u32), BuildMegError>(
                BuildMegError::TooManyFiles { files: names.len() as usize, limit: most as u32 },
            )
        }),
{
    lemma_name_records_len_errors(names, 0, 0, limit);
}

/// Length of the names table and end of the file table; see [`spec_prelude`].
fn prelude(v: MegVersion, encrypted: bool, names: &Vec<MegPathBuf>, limit: u16) -> (r: Result<
    (u32, u32),
    BuildMegError,
>)
    ensures
        r == spec_prelude(v, encrypted, paths_of(names@), limit),
{
    let names_len = match names_len(names, limit, encrypted) {
        Ok(n) => n,
        Err(e) => return Err(e),
    };
    let names_start = header_size(v);
    if names_start as u64 + names_len as u64 > u32::MAX as u64 {
        return Err(BuildMegError::OffsetTooLarge);
    }
    let names_end = names_start + names_len;
    let n = names.len();
    let limit_files = file_limit(v);
    if n > u32::MAX as usize || n as u32 > limit_files {
        return Err(BuildMegError::TooManyFiles { files: n, limit: limit_files });
    }
    let record_size = file_record_size(v, encrypted);
    assert(record_size <= 34);
    assert(n as u64 * record_size as u64 <= 0xFFFF_FFFFu64 * 34) by (nonlinear_arith)
        requires
            n <= 0xFFFF_FFFFusize,
            record_size <= 34,
    ;
    let files_len_wide = n as u64 * record_size as u64;
    assert(n as u64 * record_size as u64 == n * spec_file_record_size(v, encrypted));
    if files_len_wide > u32::MAX as u64 {
        return Err(BuildMegError::OffsetTooLarge);
    }
    let files_len = files_len_wide as u32;
    if names_end as u64 + files_len as u64 > u32::MAX as u64 {
        return Err(BuildMegError::OffsetTooLarge);
    }
    Ok((names_len, names_end + files_len))
}

/// One step of placing files; see [`spec_offset_step`].
fn offset_step(encrypted: bool, next: Option<u32>, len: u64) -> (r: Result<
    (u32, u32, Option<u32>),
    BuildMegError,
>)
    ensures
        r == spec_offset_step(encrypted, next, len),
{
    let start = match next {
        Some(s) => s,
        None => return Err(BuildMegError::OffsetTooLarge),
    };
    if len > u32::MAX as u64 {
        return Err(BuildMegError::FileTooLarge { size: len });
    }
    let size = len as u32;
    let step = match adjust_len(encrypted, size) {
        Some(s) => s,
        None => return Err(BuildMegError::FileTooLarge { size: len }),
    };
    let after = if start as u64 + step as u64 <= u32::MAX as u64 {
        Some(start + step)
    } else {
        None
    };
    Ok((start, size, after))
}

/// The file layout for the given file lengths; see [`spec_layout`].
fn compute_layout(
    v: MegVersion,
    encrypted: bool,
    names: &Vec<MegPathBuf>,
    limit: u16,
    lens: &Vec<u64>,
) -> (r: Result<MegLayout, BuildMegError>)
    ensures
        layout_matches(r, spec_layout(v, encrypted, paths_of(names@), limit, lens@)),
        r matches Ok(l) ==> l.starts@.len() == lens@.len() && l.sizes@.len() == lens@.len(),
{
    let (names_len, files_end) = match prelude(v, encrypted, names, limit) {
        Ok(x) => x,
        Err(e) => return Err(e),
    };
    let mut starts: Vec<u32> = Vec::new();
    let mut sizes: Vec<u32> = Vec::new();
    let mut next: Option<u32> = Some(files_end);
    let mut i: usize = 0;
    assert(lens@.subrange(0, 0) =~= Seq::<u64>::empty());
    while i < lens.len()
        invariant
            0 <= i <= lens@.len(),
            spec_prelude(v, encrypted, paths_of(names@), limit) == Ok::<(u32, u32), BuildMegError>(
                (names_len, files_end),
            ),
            spec_offsets(encrypted, lens@.subrange(0, i as int), files_end) == Ok::<
                (Seq<u32>, Seq<u32>, Option<u32>),
                BuildMegError,
            >((starts@, sizes@, next)),
        decreases lens@.len() - i,
    {
        let step = offset_step(encrypted, next, lens[i]);
        proof {
            let p = lens@.subrange(0, i + 1);
            assert(p.drop_last() =~= lens@.subrange(0, i as int));
            assert(p.last() == lens@[i as int]);
        }
        let (start, size, after) = match step {
            Ok(x) => x,
            Err(e) => {
                proof {
                    lemma_offsets_prefix_err(encrypted, lens@, i + 1, files_end);
                }
                return Err(e);
            },
        };
        starts.push(start);
        sizes.push(size);
        next = after;
        i = i + 1;
    }
    assert(lens@.subrange(0, lens@.len() as int) =~= lens@);
    proof {
        lemma_offsets_lengths(encrypted, lens@, files_end);
    }
    Ok(MegLayout { names_len, files_end, starts, sizes })
}

/// Appends the header; see [`spec_header_bytes`].
fn write_header(
    out: &mut Vec<u8>,
    v: MegVersion,
    encrypted: bool,
    num_files: u32,
    data_offset: u32,
    names_len: u32,
)
    ensures
        final(out)@ == old(out)@ + spec_header_bytes(v, encrypted, num_files, data_offset, names_len),
{
    let ghost start = out@;
    match v {
        MegVersion::V1 => {
            push_u32_le(out, num_files);
            push_u32_le(out, num_files);
            assert(out@ =~= start + spec_header_bytes(v, encrypted, num_files, data_offset, names_len));
        },
        MegVersion::V2 => {
            push_u32_le(out, ID_PLAIN);
            push_u32_le(out, ID2);
            push_u32_le(out, data_offset);
            push_u32_le(out, num_files);
            push_u32_le(out, num_files);
            assert(out@ =~= start + spec_header_bytes(v, encrypted, num_files, data_offset, names_len));
        },
        MegVersion::V3 => {
            let flags = if encrypted {
                ID_ENCRYPTED
            } else {
                ID_PLAIN
            };
            push_u32_le(out, flags);
            push_u32_le(out, ID2);
            push_u32_le(out, data_offset);
            push_u32_le(out, num_files);
            push_u32_le(out, num_files);
            push_u32_le(out, names_len);
            assert(out@ =~= start + spec_header_bytes(v, encrypted, num_files, data_offset, names_len));
        },
    }
}

/// The name records; see [`spec_name_records`].
fn name_records(names: &Vec<MegPathBuf>) -> (r: Vec<u8>)
    ensures
        r@ == spec_name_records(paths_of(names@)),
{
    let ghost ns = paths_of(names@);
    let mut out: Vec<u8> = Vec::new();
    let mut i: usize = 0;
    assert(ns.subrange(0, 0) =~= Seq::<Seq<u8>>::empty());
    while i < names.len()
        invariant
            ns == paths_of(names@),
            0 <= i <= names@.len(),
            out@ == spec_name_records(ns.subrange(0, i as int)),
        decreases names@.len() - i,
    {
        let name = names[i].as_bytes();
        let ghost before = out@;
        push_u16_le(&mut out, name.len() as u16);
        append_bytes(&mut out, name);
        proof {
            let pre = ns.subrange(0, i + 1);
            assert(pre.drop_last() =~= ns.subrange(0, i as int));
            assert(pre.last() == name@);
            assert(out@ =~= before + u16_le_bytes(name@.len() as u16) + name@);
        }
        i = i + 1;
    }
    assert(ns.subrange(0, names@.len() as int) =~= ns);
    out
}

/// Appends one file record; see [`spec_record_bytes`].
fn write_file_record(
    out: &mut Vec<u8>,
    v: MegVersion,
    key: Option<&Key>,
    crc: u32,
    index: u32,
    start: u32,
    size: u32,
)
    ensures
        final(out)@ == old(out)@ + spec_record_bytes(v, opt_key_view(key), crc, index, start, size),
        v == MegVersion::V3 && key is Some ==> cipher_roundtrips(
            opt_key_view(key)->Some_0,
            pad_to_block(spec_record_body_v3(crc, index, start, size)),
        ),
{
    let ghost before = out@;
    match v {
        MegVersion::V3 => {
            let mut body: Vec<u8> = Vec::new();
            push_u32_le(&mut body, crc);
            push_u32_le(&mut body, index);
            push_u32_le(&mut body, size);
            push_u32_le(&mut body, start);
            push_u16_le(&mut body, index as u16);
            assert(body@ =~= spec_record_body_v3(crc, index, start, size));
            match key {
                Some(k) => {
                    push_u16_le(out, 1);
                    let enc = encrypt_section(k, body.as_slice());
                    append_bytes(out, enc.as_slice());
                },
                None => {
                    push_u16_le(out, 0);
                    append_bytes(out, body.as_slice());
                },
            }
            assert(out@ =~= before + spec_record_bytes(v, opt_key_view(key), crc, index, start, size));
        },
        _ => {
            push_u32_le(out, crc);
            push_u32_le(out, index);
            push_u32_le(out, size);
            push_u32_le(out, start);
            push_u32_le(out, index);
            assert(out@ =~= before + spec_record_bytes(v, opt_key_view(key), crc, index, start, size));
        },
    }
}

/// What the encryption wrapper stated of the sections a build encrypted: each decrypts back to
/// its padded plaintext.
pub open spec fn sections_roundtrip(
    v: MegVersion,
    key: Option<(Seq<u8>, Seq<u8>)>,
    names: Seq<Seq<u8>>,
    starts: Seq<u32>,
    sizes: Seq<u32>,
    contents: Seq<Seq<u8>>,
) -> bool {
    key matches Some(k) ==> {
        &&& cipher_roundtrips(k, pad_to_block(spec_name_records(names)))
        &&& v == MegVersion::V3 ==> forall|i: int|
            0 <= i < names.len() ==> #[trigger] cipher_roundtrips(
                k,
                pad_to_block(spec_record_body_v3(crc32(names[i]), i as u32, starts[i], sizes[i])),
            )
        &&& forall|i: int| 0 <= i < contents.len() ==> #[trigger] cipher_roundtrips(
            k,
            pad_to_block(contents[i]),
        )
    }
}

/// The header, the names table and the file table of a MEGA file with this layout: what
/// precedes the file data.
pub open spec fn spec_encode_prefix(
    v: MegVersion,
    key: Option<(Seq<u8>, Seq<u8>)>,
    names: Seq<Seq<u8>>,
    layout: LayoutView,
) -> Seq<u8> {
    spec_header_bytes(v, key is Some, names.len() as u32, layout.files_end, layout.names_len)
        + spec_names_bytes(key, names) + spec_records_bytes(
        v,
        key,
        names,
        layout.starts,
        layout.sizes,
        names.len() as int,
    )
}

/// What the encryption wrapper stated of the names table and the file records a build
/// encrypted: each decrypts back to its padded plaintext.
pub open spec fn tables_roundtrip(
    v: MegVersion,
    key: Option<(Seq<u8>, Seq<u8>)>,
    names: Seq<Seq<u8>>,
    starts: Seq<u32>,
    sizes: Seq<u32>,
) -> bool {
    key matches Some(k) ==> {
        &&& cipher_roundtrips(k, pad_to_block(spec_name_records(names)))
        &&& v == MegVersion::V3 ==> forall|i: int|
            0 <= i < names.len() ==> #[trigger] cipher_roundtrips(
                k,
                pad_to_block(spec_record_body_v3(crc32(names[i]), i as u32, starts[i], sizes[i])),
            )
    }
}

/// Appends the header, the names table and the file table; see [`spec_encode_prefix`].
fn encode_prefix(
    v: MegVersion,
    key: Option<&Key>,
    names: &Vec<MegPathBuf>,
    crcs: &Vec<u32>,
    layout: &MegLayout,
    out: &mut Vec<u8>,
)
    requires
        crcs@.len() == names@.len(),
        forall|i: int| 0 <= i < crcs@.len() ==> #[trigger] crcs@[i] == crc32(names@[i]@),
        layout.starts@.len() == names@.len(),
        layout.sizes@.len() == names@.len(),
        names@.len() <= u32::MAX,
    ensures
        final(out)@ == old(out)@ + spec_encode_prefix(v, opt_key_view(key), paths_of(names@), layout@),
        tables_roundtrip(v, opt_key_view(key), paths_of(names@), layout.starts@, layout.sizes@),
{
    let ghost ns = paths_of(names@);
    let n = names.len();
    let ghost start = out@;
    write_header(out, v, key.is_some(), n as u32, layout.files_end, layout.names_len);
    let records = name_records(names);
    match key {
        Some(k) => {
            let enc = encrypt_section(k, records.as_slice());
            append_bytes(out, enc.as_slice());
        },
        None => {
            append_bytes(out, records.as_slice());
        },
    }
    let ghost kv = opt_key_view(key);
    let ghost names_ok = kv matches Some(kk) ==> cipher_roundtrips(kk, pad_to_block(spec_name_records(ns)));
    assert(names_ok);
    let ghost after_names = out@;
    assert(after_names =~= start + spec_header_bytes(v, key is Some, n as u32, layout.files_end, layout.names_len)
        + spec_names_bytes(opt_key_view(key), ns));
    let mut j: usize = 0;
    while j < n
        invariant
            n == names@.len(),
            crcs@.len() == n,
            layout.starts@.len() == n,
            layout.sizes@.len() == n,
            n <= u32::MAX,
            ns == paths_of(names@),
            forall|i: int| 0 <= i < crcs@.len() ==> #[trigger] crcs@[i] == crc32(names@[i]@),
            0 <= j <= n,
            out@ == after_names + spec_records_bytes(
                v,
                opt_key_view(key),
                ns,
                layout.starts@,
                layout.sizes@,
                j as int,
            ),
            kv == opt_key_view(key),
            v == MegVersion::V3 && kv is Some ==> forall|i: int|
                0 <= i < j ==> #[trigger] cipher_roundtrips(
                    kv->Some_0,
                    pad_to_block(
                        spec_record_body_v3(crc32(ns[i]), i as u32, layout.starts@[i], layout.sizes@[i]),
                    ),
                ),
        decreases n - j,
    {
        assert(ns[j as int] == names@[j as int]@);
        write_file_record(out, v, key, crcs[j], j as u32, layout.starts[j], layout.sizes[j]);
        j = j + 1;
    }
    assert(out@ =~= start + spec_encode_prefix(v, opt_key_view(key), ns, layout@));
}

/// Appends the stored bytes of one file: its contents, encrypted and padded to whole blocks
/// when there is a key.
fn append_file_data(key: Option<&Key>, content: &[u8], out: &mut Vec<u8>)
    ensures
        final(out)@ == old(out)@ + spec_file_bytes(opt_key_view(key), content@),
        opt_key_view(key) matches Some(k) ==> cipher_roundtrips(k, pad_to_block(content@)),
{
    match key {
        Some(kk) => {
            let enc = encrypt_section(kk, content);
            append_bytes(out, enc.as_slice());
        },
        None => {
            append_bytes(out, content);
        },
    }
}

/// The bytes of a MEGA file with these names, crcs, layout and contents; see [`spec_encode`].
fn encode_meg(
    v: MegVersion,
    key: Option<&Key>,
    names: &Vec<MegPathBuf>,
    crcs: &Vec<u32>,
    layout: &MegLayout,
    contents: &Vec<Vec<u8>>,
) -> (r: Result<Vec<u8>, BuildMegError>)
    requires
        crcs@.len() == names@.len(),
        forall|i: int| 0 <= i < crcs@.len() ==> #[trigger] crcs@[i] == crc32(names@[i]@),
        layout.starts@.len() == names@.len(),
        layout.sizes@.len() == names@.len(),
        contents@.len() == names@.len(),
        names@.len() <= u32::MAX,
    ensures
        match r {
            Ok(out) => spec_encode(v, opt_key_view(key), paths_of(names@), layout@, contents_view(contents@))
                == Ok::<Seq<u8>, BuildMegError>(out@),
            Err(e) => spec_encode(v, opt_key_view(key), paths_of(names@), layout@, contents_view(contents@))
                == Err::<Seq<u8>, BuildMegError>(e),
        },
        r is Ok ==> sections_roundtrip(
            v,
            opt_key_view(key),
            paths_of(names@),
            layout.starts@,
            layout.sizes@,
            contents_view(contents@),
        ),
{
    let ghost cs = contents_view(contents@);
    let ghost ns = paths_of(names@);
    let n = names.len();
    let mut i: usize = 0;
    while i < n
        invariant
            n == names@.len(),
            contents@.len() == n,
            layout.sizes@.len() == n,
            cs == contents_view(contents@),
            0 <= i <= n,
            spec_size_mismatch_from(layout.sizes@, cs, 0) == spec_size_mismatch_from(
                layout.sizes@,
                cs,
                i as int,
            ),
        decreases n - i,
    {
        assert(cs[i as int] == contents@[i as int]@);
        if contents[i].len() as u64 != layout.sizes[i] as u64 {
            return Err(
                BuildMegError::InaccurateFileSize {
                    reported_size: layout.sizes[i],
                    actual_size: contents[i].len() as u64,
                },
            );
        }
        i = i + 1;
    }
    let mut out: Vec<u8> = Vec::new();
    encode_prefix(v, key, names, crcs, layout, &mut out);
    let ghost kv = opt_key_view(key);
    let ghost after_records = out@;
    assert(after_records =~= spec_encode_prefix(v, kv, ns, layout@));
    let mut k: usize = 0;
    assert(cs.subrange(0, 0) =~= Seq::<Seq<u8>>::empty());
    while k < n
        invariant
            n == names@.len(),
            contents@.len() == n,
            cs == contents_view(contents@),
            0 <= k <= n,
            out@ == after_records + spec_data_bytes(opt_key_view(key), cs.subrange(0, k as int)),
            kv == opt_key_view(key),
            kv is Some ==> forall|i: int|
                0 <= i < k ==> #[trigger] cipher_roundtrips(kv->Some_0, pad_to_block(cs[i])),
        decreases n - k,
    {
        let ghost before = out@;
        append_file_data(key, contents[k].as_slice(), &mut out);
        proof {
            let pre = cs.subrange(0, k + 1);
            assert(pre.drop_last() =~= cs.subrange(0, k as int));
            assert(pre.last() == contents@[k as int]@);
            assert(out@ =~= before + spec_file_bytes(opt_key_view(key), pre.last()));
        }
        k = k + 1;
    }
    assert(cs.subrange(0, n as int) =~= cs);
    Ok(out)
}


/// The result of building: the layout for the reported file lengths, then the encoding of the
/// contents.
pub open spec fn spec_build(
    v: MegVersion,
    key: Option<(Seq<u8>, Seq<u8>)>,
    names: Seq<Seq<u8>>,
    limit: u16,
    lens: Seq<u64>,
    contents: Seq<Seq<u8>>,
) -> Result<Seq<u8>, BuildMegError> {
    match spec_layout(v, key is Some, names, limit, lens) {
        Err(e) => Err(e),
        Ok(l) => spec_encode(v, key, names, l, contents),
    }
}

/// Provides the contents for a file entry of a MEGA file: its length ahead of time, and then its
/// bytes.
pub trait FileContent {
    /// The number of bytes this file will deliver.
    fn file_len(&self) -> Result<u64, std::io::Error>;

    /// Positions the content at its start.
    fn ensure_at_start(&mut self) -> Result<(), std::io::Error>;

    /// Delivers all bytes from the current position on.
    fn read_all(&mut self) -> Result<Vec<u8>, std::io::Error>;
}

impl FileContent for Vec<u8> {
    fn file_len(&self) -> (r: Result<u64, std::io::Error>)
        ensures
            r matches Ok(n) && n == self@.len(),
    {
        Ok(self.len() as u64)
    }

    fn ensure_at_start(&mut self) -> (r: Result<(), std::io::Error>)
        ensures
            r is Ok,
            *final(self) == *old(self),
    {
        Ok(())
    }

    fn read_all(&mut self) -> (r: Result<Vec<u8>, std::io::Error>)
        ensures
            r matches Ok(v) && v@ == old(self)@,
            *final(self) == *old(self),
    {
        Ok(vstd::slice::slice_to_vec(self.as_slice()))
    }
}

impl<F, V: WriteVersion> MegBuilder<F, V> {
    /// The names and their cached CRCs.
    fn names_and_crcs(&self) -> (r: (Vec<MegPathBuf>, Vec<u32>))
        ensures
            paths_of(r.0@) == self.spec_names(),
            r.1@.len() == r.0@.len(),
            forall|i: int| 0 <= i < r.1@.len() ==> #[trigger] r.1@[i] == crc32(r.0@[i]@),
    {
        proof {
            use_type_invariant(&self.files);
        }
        let mut names: Vec<MegPathBuf> = Vec::new();
        let mut crcs: Vec<u32> = Vec::new();
        let mut i: usize = 0;
        while i < self.files.entries.len()
            invariant
                self.wf(),
                0 <= i <= self.files.entries@.len(),
                names@.len() == i,
                crcs@.len() == i,
                forall|j: int| 0 <= j < i ==> #[trigger] names@[j]@ == self.files.entries@[j].path@,
                forall|j: int| 0 <= j < i ==> #[trigger] crcs@[j] == crc32(names@[j]@),
            decreases self.files.entries@.len() - i,
        {
            names.push(self.files.entries[i].path.clone());
            crcs.push(self.files.entries[i].crc);
            i = i + 1;
        }
        assert(paths_of(names@) =~= self.spec_names());
        (names, crcs)
    }

    /// The layout of the MEGA file for the given file lengths; see [`spec_layout`].
    pub fn layout(&self, lens: &Vec<u64>) -> (r: Result<MegLayout, BuildMegError>)
        ensures
            layout_matches(
                r,
                spec_layout(
                    self.spec_settings().spec_write_version(),
                    self.spec_settings().spec_write_key() is Some,
                    self.spec_names(),
                    self.spec_limit(),
                    lens@,
                ),
            ),
    {
        proof {
            use_type_invariant(&self.files);
        }
        let (names, _crcs) = self.names_and_crcs();
        let v = self.version_settings.write_version();
        let encrypted = self.version_settings.write_key().is_some();
        compute_layout(v, encrypted, &names, self.name_length_limit, lens)
    }

    /// The bytes of the MEGA file with this layout and these contents; see [`spec_encode`].
    pub fn encode(&self, layout: &MegLayout, contents: &Vec<Vec<u8>>) -> (r: Result<
        Vec<u8>,
        BuildMegError,
    >)
        requires
            layout.starts@.len() == self.spec_names().len(),
            layout.sizes@.len() == self.spec_names().len(),
            contents@.len() == self.spec_names().len(),
            self.spec_names().len() <= u32::MAX,
        ensures
            match r {
                Ok(out) => spec_encode(
                    self.spec_settings().spec_write_version(),
                    self.spec_settings().spec_write_key(),
                    self.spec_names(),
                    layout@,
                    contents_view(contents@),
                ) == Ok::<Seq<u8>, BuildMegError>(out@),
                Err(e) => spec_encode(
                    self.spec_settings().spec_write_version(),
                    self.spec_settings().spec_write_key(),
                    self.spec_names(),
                    layout@,
                    contents_view(contents@),
                ) == Err::<Seq<u8>, BuildMegError>(e),
            },
            r is Ok ==> sections_roundtrip(
                self.spec_settings().spec_write_version(),
                self.spec_settings().spec_write_key(),
                self.spec_names(),
                layout@.starts,
                layout@.sizes,
                contents_view(contents@),
            ),
            self.spec_settings().spec_write_key() is Some ==> self.spec_settings().spec_write_version()
                == MegVersion::V3,
    {
        proof {
            use_type_invariant(&self.files);
        }
        let (names, crcs) = self.names_and_crcs();
        let v = self.version_settings.write_version();
        let key = self.version_settings.write_key();
        encode_meg(v, key, &names, &crcs, layout, contents)
    }
}

impl<V: WriteVersion> MegBuilder<Vec<u8>, V> {
    /// Builds the MEGA file from in-memory contents; see [`spec_build`].
    pub fn build_bytes(&self) -> (r: Result<Vec<u8>, BuildMegError>)
        ensures
            match r {
                Ok(out) => spec_build(
                    self.spec_settings().spec_write_version(),
                    self.spec_settings().spec_write_key(),
                    self.spec_names(),
                    self.spec_limit(),
                    self.spec_files().map_values(|c: Vec<u8>| c@.len() as u64),
                    self.spec_files().map_values(|c: Vec<u8>| c@),
                ) == Ok::<Seq<u8>, BuildMegError>(out@),
                Err(e) => spec_build(
                    self.spec_settings().spec_write_version(),
                    self.spec_settings().spec_write_key(),
                    self.spec_names(),
                    self.spec_limit(),
                    self.spec_files().map_values(|c: Vec<u8>| c@.len() as u64),
                    self.spec_files().map_values(|c: Vec<u8>| c@),
                ) == Err::<Seq<u8>, BuildMegError>(e),
            },
            r matches Ok(out) ==> forall|opts: ReadOptionsView|
                #[trigger] options_fit(self.spec_settings().spec_write_key(), self.spec_names(), opts)
                    ==> reads_back(
                    self.spec_settings().spec_write_version(),
                    self.spec_settings().spec_write_key(),
                    self.spec_names(),
                    self.spec_files().map_values(|c: Vec<u8>| c@),
                    out@,
                    opts,
                ),
            r matches Ok(out) ==> (guess_shows_version(
                self.spec_settings().spec_write_version(),
                self.spec_settings().spec_write_key(),
                self.spec_names(),
            ) ==> forall|opts: ReadOptionsView|
                #[trigger] options_fit(self.spec_settings().spec_write_key(), self.spec_names(), opts)
                    ==> guess_reads_as(self.spec_settings().spec_write_version(), out@, opts)),
            r matches Ok(out) ==> (self.spec_settings().spec_write_version() == MegVersion::V1
                ==> forall|opts: ParseOptionsView|
                #[trigger] parse_options_fit(self.spec_names(), opts) ==> spec_parse_results(
                    out@,
                    opts,
                ) == built_files(self.spec_names(), self.spec_files().map_values(|c: Vec<u8>| c@))),
    {
        proof {
            use_type_invariant(&self.files);
        }
        let mut lens: Vec<u64> = Vec::new();
        let mut contents: Vec<Vec<u8>> = Vec::new();
        let mut i: usize = 0;
        while i < self.files.entries.len()
            invariant
                self.wf(),
                0 <= i <= self.files.entries@.len(),
                lens@.len() == i,
                contents@.len() == i,
                forall|j: int| 0 <= j < i ==> #[trigger] lens@[j] == self.files.entries@[j].file@.len(),
                forall|j: int| 0 <= j < i ==> #[trigger] contents@[j]@ == self.files.entries@[j].file@,
            decreases self.files.entries@.len() - i,
        {
            lens.push(self.files.entries[i].file.len() as u64);
            contents.push(vstd::slice::slice_to_vec(self.files.entries[i].file.as_slice()));
            i = i + 1;
        }
        assert(lens@ =~= self.spec_files().map_values(|c: Vec<u8>| c@.len() as u64));
        assert(contents_view(contents@) =~= self.spec_files().map_values(|c: Vec<u8>| c@));
        let layout = match self.layout(&lens) {
            Ok(l) => l,
            Err(e) => return Err(e),
        };
        proof {
            self.lemma_wf();
            assert(self.spec_names().len() <= u32::MAX);
            lemma_offsets_lengths(self.spec_settings().spec_write_key() is Some, lens@, layout.files_end);
        }
        let r = self.encode(&layout, &contents);
        proof {
            if r is Ok {
                let out = r->Ok_0;
                let cs = self.spec_files().map_values(|c: Vec<u8>| c@);
                assert(content_lens(cs) =~= lens@);
                lemma_built_laws(
                    self.spec_settings().spec_write_version(),
                    self.spec_settings().spec_write_key(),
                    self.spec_names(),
                    self.spec_limit(),
                    cs,
                    out@,
                );
            }
        }
        r
    }
}

impl<F, V: WriteVersion> MegBuilder<F, V> {
    /// The part of building that depends on the names and settings alone: the names table
    /// length and where the file data starts, or the error (a name too long, too many files,
    /// tables past 32 bits).
    pub open spec fn spec_build_prelude(&self) -> Result<(u32, u32), BuildMegError> {
        spec_prelude(
            self.spec_settings().spec_write_version(),
            self.spec_settings().spec_write_key() is Some,
            self.spec_names(),
            self.spec_limit(),
        )
    }

    /// The layout of this builder's file for the lengths that its first files reported.
    pub open spec fn spec_build_layout(&self, lens: Seq<u64>) -> Result<LayoutView, BuildMegError> {
        spec_layout(
            self.spec_settings().spec_write_version(),
            self.spec_settings().spec_write_key() is Some,
            self.spec_names(),
            self.spec_limit(),
            lens,
        )
    }

    /// The MEGA file this builder makes when its files deliver `contents`, each reporting its
    /// length.
    pub open spec fn spec_build_with(&self, contents: Seq<Seq<u8>>) -> Result<Seq<u8>, BuildMegError> {
        spec_build(
            self.spec_settings().spec_write_version(),
            self.spec_settings().spec_write_key(),
            self.spec_names(),
            self.spec_limit(),
            content_lens(contents),
            contents,
        )
    }

    /// What a build has written once it wrote the header and tables for the layout of the
    /// reported lengths `lens` and the files that delivered `cs`.
    pub open spec fn spec_written_so_far(&self, lens: Seq<u64>, cs: Seq<Seq<u8>>) -> Seq<u8> {
        spec_encode_prefix(
            self.spec_settings().spec_write_version(),
            self.spec_settings().spec_write_key(),
            self.spec_names(),
            self.spec_build_layout(lens)->Ok_0,
        ) + spec_data_bytes(self.spec_settings().spec_write_key(), cs)
    }
}

/// Positions, reads and writes each file in turn, stopping at the first file that fails or
/// delivers another number of bytes than `sizes` gives for it. Returns what the files delivered
/// (ghost), the failing file's included when it delivered a wrong number of bytes.
fn copy_files<F: FileContent>(
    entries: Vec<BuilderEntry<F>>,
    key: Option<&Key>,
    sizes: &Vec<u32>,
    out: &mut Vec<u8>,
) -> (r: (Result<(), BuildMegError>, Ghost<Seq<Seq<u8>>>))
    requires
        sizes@.len() == entries@.len(),
    ensures
        ({
            let cs = r.1@;
            &&& final(out)@ == old(out)@ + spec_data_bytes(opt_key_view(key), cs)
            &&& cs.len() <= sizes@.len()
            &&& opt_key_view(key) matches Some(kk) ==> forall|k: int|
                0 <= k < cs.len() ==> #[trigger] cipher_roundtrips(kk, pad_to_block(cs[k]))
            &&& match r.0 {
                Ok(()) => cs.len() == sizes@.len() && forall|k: int|
                    0 <= k < cs.len() ==> #[trigger] cs[k].len() == sizes@[k],
                Err(BuildMegError::IoError(_)) => cs.len() < sizes@.len() && forall|k: int|
                    0 <= k < cs.len() ==> #[trigger] cs[k].len() == sizes@[k],
                Err(BuildMegError::InaccurateFileSize { reported_size, actual_size }) => {
                    &&& 0 < cs.len()
                    &&& forall|k: int| 0 <= k < cs.len() - 1 ==> #[trigger] cs[k].len() == sizes@[k]
                    &&& cs.last().len() == actual_size
                    &&& sizes@[cs.len() - 1] == reported_size
                    &&& actual_size != reported_size
                },
                Err(_) => false,
            }
        }),
{
    let n = entries.len();
    let mut entries = entries;
    let ghost start = out@;
    let ghost mut cs: Seq<Seq<u8>> = Seq::empty();
    assert(out@ =~= start + spec_data_bytes(opt_key_view(key), cs));
    let mut j: usize = 0;
    while j < n
        invariant
            entries@.len() == n - j,
            sizes@.len() == n,
            0 <= j <= n,
            start == old(out)@,
            cs.len() == j,
            forall|k: int| 0 <= k < j ==> #[trigger] cs[k].len() == sizes@[k],
            out@ == start + spec_data_bytes(opt_key_view(key), cs),
            opt_key_view(key) matches Some(kk) ==> forall|k: int|
                0 <= k < j ==> #[trigger] cipher_roundtrips(kk, pad_to_block(cs[k])),
        decreases n - j,
    {
        let mut entry = entries.remove(0);
        match entry.file.ensure_at_start() {
            Ok(()) => {},
            Err(e) => return (Err(BuildMegError::IoError(e)), Ghost(cs)),
        }
        let data = match entry.file.read_all() {
            Ok(d) => d,
            Err(e) => return (Err(BuildMegError::IoError(e)), Ghost(cs)),
        };
        append_file_data(key, data.as_slice(), out);
        proof {
            let prev = cs;
            cs = cs.push(data@);
            assert(cs.drop_last() =~= prev);
            assert(cs.last() == data@);
            assert(out@ =~= start + spec_data_bytes(opt_key_view(key), cs));
        }
        if data.len() as u64 != sizes[j] as u64 {
            return (
                Err(
                    BuildMegError::InaccurateFileSize {
                        reported_size: sizes[j],
                        actual_size: data.len() as u64,
                    },
                ),
                Ghost(cs),
            );
        }
        j = j + 1;
    }
    (Ok(()), Ghost(cs))
}

impl<F, V: WriteVersion> MegBuilder<F, V> {
    /// When every file delivered as many bytes as it reported, what was written is the build of
    /// those contents, and it reads back.
    proof fn lemma_build_done(&self, lens: Seq<u64>, l: LayoutView, cs: Seq<Seq<u8>>)
        requires
            self.spec_build_layout(lens) == Ok::<LayoutView, BuildMegError>(l),
            l.sizes.len() == lens.len(),
            lens.len() == self.spec_names().len(),
            forall|k: int| 0 <= k < lens.len() ==> l.sizes[k] == #[trigger] lens[k],
            cs.len() == lens.len(),
            forall|k: int| 0 <= k < cs.len() ==> #[trigger] cs[k].len() == l.sizes[k],
            tables_roundtrip(
                self.spec_settings().spec_write_version(),
                self.spec_settings().spec_write_key(),
                self.spec_names(),
                l.starts,
                l.sizes,
            ),
            self.spec_settings().spec_write_key() matches Some(kk) ==> forall|k: int|
                0 <= k < cs.len() ==> #[trigger] cipher_roundtrips(kk, pad_to_block(cs[k])),
            forall|j: int| 0 <= j < self.spec_names().len() ==> valid_path(#[trigger] self.spec_names()[j]),
            self.spec_settings().spec_write_key() is Some ==> self.spec_settings().spec_write_version()
                == MegVersion::V3,
        ensures
            ({
                let b = self.spec_written_so_far(lens, cs);
                let v = self.spec_settings().spec_write_version();
                let key = self.spec_settings().spec_write_key();
                let names = self.spec_names();
                &&& self.spec_build_with(cs) == Ok::<Seq<u8>, BuildMegError>(b)
                &&& forall|opts: ReadOptionsView|
                    #[trigger] options_fit(key, names, opts) ==> reads_back(v, key, names, cs, b, opts)
                &&& v == MegVersion::V1 ==> forall|opts: ParseOptionsView|
                    #[trigger] parse_options_fit(names, opts) ==> spec_parse_results(b, opts)
                        == built_files(names, cs)
                &&& guess_shows_version(v, key, names) ==> forall|opts: ReadOptionsView|
                    #[trigger] options_fit(key, names, opts) ==> guess_reads_as(v, b, opts)
            }),
    {
        let v = self.spec_settings().spec_write_version();
        let key = self.spec_settings().spec_write_key();
        let names = self.spec_names();
        let limit = self.spec_limit();
        let b = self.spec_written_so_far(lens, cs);
        lemma_no_size_mismatch(l.sizes, cs, 0);
        assert(content_lens(cs) =~= lens);
        assert(spec_encode(v, key, names, l, cs) == Ok::<Seq<u8>, BuildMegError>(b));
        assert(self.spec_build_with(cs) == Ok::<Seq<u8>, BuildMegError>(b));
        assert(sections_roundtrip(v, key, names, l.starts, l.sizes, cs));
        lemma_built_laws(v, key, names, limit, cs, b);
    }
}

impl<F: FileContent, V: WriteVersion> MegBuilder<F, V> {
    /// Builds the MEGA file, appending it to `out`; returns the number of bytes appended. The
    /// lengths the files report fix the layout; then the header and tables are written, and each
    /// file is positioned at its start, read, and written, and must have delivered as many bytes
    /// as it reported.
    ///
    /// Errors that do not depend on the files (names too long, too many files, tables past 32
    /// bits) come first and are exactly those of [`spec_prelude`]; without files, nothing else
    /// can fail. Every other error is explained by what the files reported or delivered. Errors
    /// found while laying out the file leave `out` as it was; a file that fails to position or
    /// deliver its contents, or delivers another number of bytes than it reported, leaves in
    /// `out` what was written before: the header and tables, the files before it and, for a
    /// wrong size, the bytes it delivered. A successful result is the [`spec_build`] of the
    /// contents the files delivered, each as long as its file reported.
    #[verifier::loop_isolation(false)]
    #[verifier::spinoff_prover]
    #[verifier::rlimit(60)]
    pub fn build(self, out: &mut Vec<u8>) -> (r: Result<u64, BuildMegError>)
        ensures
            self.spec_build_prelude() matches Err(e) ==> r matches Err(e2) && e2 == e,
            self.spec_build_prelude() is Ok && self.spec_names().len() == 0 ==> ({
                let b = self.spec_build_with(Seq::empty());
                &&& b is Ok
                &&& r == Ok::<u64, BuildMegError>(b->Ok_0.len() as u64)
                &&& final(out)@ == old(out)@ + b->Ok_0
            }),
            r matches Err(e) ==> ((e is NameTooLong || e is TooManyFiles || e is OffsetTooLarge
                || e is FileTooLarge) ==> final(out)@ == old(out)@),
            r matches Err(e) ==> ((e is NameTooLong || e is TooManyFiles) ==> self.spec_build_prelude()
                == Err::<(u32, u32), BuildMegError>(e)),
            r matches Err(BuildMegError::OffsetTooLarge) ==> (exists|lens: Seq<u64>|
                lens.len() <= self.spec_names().len() && #[trigger] self.spec_build_layout(lens)
                    == Err::<LayoutView, BuildMegError>(BuildMegError::OffsetTooLarge)),
            r matches Err(BuildMegError::FileTooLarge { size }) ==> (exists|lens: Seq<u64>|
                lens.len() <= self.spec_names().len() && #[trigger] self.spec_build_layout(lens)
                    == Err::<LayoutView, BuildMegError>(BuildMegError::FileTooLarge { size })),
            r matches Err(BuildMegError::InaccurateFileSize { reported_size, actual_size }) ==> (
            actual_size != reported_size && exists|lens: Seq<u64>, cs: Seq<Seq<u8>>|
                {
                    &&& lens.len() == self.spec_names().len()
                    &&& self.spec_build_layout(lens) is Ok
                    &&& 0 < cs.len() <= self.spec_names().len()
                    &&& forall|k: int|
                        0 <= k < cs.len() - 1 ==> #[trigger] cs[k].len() == self.spec_build_layout(
                            lens,
                        )->Ok_0.sizes[k]
                    &&& cs.last().len() == actual_size
                    &&& self.spec_build_layout(lens)->Ok_0.sizes[cs.len() - 1] == reported_size
                    &&& final(out)@ == old(out)@ + #[trigger] self.spec_written_so_far(lens, cs)
                }),
            r matches Err(BuildMegError::IoError(_)) ==> (self.spec_build_prelude() is Ok
                && self.spec_names().len() > 0 && (final(out)@ == old(out)@ || exists|
                lens: Seq<u64>,
                cs: Seq<Seq<u8>>,
            |
                {
                    &&& lens.len() == self.spec_names().len()
                    &&& self.spec_build_layout(lens) is Ok
                    &&& cs.len() < self.spec_names().len()
                    &&& forall|k: int|
                        0 <= k < cs.len() ==> #[trigger] cs[k].len() == self.spec_build_layout(
                            lens,
                        )->Ok_0.sizes[k]
                    &&& final(out)@ == old(out)@ + #[trigger] self.spec_written_so_far(lens, cs)
                })),
            r matches Ok(t) ==> exists|contents: Seq<Seq<u8>>|
                {
                    let b = #[trigger] self.spec_build_with(contents);
                    &&& b is Ok
                    &&& contents.len() == self.spec_names().len()
                    &&& final(out)@ == old(out)@ + b->Ok_0
                    &&& t == b->Ok_0.len()
                    &&& forall|opts: ReadOptionsView|
                        #[trigger] options_fit(self.spec_settings().spec_write_key(), self.spec_names(), opts)
                            ==> reads_back(
                            self.spec_settings().spec_write_version(),
                            self.spec_settings().spec_write_key(),
                            self.spec_names(),
                            contents,
                            b->Ok_0,
                            opts,
                        )
                    &&& self.spec_settings().spec_write_version() == MegVersion::V1 ==> forall|
                        opts: ParseOptionsView,
                    |
                        #[trigger] parse_options_fit(self.spec_names(), opts) ==> spec_parse_results(
                            b->Ok_0,
                            opts,
                        ) == built_files(self.spec_names(), contents)
                    &&& guess_shows_version(
                        self.spec_settings().spec_write_version(),
                        self.spec_settings().spec_write_key(),
                        self.spec_names(),
                    ) ==> forall|opts: ReadOptionsView|
                        #[trigger] options_fit(self.spec_settings().spec_write_key(), self.spec_names(), opts)
                            ==> guess_reads_as(self.spec_settings().spec_write_version(), b->Ok_0, opts)
                },
    {
        proof {
            use_type_invariant(&self.files);
        }
        let (names, crcs) = self.names_and_crcs();
        let v = self.version_settings.write_version();
        let key: Option<Key> = match self.version_settings.write_key() {
            Some(k) => Some(k.clone()),
            None => None,
        };
        let encrypted = key.is_some();
        let limit = self.name_length_limit;
        let ghost names_v = self.spec_names();
        let ghost key_v = self.spec_settings().spec_write_key();
        let ghost start_out = out@;
        let start_len = out.len();
        assert(owned_key_view(key) == key_v);
        let (names_len, files_end) = match prelude(v, encrypted, &names, limit) {
            Ok(x) => x,
            Err(e) => {
                proof {
                    lemma_prelude_errors(v, encrypted, names_v, limit);
                    assert(self.spec_build_layout(Seq::empty()) == Err::<LayoutView, BuildMegError>(
                        e,
                    ));
                }
                return Err(e);
            },
        };
        let entries = self.files.into_entries();
        let n = entries.len();
        let mut lens: Vec<u64> = Vec::new();
        let mut starts: Vec<u32> = Vec::new();
        let mut sizes: Vec<u32> = Vec::new();
        let mut next: Option<u32> = Some(files_end);
        let mut i: usize = 0;
        while i < n
            invariant
                n == entries@.len(),
                0 <= i <= n,
                lens@.len() == i,
                out@ == start_out,
                start_len == start_out.len(),
                spec_prelude(v, encrypted, names_v, limit) == Ok::<(u32, u32), BuildMegError>(
                    (names_len, files_end),
                ),
                spec_offsets(encrypted, lens@, files_end) == Ok::<
                    (Seq<u32>, Seq<u32>, Option<u32>),
                    BuildMegError,
                >((starts@, sizes@, next)),
            decreases n - i,
        {
            if next.is_none() {
                proof {
                    let w = lens@.push(0u64);
                    assert(w.drop_last() =~= lens@);
                    assert(self.spec_build_layout(w) == Err::<LayoutView, BuildMegError>(
                        BuildMegError::OffsetTooLarge,
                    ));
                }
                return Err(BuildMegError::OffsetTooLarge);
            }
            let len = match entries[i].file.file_len() {
                Ok(len) => len,
                Err(e) => return Err(BuildMegError::IoError(e)),
            };
            let (start, size, after) = match offset_step(encrypted, next, len) {
                Ok(x) => x,
                Err(e) => {
                    proof {
                        let w = lens@.push(len);
                        assert(w.drop_last() =~= lens@);
                        assert(self.spec_build_layout(w) == Err::<LayoutView, BuildMegError>(e));
                    }
                    return Err(e);
                },
            };
            let ghost before = lens@;
            lens.push(len);
            assert(lens@.drop_last() =~= before);
            starts.push(start);
            sizes.push(size);
            next = after;
            i = i + 1;
        }
        proof {
            lemma_offsets_lengths(encrypted, lens@, files_end);
            lemma_offsets_sizes(encrypted, lens@, files_end);
            assert(names_v.len() <= u32::MAX);
        }
        let layout = MegLayout { names_len, files_end, starts, sizes };
        assert(spec_layout(v, encrypted, names_v, limit, lens@) == Ok::<LayoutView, BuildMegError>(
            layout@,
        ));
        assert(self.spec_build_layout(lens@) == Ok::<LayoutView, BuildMegError>(layout@));
        encode_prefix(v, key.as_ref(), &names, &crcs, &layout, out);
        let ghost after_tables = out@;
        let (res, Ghost(cs)) = copy_files(entries, key.as_ref(), &layout.sizes, out);
        proof {
            assert(out@ =~= start_out + self.spec_written_so_far(lens@, cs));
        }
        match res {
            Err(e) => return Err(e),
            Ok(()) => {},
        }
        let total = (out.len() - start_len) as u64;
        proof {
            self.lemma_build_done(lens@, layout@, cs);
        }
        Ok(total)
    }
}

/// Selecting a MEGA file version to write.
#[allow(private_bounds)]
pub trait BuildMeg: Sized + crate::reader::Sealed {
    /// Version-specific settings of the builder.
    type Settings: WriteVersion;

    /// The version that the builder writes.
    spec fn spec_build_version(&self) -> MegVersion;

    /// Creates an empty builder for this version, without encryption.
    fn builder<F>(self) -> (r: MegBuilder<F, Self::Settings>)
        ensures
            r.spec_names().len() == 0,
            r.spec_limit() == 260,
            r.spec_settings().spec_write_version() == self.spec_build_version(),
            r.spec_settings().spec_write_key() is None,
    ;
}

impl BuildMeg for MegV1 {
    type Settings = MegV1;

    open spec fn spec_build_version(&self) -> MegVersion {
        MegVersion::V1
    }

    fn builder<F>(self) -> (r: MegBuilder<F, MegV1>) {
        MegBuilder::new(self)
    }
}

impl BuildMeg for MegV2 {
    type Settings = MegV2;

    open spec fn spec_build_version(&self) -> MegVersion {
        MegVersion::V2
    }

    fn builder<F>(self) -> (r: MegBuilder<F, MegV2>) {
        MegBuilder::new(self)
    }
}

impl BuildMeg for MegV3 {
    type Settings = V3Settings;

    open spec fn spec_build_version(&self) -> MegVersion {
        MegVersion::V3
    }

    fn builder<F>(self) -> (r: MegBuilder<F, V3Settings>) {
        MegBuilder::new(V3Settings::new())
    }
}

impl BuildMeg for MegVersion {
    type Settings = AnyVersionSettings;

    open spec fn spec_build_version(&self) -> MegVersion {
        *self
    }

    fn builder<F>(self) -> (r: MegBuilder<F, AnyVersionSettings>) {
        MegBuilder::new(AnyVersionSettings::new(self))
    }
}

} // verus!
