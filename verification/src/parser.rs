//! A zero-copy parser for V1 MEGA files held in memory: the files are yielded one at a time,
//! each borrowing its name and contents from the MEGA file's bytes.

use crate::checksum::{crc32, crc32_hash};
use crate::encoding::{read_u16_le, read_u32_le, spec_u16_le, spec_u32_le};
use crate::path::{valid_path, MegPath, MegPathError};
use vstd::prelude::*;

verus! {

/// Parser options, as plain values.
pub struct ParseOptionsView {
    pub validate_crc: bool,
    pub validate_index: bool,
    pub validate_name_index: bool,
    pub validate_names: bool,
    pub validate_name_length: bool,
    pub validate_file_bounds: bool,
}

/// Parser options for the MEGA file parser.
#[derive(Clone, Copy)]
pub struct ParseOptions {
    /// Whether a mismatched filename CRC is an error (default `true`).
    validate_crc: bool,
    /// Whether a mismatched file index is an error (default `true`).
    validate_index: bool,
    /// Whether a name index past the names table is an error (default `true`). When it is not,
    /// such a file has no name.
    validate_name_index: bool,
    /// Whether an invalid file name is an error (default `true`). When it is not, the raw bytes
    /// of the name are kept and the file has no path.
    validate_names: bool,
    /// Whether a name over the Windows 260 character limit is an error (default `true`).
    validate_name_length: bool,
    /// Whether a file extending past the end of the MEGA file is an error (default `true`). When
    /// it is not, the contents are cut to what lies within the MEGA file.
    validate_file_bounds: bool,
}

impl View for ParseOptions {
    type V = ParseOptionsView;

    closed spec fn view(&self) -> ParseOptionsView {
        ParseOptionsView {
            validate_crc: self.validate_crc,
            validate_index: self.validate_index,
            validate_name_index: self.validate_name_index,
            validate_names: self.validate_names,
            validate_name_length: self.validate_name_length,
            validate_file_bounds: self.validate_file_bounds,
        }
    }
}

/// The default parser options: every validation on.
pub open spec fn default_parse_options() -> ParseOptionsView {
    ParseOptionsView {
        validate_crc: true,
        validate_index: true,
        validate_name_index: true,
        validate_names: true,
        validate_name_length: true,
        validate_file_bounds: true,
    }
}

impl ParseOptions {
    /// The default options: every validation on.
    pub fn new() -> (r: Self)
        ensures
            r@ == default_parse_options(),
    {
        ParseOptions {
            validate_crc: true,
            validate_index: true,
            validate_name_index: true,
            validate_names: true,
            validate_name_length: true,
            validate_file_bounds: true,
        }
    }

    /// Options with each validation set as given.
    pub fn with_validation(
        validate_crc: bool,
        validate_index: bool,
        validate_name_index: bool,
        validate_names: bool,
        validate_name_length: bool,
        validate_file_bounds: bool,
    ) -> (r: Self)
        ensures
            r@ == (ParseOptionsView {
                validate_crc,
                validate_index,
                validate_name_index,
                validate_names,
                validate_name_length,
                validate_file_bounds,
            }),
    {
        ParseOptions {
            validate_crc,
            validate_index,
            validate_name_index,
            validate_names,
            validate_name_length,
            validate_file_bounds,
        }
    }
}

impl Default for ParseOptions {
    fn default() -> (r: Self)
        ensures
            r@ == default_parse_options(),
    {
        Self::new()
    }
}

/// Errors from parsing a V1 MEGA file.
#[allow(inconsistent_fields)]
#[derive(Debug, Clone, Copy, PartialEq, Eq, Structural)]
pub enum MegParseError {
    /// The MEGA file is shorter than its header.
    NotEnoughBytesForHeader { file_size: usize, min_bytes: usize },
    /// The data ended inside the names table.
    EofDuringNameParsing { file_size: usize, cursor_position: usize, num_names: u32, name_index: u32 },
    /// The data ended before the end of the file records table.
    EofDuringFileRecordsParsing { file_size: usize, cursor_position: usize, num_files: u32 },
    /// A name exceeded the Windows 260 character limit.
    NameTooLong { name_index: u32, name_len: usize },
    /// A name was not a valid MEGA path.
    InvalidName { name_index: u32, path_error: MegPathError },
    /// A file record's CRC did not match the CRC-32 of its name.
    InvalidCrc { file_index: usize, expected_crc: u32, actual_crc: u32 },
    /// A file record specified a different index than its position.
    InvalidFileIndex { file_index: usize, index_from_record: usize },
    /// A file record referenced a name index past the names table.
    NameIndexOutOfRange { file_index: usize, name_index: usize, num_names: usize },
    /// A file record's contents extend past the end of the MEGA file.
    FileOutOfBounds { file_index: usize, file_size: usize, start: u32, size: u32 },
}

/// A name of the names table as plain values: its raw bytes, and whether they form a valid path.
pub struct NameView {
    pub raw: Seq<u8>,
    pub valid: bool,
}

/// A parsed file as plain values.
pub struct FileView {
    /// The raw bytes of the name; `None` when the name index was out of range.
    pub raw_name: Option<Seq<u8>>,
    /// The name as a valid path; `None` when there is no name or it is not a valid path.
    pub path: Option<Seq<u8>>,
    /// The contents.
    pub contents: Seq<u8>,
    /// The size the file record gave.
    pub expected_size: nat,
}

/// The names table and where the file records lie: the names, the start of the records and their
/// number.
pub open spec fn spec_header_and_names(b: Seq<u8>, opts: ParseOptionsView) -> Result<
    (Seq<NameView>, int, int),
    MegParseError,
> {
    if b.len() < 8 {
        Err(MegParseError::NotEnoughBytesForHeader { file_size: b.len() as usize, min_bytes: 8 })
    } else {
        let num_names = spec_u32_le(b, 0);
        let num_files = spec_u32_le(b, 4);
        match spec_names_from(b, opts, 8, 0, num_names, Seq::empty()) {
            Err(e) => Err(e),
            Ok((names, pos)) => if pos + 20 * num_files > b.len() {
                Err(
                    MegParseError::EofDuringFileRecordsParsing {
                        file_size: b.len() as usize,
                        cursor_position: pos as usize,
                        num_files,
                    },
                )
            } else {
                Ok((names, pos, num_files as int))
            },
        }
    }
}

/// Reads the names with indexes `i..n` from `pos` on, after the names `acc`.
///
/// A name is a `u16` length and that many bytes. A name over 260 bytes is an error when name
/// lengths are validated; an invalid path is an error when names are validated, and otherwise
/// kept as raw bytes.
pub open spec fn spec_names_from(
    b: Seq<u8>,
    opts: ParseOptionsView,
    pos: int,
    i: u32,
    n: u32,
    acc: Seq<NameView>,
) -> Result<(Seq<NameView>, int), MegParseError>
    decreases n - i,
{
    if i >= n {
        Ok((acc, pos))
    } else if pos + 2 > b.len() || pos + 2 + spec_u16_le(b, pos) > b.len() {
        Err(
            MegParseError::EofDuringNameParsing {
                file_size: b.len() as usize,
                cursor_position: pos as usize,
                num_names: n,
                name_index: i,
            },
        )
    } else {
        let len = spec_u16_le(b, pos) as int;
        let raw = b.subrange(pos + 2, pos + 2 + len);
        if len > 260 && opts.validate_name_length {
            Err(MegParseError::NameTooLong { name_index: i, name_len: len as usize })
        } else {
            match crate::path::spec_validate_path(raw) {
                Err(pe) if opts.validate_names => Err(
                    MegParseError::InvalidName { name_index: i, path_error: pe },
                ),
                r => spec_names_from(
                    b,
                    opts,
                    pos + 2 + len,
                    (i + 1) as u32,
                    n,
                    acc.push(NameView { raw, valid: r is Ok }),
                ),
            }
        }
    }
}

/// The file of the record at `p`, the record at index `file_index` of the table.
///
/// The record must carry its own index (when validated) and a name index within the table (when
/// validated; otherwise the file has no name). A named file's CRC must match its name's (when
/// validated). The contents are the `size` bytes from `start`, which must lie within the MEGA
/// file (when validated; otherwise they are cut to it).
pub open spec fn spec_record_to_file(
    b: Seq<u8>,
    opts: ParseOptionsView,
    names: Seq<NameView>,
    file_index: int,
    p: int,
) -> Result<FileView, MegParseError> {
    let crc = spec_u32_le(b, p);
    let index = spec_u32_le(b, p + 4);
    let size = spec_u32_le(b, p + 8);
    let start = spec_u32_le(b, p + 12);
    let name_index = spec_u32_le(b, p + 16);
    if index != file_index && opts.validate_index {
        Err(
            MegParseError::InvalidFileIndex {
                file_index: file_index as usize,
                index_from_record: index as usize,
            },
        )
    } else if name_index >= names.len() && opts.validate_name_index {
        Err(
            MegParseError::NameIndexOutOfRange {
                file_index: file_index as usize,
                name_index: name_index as usize,
                num_names: names.len() as usize,
            },
        )
    } else if name_index < names.len() && crc != crc32(names[name_index as int].raw)
        && opts.validate_crc {
        Err(
            MegParseError::InvalidCrc {
                file_index: file_index as usize,
                expected_crc: crc,
                actual_crc: crc32(names[name_index as int].raw),
            },
        )
    } else if start + size > b.len() && opts.validate_file_bounds {
        Err(
            MegParseError::FileOutOfBounds {
                file_index: file_index as usize,
                file_size: b.len() as usize,
                start,
                size,
            },
        )
    } else {
        let lo = if start <= b.len() {
            start as int
        } else {
            b.len() as int
        };
        let hi = if start + size <= b.len() {
            start + size
        } else {
            b.len() as int
        };
        let name = if name_index < names.len() {
            Some(names[name_index as int])
        } else {
            None
        };
        Ok(
            FileView {
                raw_name: match name {
                    Some(nv) => Some(nv.raw),
                    None => None,
                },
                path: match name {
                    Some(nv) => if nv.valid {
                        Some(nv.raw)
                    } else {
                        None
                    },
                    None => None,
                },
                contents: b.subrange(lo, hi),
                expected_size: size as nat,
            },
        )
    }
}

/// What parsing yields for the records with indexes `i..n`, the table starting at `start`: each
/// record's file in order, ending at the first error.
pub open spec fn spec_results_from(
    b: Seq<u8>,
    opts: ParseOptionsView,
    names: Seq<NameView>,
    start: int,
    i: int,
    n: int,
) -> Seq<Result<FileView, MegParseError>>
    decreases n - i,
{
    if i >= n {
        Seq::empty()
    } else {
        match spec_record_to_file(b, opts, names, i, start + 20 * i) {
            Err(e) => seq![Err(e)],
            Ok(f) => seq![Ok(f)] + spec_results_from(b, opts, names, start, i + 1, n),
        }
    }
}

/// Everything that parsing the V1 MEGA file `b` yields, in order: an error in the header or the
/// names table alone, or the files of the records, ending at the first error.
pub open spec fn spec_parse_results(b: Seq<u8>, opts: ParseOptionsView) -> Seq<
    Result<FileView, MegParseError>,
> {
    match spec_header_and_names(b, opts) {
        Err(e) => seq![Err(e)],
        Ok((names, start, n)) => spec_results_from(b, opts, names, start, 0, n),
    }
}

/// Parsing the records `i..n` yields at most one result per record, and at least one while
/// any record is left.
proof fn lemma_results_from_len(
    b: Seq<u8>,
    opts: ParseOptionsView,
    names: Seq<NameView>,
    start: int,
    i: int,
    n: int,
)
    ensures
        spec_results_from(b, opts, names, start, i, n).len() <= if i < n {
            n - i
        } else {
            0
        },
        i < n ==> spec_results_from(b, opts, names, start, i, n).len() >= 1,
    decreases n - i,
{
    if i < n {
        lemma_results_from_len(b, opts, names, start, i + 1, n);
    }
}

/// The items yielded for records `i..n`, `item(j)` being the result of record `j`: each one in
/// turn, ending after the first error.
spec fn results_of(item: spec_fn(int) -> Result<FileView, MegParseError>, i: int, n: int) -> Seq<
    Result<FileView, MegParseError>,
>
    decreases n - i,
{
    if i >= n {
        Seq::empty()
    } else {
        match item(i) {
            Err(e) => seq![Err(e)],
            Ok(f) => seq![Ok(f)] + results_of(item, i + 1, n),
        }
    }
}

/// Parsing the records is [`results_of`] the record results.
proof fn lemma_results_from_is(
    b: Seq<u8>,
    opts: ParseOptionsView,
    names: Seq<NameView>,
    start: int,
    i: int,
    n: int,
)
    ensures
        spec_results_from(b, opts, names, start, i, n) == results_of(
            |j: int| spec_record_to_file(b, opts, names, j, start + 20 * j),
            i,
            n,
        ),
    decreases n - i,
{
    if i < n {
        lemma_results_from_is(b, opts, names, start, i + 1, n);
    }
}

/// Item `k` of [`results_of`] is `item(i + k)`; only the last item can be an error; without an
/// error there is one item per record.
proof fn lemma_results_of_shape(item: spec_fn(int) -> Result<FileView, MegParseError>, i: int, n: int)
    ensures
        forall|k: int|
            0 <= k < results_of(item, i, n).len() ==> #[trigger] results_of(item, i, n)[k] == item(
                i + k,
            ),
        forall|k: int|
            0 <= k < results_of(item, i, n).len() - 1 ==> #[trigger] results_of(item, i, n)[k] is Ok,
        (forall|k: int| 0 <= k < results_of(item, i, n).len() ==> #[trigger] results_of(item, i, n)[k] is Ok)
            ==> results_of(item, i, n).len() == if i < n {
            n - i
        } else {
            0
        },
    decreases n - i,
{
    if i < n {
        lemma_results_of_shape(item, i + 1, n);
        let rs = results_of(item, i, n);
        let rest = results_of(item, i + 1, n);
        if let Ok(f) = item(i) {
            assert(rs =~= seq![Ok::<FileView, MegParseError>(f)] + rest);
            assert forall|k: int| 0 <= k < rs.len() implies #[trigger] rs[k] == item(i + k) by {
                if k > 0 {
                    assert(rs[k] == rest[k - 1]);
                    assert(i + 1 + (k - 1) == i + k);
                }
            }
            assert forall|k: int| 0 <= k < rs.len() - 1 implies #[trigger] rs[k] is Ok by {
                if k > 0 {
                    assert(rs[k] == rest[k - 1]);
                }
            }
            if forall|k: int| 0 <= k < rs.len() ==> #[trigger] rs[k] is Ok {
                assert forall|k: int| 0 <= k < rest.len() implies #[trigger] rest[k] is Ok by {
                    assert(rs[k + 1] == rest[k]);
                }
            }
        } else {
            assert(rs[0] is Err);
        }
    }
}

/// What parsing a V1 MEGA file yields, for any options: a header or names table error alone;
/// otherwise item `k` comes from file record `k`, only the last item can be an error, and
/// without an error there is exactly one item per file record.
pub proof fn lemma_parse_results_shape(b: Seq<u8>, opts: ParseOptionsView)
    ensures
        ({
            let rs = spec_parse_results(b, opts);
            match spec_header_and_names(b, opts) {
                Err(e) => rs == seq![Err::<FileView, MegParseError>(e)],
                Ok((names, start, n)) => {
                    &&& forall|k: int|
                        0 <= k < rs.len() ==> #[trigger] rs[k] == spec_record_to_file(
                            b,
                            opts,
                            names,
                            k,
                            start + 20 * k,
                        )
                    &&& forall|k: int| 0 <= k < rs.len() - 1 ==> #[trigger] rs[k] is Ok
                    &&& (forall|k: int| 0 <= k < rs.len() ==> #[trigger] rs[k] is Ok) ==> rs.len()
                        == n
                },
            }
        }),
{
    if let Ok((names, start, n)) = spec_header_and_names(b, opts) {
        let item = |j: int| spec_record_to_file(b, opts, names, j, start + 20 * j);
        lemma_results_from_is(b, opts, names, start, 0, n);
        lemma_results_of_shape(item, 0, n);
        let rs = spec_parse_results(b, opts);
        assert forall|k: int| 0 <= k < rs.len() implies #[trigger] rs[k] == spec_record_to_file(
            b,
            opts,
            names,
            k,
            start + 20 * k,
        ) by {
            assert(rs[k] == item(0 + k));
        }
    }
}

/// A name of the names table, borrowed from the MEGA file, with its validated form.
struct ValidatedName<'b> {
    /// The raw bytes of the name.
    raw_name: &'b [u8],
    /// The name as a path, if it is a valid one.
    validated_name: Option<MegPath<'b>>,
}

impl<'b> ValidatedName<'b> {
    /// The validated form, when present, is the raw name.
    spec fn wf(&self) -> bool {
        self.validated_name matches Some(p) ==> p@ == self.raw_name@
    }
}

impl<'b> View for ValidatedName<'b> {
    type V = NameView;

    closed spec fn view(&self) -> NameView {
        NameView { raw: self.raw_name@, valid: self.validated_name is Some }
    }
}

/// The plain values of the names.
spec fn names_view<'b>(v: Seq<ValidatedName<'b>>) -> Seq<NameView> {
    v.map_values(|n: ValidatedName<'b>| n@)
}

/// Every name's validated form is its raw name.
spec fn names_wf<'b>(v: Seq<ValidatedName<'b>>) -> bool {
    forall|i: int| 0 <= i < v.len() ==> (#[trigger] v[i]).wf()
}

/// A file of a V1 MEGA file, borrowing its name and contents from the MEGA file's bytes.
pub struct File<'b> {
    /// The raw bytes of the name.
    raw_name: Option<&'b [u8]>,
    /// The validated MEGA file path. If `Some`, this is the same as `raw_name`.
    path: Option<MegPath<'b>>,
    /// Contents of the file.
    contents: &'b [u8],
    /// The size of the file according to its record. May differ from the length of the contents
    /// if file bounds validation was skipped.
    expected_size: usize,
}

impl<'b> View for File<'b> {
    type V = FileView;

    closed spec fn view(&self) -> FileView {
        FileView {
            raw_name: match self.raw_name {
                Some(r) => Some(r@),
                None => None,
            },
            path: match self.path {
                Some(p) => Some(p@),
                None => None,
            },
            contents: self.contents@,
            expected_size: self.expected_size as nat,
        }
    }
}

impl<'b> File<'b> {
    /// The raw name of the file. `None` when the record's name index was out of range (which is
    /// an error unless name index validation is off).
    pub fn raw_name(&self) -> (r: Option<&'b [u8]>)
        ensures
            match r {
                Some(n) => self@.raw_name == Some(n@),
                None => self@.raw_name is None,
            },
    {
        self.raw_name
    }

    /// The path of the file: the raw name when it is a valid path. `None` when there is no name,
    /// or it is invalid and name validation is off.
    pub fn path(&self) -> (r: Option<MegPath<'b>>)
        ensures
            match r {
                Some(p) => self@.path == Some(p@),
                None => self@.path is None,
            },
    {
        self.path
    }

    /// The contents of the file. When file bounds validation is off, this may be shorter than
    /// the size the file record gave.
    pub fn contents(&self) -> (r: &'b [u8])
        ensures
            r@ == self@.contents,
    {
        self.contents
    }

    /// Whether the contents are complete: as long as the size the file record gave.
    pub fn is_complete(&self) -> (r: bool)
        ensures
            r == (self@.contents.len() == self@.expected_size),
    {
        self.contents.len() == self.expected_size
    }
}

/// The plain values of a parse result.
pub open spec fn result_view<'b>(r: Result<File<'b>, MegParseError>) -> Result<FileView, MegParseError> {
    match r {
        Ok(f) => Ok(f@),
        Err(e) => Err(e),
    }
}

/// The plain values of a list of parse results.
pub open spec fn results_view<'b>(v: Seq<Result<File<'b>, MegParseError>>) -> Seq<
    Result<FileView, MegParseError>,
> {
    v.map_values(|r: Result<File<'b>, MegParseError>| result_view(r))
}

/// Reads the header and the names table; see [`spec_header_and_names`].
fn parse_header_and_names<'b>(full_file: &'b [u8], options: &ParseOptions) -> (r: Result<
    (Vec<ValidatedName<'b>>, usize, u32),
    MegParseError,
>)
    ensures
        match r {
            Ok((names, pos, n)) => spec_header_and_names(full_file@, options@) == Ok::<
                (Seq<NameView>, int, int),
                MegParseError,
            >((names_view(names@), pos as int, n as int)) && names_wf(names@),
            Err(e) => spec_header_and_names(full_file@, options@) == Err::<
                (Seq<NameView>, int, int),
                MegParseError,
            >(e),
        },
{
    let len = full_file.len();
    if len < 8 {
        return Err(MegParseError::NotEnoughBytesForHeader { file_size: len, min_bytes: 8 });
    }
    let num_filenames = read_u32_le(full_file, 0);
    let num_files = read_u32_le(full_file, 4);
    let mut names: Vec<ValidatedName<'b>> = Vec::new();
    let mut cursor: usize = 8;
    let mut name_index: u32 = 0;
    assert(names_view(names@) =~= Seq::<NameView>::empty());
    while name_index < num_filenames
        invariant
            len == full_file@.len(),
            8 <= cursor <= len,
            0 <= name_index <= num_filenames,
            num_filenames == spec_u32_le(full_file@, 0),
            spec_names_from(full_file@, options@, 8, 0, num_filenames, Seq::empty())
                == spec_names_from(
                full_file@,
                options@,
                cursor as int,
                name_index,
                num_filenames,
                names_view(names@),
            ),
            names_wf(names@),
        decreases num_filenames - name_index,
    {
        if len - cursor < 2 {
            return Err(
                MegParseError::EofDuringNameParsing {
                    file_size: len,
                    cursor_position: cursor,
                    num_names: num_filenames,
                    name_index,
                },
            );
        }
        let name_len = read_u16_le(full_file, cursor) as usize;
        if len - cursor - 2 < name_len {
            return Err(
                MegParseError::EofDuringNameParsing {
                    file_size: len,
                    cursor_position: cursor,
                    num_names: num_filenames,
                    name_index,
                },
            );
        }
        let raw_name = vstd::slice::slice_subrange(full_file, cursor + 2, cursor + 2 + name_len);
        if name_len > 260 && options.validate_name_length {
            return Err(MegParseError::NameTooLong { name_index, name_len });
        }
        proof {
            crate::path::lemma_validate_ok_iff_valid(raw_name@);
        }
        let validated_name = match MegPath::from_bytes(raw_name) {
            Ok(p) => Some(p),
            Err(path_error) => {
                if options.validate_names {
                    return Err(MegParseError::InvalidName { name_index, path_error });
                }
                None
            },
        };
        let ghost before = names@;
        let name = ValidatedName { raw_name, validated_name };
        names.push(name);
        assert(names_view(names@) =~= names_view(before).push(name@));
        cursor = cursor + 2 + name_len;
        name_index = name_index + 1;
    }
    if (len - cursor) as u64 / 20 < num_files as u64 {
        return Err(
            MegParseError::EofDuringFileRecordsParsing {
                file_size: len,
                cursor_position: cursor,
                num_files,
            },
        );
    }
    Ok((names, cursor, num_files))
}

/// The file of the record at `p`; see [`spec_record_to_file`].
fn record_v1v2_to_file<'b>(
    options: &ParseOptions,
    bytes: &'b [u8],
    names: &Vec<ValidatedName<'b>>,
    file_index: usize,
    p: usize,
) -> (r: Result<File<'b>, MegParseError>)
    requires
        p + 20 <= bytes@.len(),
        names_wf(names@),
    ensures
        result_view(r) == spec_record_to_file(bytes@, options@, names_view(names@), file_index as int, p as int),
{
    let len = bytes.len();
    let crc = read_u32_le(bytes, p);
    let index = read_u32_le(bytes, p + 4);
    let size = read_u32_le(bytes, p + 8);
    let start = read_u32_le(bytes, p + 12);
    let name_index = read_u32_le(bytes, p + 16);
    if index as usize != file_index && options.validate_index {
        return Err(
            MegParseError::InvalidFileIndex { file_index, index_from_record: index as usize },
        );
    }
    let n = names.len();
    let has_name = (name_index as usize) < n;
    if !has_name && options.validate_name_index {
        return Err(
            MegParseError::NameIndexOutOfRange {
                file_index,
                name_index: name_index as usize,
                num_names: n,
            },
        );
    }
    if has_name {
        let actual_crc = crc32_hash(names[name_index as usize].raw_name);
        if crc != actual_crc && options.validate_crc {
            return Err(
                MegParseError::InvalidCrc { file_index, expected_crc: crc, actual_crc },
            );
        }
    }
    let s = start as usize;
    let in_bounds = s <= len && size as usize <= len - s;
    if !in_bounds && options.validate_file_bounds {
        return Err(MegParseError::FileOutOfBounds { file_index, file_size: len, start, size });
    }
    let lo = if s <= len {
        s
    } else {
        len
    };
    let hi = if in_bounds {
        s + size as usize
    } else {
        len
    };
    let contents = vstd::slice::slice_subrange(bytes, lo, hi);
    let (raw_name, path) = if has_name {
        let nm = &names[name_index as usize];
        assert(nm.wf());
        (Some(nm.raw_name), nm.validated_name)
    } else {
        (None, None)
    };
    let f = File { raw_name, path, contents, expected_size: size as usize };
    proof {
        if has_name {
            assert(names_view(names@)[name_index as int] == names@[name_index as int]@);
        }
    }
    Ok(f)
}

/// The files of a V1 MEGA file, parsed one at a time.
///
/// The header and names table are parsed on the first call of [`next`](Self::next); each further
/// call parses one file record. After an error, nothing more is yielded.
pub struct MegFileContentsV1<'b> {
    options: ParseOptions,
    /// The bytes of the entire MEGA file.
    bytes: &'b [u8],
    /// The names, once the names table has been parsed.
    names: Option<Vec<ValidatedName<'b>>>,
    /// Where the file records table starts.
    records_start: usize,
    /// The number of file records.
    num_files: u32,
    /// Index of the next file record.
    next_index_front: usize,
    /// Set once an error was yielded.
    errored_out: bool,
}

impl<'b> MegFileContentsV1<'b> {
    /// Once the names are parsed, they and the table position are those of the MEGA file.
    #[verifier::type_invariant]
    spec fn inv(self) -> bool {
        self.names matches Some(ns) ==> {
            &&& spec_header_and_names(self.bytes@, self.options@) == Ok::<
                (Seq<NameView>, int, int),
                MegParseError,
            >((names_view(ns@), self.records_start as int, self.num_files as int))
            &&& names_wf(ns@)
            &&& self.next_index_front <= self.num_files
        }
    }

    /// What is still to be yielded.
    pub closed spec fn remaining(&self) -> Seq<Result<FileView, MegParseError>> {
        if self.errored_out {
            Seq::empty()
        } else {
            match self.names {
                None => spec_parse_results(self.bytes@, self.options@),
                Some(ns) => spec_results_from(
                    self.bytes@,
                    self.options@,
                    names_view(ns@),
                    self.records_start as int,
                    self.next_index_front as int,
                    self.num_files as int,
                ),
            }
        }
    }

    /// The number of file records not parsed yet: unknown before the header is parsed, none
    /// after an error.
    pub closed spec fn records_left(&self) -> Option<nat> {
        if self.errored_out {
            Some(0)
        } else {
            match self.names {
                None => None,
                Some(_) => Some((self.num_files - self.next_index_front) as nat),
            }
        }
    }

    /// Bounds on how many more items [`next`](Self::next) yields: before the header is parsed, at
    /// most `u32::MAX`; afterwards at most the records left, and at least one while any is left.
    pub fn size_hint(&self) -> (r: (usize, Option<usize>))
        ensures
            r == match self.records_left() {
                None => (0usize, Some(u32::MAX as usize)),
                Some(k) => (
                    if k == 0 {
                        0usize
                    } else {
                        1usize
                    },
                    Some(k as usize),
                ),
            },
            r.0 <= self.remaining().len(),
            r.1 matches Some(hi) && self.remaining().len() <= hi,
            self.records_left() == Some(0nat) ==> r == (0usize, Some(0usize)),
    {
        proof {
            use_type_invariant(self);
        }
        if self.errored_out {
            return (0, Some(0));
        }
        match &self.names {
            None => {
                proof {
                    let b = self.bytes@;
                    let o = self.options@;
                    if let Ok((names, start, n)) = spec_header_and_names(b, o) {
                        lemma_results_from_len(b, o, names, start, 0, n);
                    }
                }
                (0, Some(u32::MAX as usize))
            },
            Some(ns) => {
                let left = (self.num_files as usize) - self.next_index_front;
                proof {
                    lemma_results_from_len(
                        self.bytes@,
                        self.options@,
                        names_view(ns@),
                        self.records_start as int,
                        self.next_index_front as int,
                        self.num_files as int,
                    );
                }
                let lo: usize = if left == 0 {
                    0
                } else {
                    1
                };
                (lo, Some(left))
            },
        }
    }

    /// Starts parsing `bytes` with the given options.
    pub fn new(bytes: &'b [u8], options: &ParseOptions) -> (r: Self)
        ensures
            r.remaining() == spec_parse_results(bytes@, options@),
    {
        MegFileContentsV1 {
            options: *options,
            bytes,
            names: None,
            records_start: 0,
            num_files: 0,
            next_index_front: 0,
            errored_out: false,
        }
    }

    /// Parses the header and names table unless that was done already.
    fn get_names_or_start_parse(&mut self) -> (r: Result<(), MegParseError>)
        requires
            !old(self).errored_out,
        ensures
            !final(self).errored_out,
            final(self).bytes == old(self).bytes,
            final(self).options == old(self).options,
            match r {
                Ok(()) => final(self).names is Some && final(self).remaining() == old(self).remaining(),
                Err(e) => final(self).names is None && old(self).names is None && spec_header_and_names(
                    old(self).bytes@,
                    old(self).options@,
                ) == Err::<(Seq<NameView>, int, int), MegParseError>(e),
            },
    {
        if self.names.is_some() {
            return Ok(());
        }
        match parse_header_and_names(self.bytes, &self.options) {
            Ok((names, start, n)) => {
                self.records_start = start;
                self.num_files = n;
                self.next_index_front = 0;
                self.names = Some(names);
                Ok(())
            },
            Err(e) => Err(e),
        }
    }

    /// Yields the next file, or the error that ends parsing; `None` once everything was yielded.
    /// After an error nothing more is yielded, and from then on, as after a `None`, no records
    /// are left ([`size_hint`](Self::size_hint) is `(0, Some(0))`).
    pub fn next(&mut self) -> (r: Option<Result<File<'b>, MegParseError>>)
        ensures
            old(self).remaining().len() == 0 ==> r is None && final(self).remaining().len() == 0,
            old(self).remaining().len() > 0 ==> (r matches Some(x) && result_view(x) == old(
                self,
            ).remaining()[0] && final(self).remaining() == old(self).remaining().drop_first()),
            r matches Some(Err(_)) ==> (final(self).remaining().len() == 0 && final(self).records_left()
                == Some(0nat)),
            r is None ==> final(self).records_left() == Some(0nat),
    {
        proof {
            use_type_invariant(&*self);
        }
        if self.errored_out {
            return None;
        }
        match self.get_names_or_start_parse() {
            Ok(()) => {},
            Err(e) => {
                self.errored_out = true;
                return Some(Err(e));
            },
        }
        self.next_record()
    }

    /// Yields the file of the next record, or the error that ends parsing; `None` after the last
    /// record.
    fn next_record(&mut self) -> (r: Option<Result<File<'b>, MegParseError>>)
        requires
            !old(self).errored_out,
            old(self).names is Some,
        ensures
            old(self).remaining().len() == 0 ==> r is None && final(self).remaining().len() == 0,
            old(self).remaining().len() > 0 ==> (r matches Some(x) && result_view(x) == old(
                self,
            ).remaining()[0] && final(self).remaining() == old(self).remaining().drop_first()),
            r matches Some(Err(_)) ==> final(self).errored_out,
            r is None ==> final(self).records_left() == Some(0nat),
    {
        proof {
            use_type_invariant(&*self);
        }
        let i = self.next_index_front;
        if i >= self.num_files as usize {
            return None;
        }
        let len = self.bytes.len();
        proof {
            assert(self.records_start + 20 * self.num_files <= len);
        }
        let p = self.records_start + 20 * i;
        let r = match &self.names {
            Some(names) => record_v1v2_to_file(&self.options, self.bytes, names, i, p),
            None => {
                return None;
            },
        };
        self.next_index_front = i + 1;
        match r {
            Ok(f) => Some(Ok(f)),
            Err(e) => {
                self.errored_out = true;
                Some(Err(e))
            },
        }
    }

    /// Everything still to be yielded, in order.
    pub fn collect(self) -> (r: Vec<Result<File<'b>, MegParseError>>)
        ensures
            results_view(r@) == self.remaining(),
    {
        let ghost all = self.remaining();
        let mut it = self;
        let mut out: Vec<Result<File<'b>, MegParseError>> = Vec::new();
        assert(results_view(out@) =~= Seq::<Result<FileView, MegParseError>>::empty());
        loop
            invariant
                all == results_view(out@) + it.remaining(),
                all == self.remaining(),
            decreases it.remaining().len(),
        {
            let ghost before = it.remaining();
            match it.next() {
                Some(x) => {
                    let ghost prev = out@;
                    out.push(x);
                    assert(results_view(out@) =~= results_view(prev).push(result_view(x)));
                    assert(before =~= seq![before[0]] + before.drop_first());
                },
                None => {
                    assert(results_view(out@) =~= all);
                    return out;
                },
            }
        }
    }
}

/// Parse a V1 MEGA file with the default options.
pub fn parse<'b>(bytes: &'b [u8]) -> (r: MegFileContentsV1<'b>)
    ensures
        r.remaining() == spec_parse_results(bytes@, default_parse_options()),
{
    MegFileContentsV1::new(bytes, &ParseOptions::new())
}

/// Parse a V1 MEGA file with the given options.
pub fn parse_opt<'b>(bytes: &'b [u8], options: &ParseOptions) -> (r: MegFileContentsV1<'b>)
    ensures
        r.remaining() == spec_parse_results(bytes@, options@),
{
    MegFileContentsV1::new(bytes, options)
}


} // verus!
