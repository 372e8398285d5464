//! The rules of the command line tool: how names are written out, and which files a list of
//! literal paths selects.

use crate::path::{
    spec_ascii_lower, spec_ascii_upper, spec_path_eq, spec_validate_path, valid_path, MegPath,
    MegPathError, BACKSLASH, SLASH,
};
use crate::crypto::Key;
use crate::reader::FileEntry;
use vstd::string::StrSliceExecFns;
use vstd::prelude::*;
use vstd::string::StringSliceAdditionalSpecFns;

verus! {

/// `path` with every `\` replaced by `/`.
pub open spec fn spec_unix_path(path: Seq<u8>) -> Seq<u8> {
    path.map_values(
        |c: u8|
            if c == BACKSLASH {
                SLASH
            } else {
                c
            },
    )
}

/// Putting a path in Unix form changes exactly its backslashes (byte 92), each into a slash
/// (byte 47); every other byte, and the length, stay as they are.
pub proof fn lemma_unix_path_bytes(path: Seq<u8>)
    ensures
        spec_unix_path(path).len() == path.len(),
        forall|i: int|
            0 <= i < path.len() ==> #[trigger] spec_unix_path(path)[i] == if path[i] == 92 {
                47u8
            } else {
                path[i]
            },
        forall|i: int| 0 <= i < path.len() ==> #[trigger] spec_unix_path(path)[i] != 92,
{
}

/// Replaces all instances of `\` with `/`, irrespective of the current platform.
pub fn normalize_path_to_unix(path: &[u8]) -> (r: Vec<u8>)
    ensures
        r@ == spec_unix_path(path@),
{
    let mut out: Vec<u8> = Vec::new();
    let mut i: usize = 0;
    while i < path.len()
        invariant
            0 <= i <= path@.len(),
            out@ == spec_unix_path(path@.subrange(0, i as int)),
        decreases path@.len() - i,
    {
        let c = path[i];
        out.push(
            if c == BACKSLASH {
                SLASH
            } else {
                c
            },
        );
        i = i + 1;
        assert(out@ =~= spec_unix_path(path@.subrange(0, i as int)));
    }
    assert(path@.subrange(0, i as int) =~= path@);
    out
}

/// How to handle the case of file names from MEGA files.
#[derive(Clone, Copy, Debug, PartialEq, Eq, Structural)]
pub enum NameCaseMode {
    /// Keep the file name case as-specified.
    Keep,
    /// Convert all file names to lower case.
    Lower,
    /// Convert file names to upper case.
    Upper,
}

/// `path` in the case that `mode` asks for: ASCII letters lowered or raised, other bytes kept.
pub open spec fn spec_convert_case(mode: NameCaseMode, path: Seq<u8>) -> Seq<u8> {
    match mode {
        NameCaseMode::Keep => path,
        NameCaseMode::Lower => path.map_values(|c: u8| spec_ascii_lower(c)),
        NameCaseMode::Upper => path.map_values(|c: u8| spec_ascii_upper(c)),
    }
}

/// Case conversion keeps the length and every byte that is not an ASCII letter. Keep changes
/// nothing. Lower turns each of `A`..=`Z` (65..=90) into the same letter in lower case (32
/// more), so that no upper-case letter is left; Upper turns each of `a`..=`z` (97..=122) into
/// the same letter in upper case (32 less), so that no lower-case letter is left.
pub proof fn lemma_convert_case_bytes(mode: NameCaseMode, path: Seq<u8>)
    ensures
        spec_convert_case(mode, path).len() == path.len(),
        forall|i: int|
            0 <= i < path.len() ==> {
                let c = path[i] as int;
                let d = #[trigger] spec_convert_case(mode, path)[i] as int;
                match mode {
                    NameCaseMode::Keep => d == c,
                    NameCaseMode::Lower => {
                        &&& 65 <= c <= 90 ==> d == c + 32
                        &&& !(65 <= c <= 90) ==> d == c
                        &&& !(65 <= d <= 90)
                    },
                    NameCaseMode::Upper => {
                        &&& 97 <= c <= 122 ==> d == c - 32
                        &&& !(97 <= c <= 122) ==> d == c
                        &&& !(97 <= d <= 122)
                    },
                }
            },
{
}

impl NameCaseMode {
    /// Converts the case of the ASCII letters of `path` as the mode asks.
    pub fn convert(self, path: &mut Vec<u8>)
        ensures
            final(path)@ == spec_convert_case(self, old(path)@),
    {
        if self == NameCaseMode::Keep {
            return ;
        }
        let ghost start = path@;
        let n = path.len();
        let mut i: usize = 0;
        while i < n
            invariant
                n == start.len(),
                path@.len() == n,
                0 <= i <= n,
                self != NameCaseMode::Keep,
                forall|j: int| 0 <= j < i ==> #[trigger] path@[j] == spec_convert_case(self, start)[j],
                forall|j: int| i <= j < n ==> #[trigger] path@[j] == start[j],
            decreases n - i,
        {
            let c = path[i];
            let d = if self == NameCaseMode::Lower {
                if 65 <= c && c <= 90 {
                    c + 32
                } else {
                    c
                }
            } else {
                if 97 <= c && c <= 122 {
                    c - 32
                } else {
                    c
                }
            };
            path.set(i, d);
            i = i + 1;
        }
        assert(path@ =~= spec_convert_case(self, start));
    }
}

/// How to match file names from the MEGA file.
#[derive(Clone, Copy, Debug, PartialEq, Eq, Structural)]
pub enum PathMatchMode {
    /// Match the literal file names (default).
    Literal,
    /// Match any file names which match the given globs.
    Glob,
    /// Match any file names which match the given regex.
    Regex,
}

/// Why a list of literal paths could not select files.
#[derive(Debug)]
pub enum LiteralSelectError {
    /// These requested paths (index and error) are not valid MEGA paths.
    InvalidPaths(Vec<(usize, MegPathError)>),
    /// These requested paths (indexes of their first requests) match no file.
    NotFound(Vec<usize>),
}

/// The bytes of a requested path.
pub open spec fn request_bytes(s: String) -> Seq<u8> {
    vstd::utf8::encode_utf8(s@)
}

/// The requests from `i` on that are not valid paths, with their errors.
pub open spec fn spec_invalid_from(reqs: Seq<Seq<u8>>, i: int) -> Seq<(usize, MegPathError)>
    decreases reqs.len() - i,
{
    if i < 0 || i >= reqs.len() {
        Seq::empty()
    } else {
        match spec_validate_path(reqs[i]) {
            Ok(_) => spec_invalid_from(reqs, i + 1),
            Err(e) => seq![(i as usize, e)] + spec_invalid_from(reqs, i + 1),
        }
    }
}

/// Whether some name equals the request `p` as a MEGA path.
pub open spec fn found(names: Seq<Seq<u8>>, p: Seq<u8>) -> bool {
    exists|j: int| 0 <= j < names.len() && spec_path_eq(#[trigger] names[j], p)
}

/// Whether the file `j` is selected: its name was requested, and no earlier file has the same
/// name (each requested path selects one file).
pub open spec fn literal_selected(names: Seq<Seq<u8>>, reqs: Seq<Seq<u8>>, j: int) -> bool {
    &&& exists|k: int| 0 <= k < reqs.len() && spec_path_eq(names[j], #[trigger] reqs[k])
    &&& !exists|i: int| 0 <= i < j && spec_path_eq(#[trigger] names[i], names[j])
}

/// Whether the request `k` is the first request of its path.
pub open spec fn first_request(reqs: Seq<Seq<u8>>, k: int) -> bool {
    !exists|i: int| 0 <= i < k && spec_path_eq(#[trigger] reqs[i], reqs[k])
}

/// The first requests, from `i` on, of the paths that match no name.
pub open spec fn spec_missing_from(names: Seq<Seq<u8>>, reqs: Seq<Seq<u8>>, i: int) -> Seq<usize>
    decreases reqs.len() - i,
{
    if i < 0 || i >= reqs.len() {
        Seq::empty()
    } else if first_request(reqs, i) && !found(names, reqs[i]) {
        seq![i as usize] + spec_missing_from(names, reqs, i + 1)
    } else {
        spec_missing_from(names, reqs, i + 1)
    }
}

/// The names of a list of entries.
pub open spec fn entry_names(entries: Seq<FileEntry>) -> Seq<Seq<u8>> {
    entries.map_values(|e: FileEntry| e@.name)
}

/// Whether the path `p` equals one of `names[0..n]`.
fn some_equal(names: &Vec<MegPath>, n: usize, p: &MegPath) -> (r: bool)
    requires
        n <= names@.len(),
    ensures
        r == exists|i: int| 0 <= i < n && spec_path_eq(#[trigger] names@[i]@, p@),
{
    let mut i: usize = 0;
    while i < n
        invariant
            n <= names@.len(),
            0 <= i <= n,
            forall|j: int| 0 <= j < i ==> !spec_path_eq(#[trigger] names@[j]@, p@),
        decreases n - i,
    {
        if names[i].path_eq(p) {
            return true;
        }
        i = i + 1;
    }
    false
}

/// Selects the files whose names were requested: one flag per entry. Every request must be a
/// valid MEGA path, and must match some file, or the error lists those that did not.
pub fn select_literal(entries: &Vec<FileEntry>, requested: &Vec<String>) -> (r: Result<
    Vec<bool>,
    LiteralSelectError,
>)
    ensures
        ({
            let reqs = requested@.map_values(|s: String| request_bytes(s));
            let names = entry_names(entries@);
            match r {
                Ok(keep) => {
                    &&& spec_invalid_from(reqs, 0).len() == 0
                    &&& spec_missing_from(names, reqs, 0).len() == 0
                    &&& keep@.len() == entries@.len()
                    &&& forall|j: int|
                        0 <= j < keep@.len() ==> #[trigger] keep@[j] == literal_selected(
                            names,
                            reqs,
                            j,
                        )
                },
                Err(LiteralSelectError::InvalidPaths(v)) => spec_invalid_from(reqs, 0).len() > 0
                    && v@ == spec_invalid_from(reqs, 0),
                Err(LiteralSelectError::NotFound(v)) => spec_invalid_from(reqs, 0).len() == 0
                    && spec_missing_from(names, reqs, 0).len() > 0 && v@ == spec_missing_from(
                    names,
                    reqs,
                    0,
                ),
            }
        }),
{
    let ghost reqs = requested@.map_values(|s: String| request_bytes(s));
    let ghost names_v = entry_names(entries@);
    let m = requested.len();
    // Validate every request, collecting the errors.
    let mut paths: Vec<MegPath> = Vec::new();
    let mut invalid: Vec<(usize, MegPathError)> = Vec::new();
    let mut k: usize = 0;
    while k < m
        invariant
            m == requested@.len(),
            reqs == requested@.map_values(|s: String| request_bytes(s)),
            0 <= k <= m,
            spec_invalid_from(reqs, 0) == invalid@ + spec_invalid_from(reqs, k as int),
            invalid@.len() == 0 ==> paths@.len() == k && forall|i: int|
                0 <= i < k ==> (#[trigger] paths@[i])@ == reqs[i],
        decreases m - k,
    {
        let s = requested[k].as_str();
        assert(s.spec_bytes() == reqs[k as int]);
        proof {
            crate::path::lemma_validate_ok_iff_valid(reqs[k as int]);
        }
        match MegPath::from_str(s) {
            Ok(p) => {
                paths.push(p);
            },
            Err(e) => {
                let ghost before = invalid@;
                invalid.push((k, e));
                assert(invalid@ =~= before + seq![(k, e)]);
                assert(spec_invalid_from(reqs, k as int) == seq![(k, e)] + spec_invalid_from(reqs, k + 1));
                assert(before + spec_invalid_from(reqs, k as int) =~= invalid@ + spec_invalid_from(reqs, k + 1));
            },
        }
        k = k + 1;
    }
    assert(spec_invalid_from(reqs, m as int) =~= Seq::<(usize, MegPathError)>::empty());
    if invalid.len() > 0 {
        assert(invalid@ =~= spec_invalid_from(reqs, 0));
        return Err(LiteralSelectError::InvalidPaths(invalid));
    }
    assert(invalid@ =~= Seq::<(usize, MegPathError)>::empty());
    // The names of the entries.
    let n = entries.len();
    let mut names: Vec<MegPath> = Vec::new();
    let mut j: usize = 0;
    while j < n
        invariant
            n == entries@.len(),
            names_v == entry_names(entries@),
            0 <= j <= n,
            names@.len() == j,
            forall|i: int| 0 <= i < j ==> (#[trigger] names@[i])@ == names_v[i],
        decreases n - j,
    {
        names.push(entries[j].name());
        j = j + 1;
    }
    // The requests that match no name.
    let mut missing: Vec<usize> = Vec::new();
    let mut k2: usize = 0;
    while k2 < m
        invariant
            m == paths@.len(),
            n == names@.len(),
            names_v.len() == n,
            reqs.len() == m,
            forall|i: int| 0 <= i < m ==> (#[trigger] paths@[i])@ == reqs[i],
            forall|i: int| 0 <= i < n ==> (#[trigger] names@[i])@ == names_v[i],
            0 <= k2 <= m,
            spec_missing_from(names_v, reqs, 0) == missing@ + spec_missing_from(
                names_v,
                reqs,
                k2 as int,
            ),
        decreases m - k2,
    {
        let first = !some_equal(&paths, k2, &paths[k2]);
        let hit = some_equal(&names, n, &paths[k2]);
        proof {
            assert(first == first_request(reqs, k2 as int)) by {
                if !first {
                    let i = choose|i: int| 0 <= i < k2 && spec_path_eq(#[trigger] paths@[i]@, paths@[k2 as int]@);
                    assert(spec_path_eq(reqs[i], reqs[k2 as int]));
                }
                if !first_request(reqs, k2 as int) {
                    let i = choose|i: int| 0 <= i < k2 && spec_path_eq(#[trigger] reqs[i], reqs[k2 as int]);
                    assert(spec_path_eq(paths@[i]@, paths@[k2 as int]@));
                }
            }
            assert(hit == found(names_v, reqs[k2 as int])) by {
                if hit {
                    let i = choose|i: int| 0 <= i < n && spec_path_eq(#[trigger] names@[i]@, paths@[k2 as int]@);
                    assert(spec_path_eq(names_v[i], reqs[k2 as int]));
                }
                if found(names_v, reqs[k2 as int]) {
                    let i = choose|i: int| 0 <= i < names_v.len() && spec_path_eq(#[trigger] names_v[i], reqs[k2 as int]);
                    assert(spec_path_eq(names@[i]@, paths@[k2 as int]@));
                }
            }
        }
        if first && !hit {
            let ghost before = missing@;
            missing.push(k2);
            assert(missing@ =~= before + seq![k2]);
        }
        k2 = k2 + 1;
    }
    assert(spec_missing_from(names_v, reqs, m as int) =~= Seq::<usize>::empty());
    assert(missing@ =~= spec_missing_from(names_v, reqs, 0));
    if missing.len() > 0 {
        return Err(LiteralSelectError::NotFound(missing));
    }
    // Keep each entry whose name was requested and not taken by an earlier entry.
    let mut keep: Vec<bool> = Vec::new();
    let mut j2: usize = 0;
    while j2 < n
        invariant
            m == paths@.len(),
            n == names@.len(),
            names_v.len() == n,
            reqs.len() == m,
            forall|i: int| 0 <= i < m ==> (#[trigger] paths@[i])@ == reqs[i],
            forall|i: int| 0 <= i < n ==> (#[trigger] names@[i])@ == names_v[i],
            0 <= j2 <= n,
            keep@.len() == j2,
            forall|i: int| 0 <= i < j2 ==> #[trigger] keep@[i] == literal_selected(names_v, reqs, i),
        decreases n - j2,
    {
        let requested_here = some_equal(&paths, m, &names[j2]);
        let earlier = some_equal(&names, j2, &names[j2]);
        proof {
            let jj = j2 as int;
            assert(requested_here == exists|k: int| 0 <= k < reqs.len() && spec_path_eq(names_v[jj], #[trigger] reqs[k])) by {
                if requested_here {
                    let k = choose|k: int| 0 <= k < m && spec_path_eq(#[trigger] paths@[k]@, names@[jj]@);
                    assert(spec_path_eq(names_v[jj], reqs[k]));
                }
                if exists|k: int| 0 <= k < reqs.len() && spec_path_eq(names_v[jj], #[trigger] reqs[k]) {
                    let k = choose|k: int| 0 <= k < reqs.len() && spec_path_eq(names_v[jj], #[trigger] reqs[k]);
                    assert(spec_path_eq(paths@[k]@, names@[jj]@));
                }
            }
            assert(earlier == exists|i: int| 0 <= i < jj && spec_path_eq(#[trigger] names_v[i], names_v[jj])) by {
                if earlier {
                    let i = choose|i: int| 0 <= i < jj && spec_path_eq(#[trigger] names@[i]@, names@[jj]@);
                    assert(spec_path_eq(names_v[i], names_v[jj]));
                }
                if exists|i: int| 0 <= i < jj && spec_path_eq(#[trigger] names_v[i], names_v[jj]) {
                    let i = choose|i: int| 0 <= i < jj && spec_path_eq(#[trigger] names_v[i], names_v[jj]);
                    assert(spec_path_eq(names@[i]@, names@[jj]@));
                }
            }
        }
        keep.push(requested_here && !earlier);
        j2 = j2 + 1;
    }
    Ok(keep)
}

/// Whether `c` has the Unicode `White_Space` property, which `char::is_whitespace` and
/// `str::trim` go by.
pub open spec fn is_white_space(c: char) -> bool {
    let u = c as u32;
    (9 <= u <= 13) || u == 0x20 || u == 0x85 || u == 0xA0 || u == 0x1680 || (0x2000 <= u
        <= 0x200A) || u == 0x2028 || u == 0x2029 || u == 0x202F || u == 0x205F || u == 0x3000
}

/// Whether `c` has the Unicode `White_Space` property.
fn white_space(c: char) -> (r: bool)
    ensures
        r == is_white_space(c),
{
    let u = c as u32;
    (9 <= u && u <= 13) || u == 0x20 || u == 0x85 || u == 0xA0 || u == 0x1680 || (0x2000 <= u && u
        <= 0x200A) || u == 0x2028 || u == 0x2029 || u == 0x202F || u == 0x205F || u == 0x3000
}

/// The first index from `i` on (before `hi`) that is not white space, or `hi`.
pub open spec fn skip_ws_from(cs: Seq<char>, i: int, hi: int) -> int
    decreases hi - i,
{
    if i < hi && is_white_space(cs[i]) {
        skip_ws_from(cs, i + 1, hi)
    } else {
        i
    }
}

/// The end of `cs[lo..j]` without its trailing white space.
pub open spec fn back_ws_from(cs: Seq<char>, lo: int, j: int) -> int
    decreases j - lo,
{
    if j > lo && is_white_space(cs[j - 1]) {
        back_ws_from(cs, lo, j - 1)
    } else {
        j
    }
}

/// `cs[lo..hi]` without leading and trailing white space, as its bounds.
pub open spec fn trimmed(cs: Seq<char>, lo: int, hi: int) -> (int, int) {
    let a = skip_ws_from(cs, lo, hi);
    (a, back_ws_from(cs, a, hi))
}

/// The first `':'` of `cs[i..hi]`, or `hi`.
pub open spec fn find_colon(cs: Seq<char>, i: int, hi: int) -> int
    decreases hi - i,
{
    if i < hi && cs[i] != ':' {
        find_colon(cs, i + 1, hi)
    } else {
        i
    }
}

/// The value of a hexadecimal digit, or -1.
pub open spec fn hex_digit_value(c: char) -> int {
    if '0' <= c <= '9' {
        c as int - '0' as int
    } else if 'a' <= c <= 'f' {
        c as int - 'a' as int + 10
    } else if 'A' <= c <= 'F' {
        c as int - 'A' as int + 10
    } else {
        -1
    }
}

/// The value of a string of hexadecimal digits.
pub open spec fn hex_value(cs: Seq<char>) -> int
    decreases cs.len(),
{
    if cs.len() == 0 {
        0
    } else {
        hex_value(cs.drop_last()) * 16 + hex_digit_value(cs.last())
    }
}

/// The digits of a number: without its leading `+`, if any.
pub open spec fn number_digits(cs: Seq<char>) -> Seq<char> {
    if cs.len() > 0 && cs[0] == '+' {
        cs.drop_first()
    } else {
        cs
    }
}

/// Whether `u128::from_str_radix(_, 16)` accepts `cs`: an optional `+` and at least one
/// hexadecimal digit, with a value that fits in 128 bits.
pub open spec fn hex_number_ok(cs: Seq<char>) -> bool {
    let d = number_digits(cs);
    &&& d.len() > 0
    &&& forall|i: int| 0 <= i < d.len() ==> hex_digit_value(#[trigger] d[i]) >= 0
    &&& hex_value(d) <= u128::MAX
}

/// The error of `u128::from_str_radix`.
#[verifier::external_type_specification]
#[verifier::external_body]
pub struct ExParseIntError(std::num::ParseIntError);

/// Parses a number in base 16 with `u128::from_str_radix`.
///
/// Claimed, as std documents it: an optional `+` followed by at least one digit of `0-9`, `a-f`
/// or `A-F`, whose value fits in 128 bits, parses to that value; anything else is an error.
#[verifier::external_body]
fn u128_from_hex(s: &str) -> (r: Result<u128, std::num::ParseIntError>)
    ensures
        r is Ok <==> hex_number_ok(s@),
        r matches Ok(v) ==> v == hex_value(number_digits(s@)),
{
    u128::from_str_radix(s, 16)
}

/// The `n` big-endian bytes of `v`.
pub open spec fn be_bytes(v: int, n: nat) -> Seq<u8>
    decreases n,
{
    if n == 0 {
        Seq::empty()
    } else {
        be_bytes(v / 256, (n - 1) as nat).push((v % 256) as u8)
    }
}

/// The 16 big-endian bytes of `v`.
fn u128_be_bytes(v: u128) -> (r: [u8; 16])
    ensures
        r@ == be_bytes(v as int, 16),
{
    let mut out = [0u8; 16];
    let mut x = v;
    let mut i: usize = 16;
    assert(out@.subrange(16, 16) =~= Seq::<u8>::empty());
    while i > 0
        invariant
            0 <= i <= 16,
            out@.len() == 16,
            be_bytes(v as int, 16) == be_bytes(x as int, i as nat) + out@.subrange(i as int, 16),
        decreases i,
    {
        let ghost before = out@;
        let ghost bx = x as int;
        i = i - 1;
        out[i] = (x % 256) as u8;
        x = x / 256;
        assert(out@.subrange(i as int, 16) =~= seq![(bx % 256) as u8] + before.subrange(
            i + 1,
            16,
        ));
        assert(be_bytes(bx, (i + 1) as nat) == be_bytes(bx / 256, i as nat).push((bx % 256) as u8));
        assert(be_bytes(bx / 256, i as nat).push((bx % 256) as u8) + before.subrange(i + 1, 16)
            =~= be_bytes(x as int, i as nat) + out@.subrange(i as int, 16));
    }
    assert(be_bytes(x as int, 0) =~= Seq::<u8>::empty());
    assert(out@ =~= be_bytes(v as int, 16));
    out
}

/// Why a key text did not parse.
#[derive(Debug)]
pub enum ParseKeyError {
    /// There is no `:` between key and initial vector.
    NoSeparator,
    /// There is more than one `:`.
    ExtraSeparator,
    /// The key is not 32 bytes long.
    InvalidKeyLen { len: usize },
    /// The initial vector is not 32 bytes long.
    InvalidIVLen { len: usize },
    /// The key is not a hexadecimal number.
    InvalidKey(std::num::ParseIntError),
    /// The initial vector is not a hexadecimal number.
    InvalidIV(std::num::ParseIntError),
}

/// The outcome of parsing a key text, as plain values.
pub enum KeyTextView {
    Parsed { key: u128, iv: u128 },
    NoSeparator,
    ExtraSeparator,
    InvalidKeyLen { len: nat },
    InvalidIVLen { len: nat },
    InvalidKey,
    InvalidIV,
}

/// What a key text `<KEY>:<IV>` parses to. The text is trimmed of white space and split at
/// `:`; there must be exactly one. Each part, trimmed, must be 32 bytes long and a hexadecimal
/// number (an optional `+` and digits), checked for the key first.
pub open spec fn spec_key_text(cs: Seq<char>) -> KeyTextView {
    let (lo, hi) = trimmed(cs, 0, cs.len() as int);
    let c1 = find_colon(cs, lo, hi);
    if c1 >= hi {
        KeyTextView::NoSeparator
    } else if find_colon(cs, c1 + 1, hi) < hi {
        KeyTextView::ExtraSeparator
    } else {
        let (ka, kb) = trimmed(cs, lo, c1);
        let (ia, ib) = trimmed(cs, c1 + 1, hi);
        let key = cs.subrange(ka, kb);
        let iv = cs.subrange(ia, ib);
        let klen = vstd::utf8::encode_utf8(key).len();
        let ilen = vstd::utf8::encode_utf8(iv).len();
        if klen != 32 {
            KeyTextView::InvalidKeyLen { len: klen }
        } else if ilen != 32 {
            KeyTextView::InvalidIVLen { len: ilen }
        } else if !hex_number_ok(key) {
            KeyTextView::InvalidKey
        } else if !hex_number_ok(iv) {
            KeyTextView::InvalidIV
        } else {
            KeyTextView::Parsed {
                key: hex_value(number_digits(key)) as u128,
                iv: hex_value(number_digits(iv)) as u128,
            }
        }
    }
}

/// Whether a parse result agrees with the specified outcome.
pub open spec fn key_result_matches(r: Result<Key, ParseKeyError>, v: KeyTextView) -> bool {
    match r {
        Ok(k) => v matches KeyTextView::Parsed { key, iv } && k@ == (
            be_bytes(key as int, 16),
            be_bytes(iv as int, 16),
        ),
        Err(ParseKeyError::NoSeparator) => v is NoSeparator,
        Err(ParseKeyError::ExtraSeparator) => v is ExtraSeparator,
        Err(ParseKeyError::InvalidKeyLen { len }) => v == KeyTextView::InvalidKeyLen { len: len as nat },
        Err(ParseKeyError::InvalidIVLen { len }) => v == KeyTextView::InvalidIVLen { len: len as nat },
        Err(ParseKeyError::InvalidKey(_)) => v is InvalidKey,
        Err(ParseKeyError::InvalidIV(_)) => v is InvalidIV,
    }
}

/// The bounds of `s[lo..hi]` without leading and trailing white space.
fn trim_bounds(s: &str, lo: usize, hi: usize) -> (r: (usize, usize))
    requires
        lo <= hi <= s@.len(),
    ensures
        r.0 as int == trimmed(s@, lo as int, hi as int).0,
        r.1 as int == trimmed(s@, lo as int, hi as int).1,
        lo <= r.0 <= r.1 <= hi,
{
    let mut a = lo;
    while a < hi && white_space(s.get_char(a))
        invariant
            lo <= a <= hi <= s@.len(),
            skip_ws_from(s@, lo as int, hi as int) == skip_ws_from(s@, a as int, hi as int),
        decreases hi - a,
    {
        a = a + 1;
    }
    let mut b = hi;
    while b > a && white_space(s.get_char(b - 1))
        invariant
            a <= b <= hi <= s@.len(),
            back_ws_from(s@, a as int, hi as int) == back_ws_from(s@, a as int, b as int),
        decreases b - a,
    {
        b = b - 1;
    }
    (a, b)
}

/// The first `':'` of `s[i..hi]`, or `hi`.
fn colon_from(s: &str, i: usize, hi: usize) -> (r: usize)
    requires
        i <= hi <= s@.len(),
    ensures
        r == find_colon(s@, i as int, hi as int),
        i <= r <= hi,
{
    let mut c = i;
    while c < hi && s.get_char(c) != ':'
        invariant
            i <= c <= hi <= s@.len(),
            find_colon(s@, i as int, hi as int) == find_colon(s@, c as int, hi as int),
        decreases hi - c,
    {
        c = c + 1;
    }
    c
}

/// Parses a MEGA file key out of a string consisting of `<HEX KEY>:<HEX IV>`; see
/// [`spec_key_text`]. The numbers' bytes are taken big-endian, the first digits giving the first
/// bytes.
pub fn parse_key(s: &str) -> (r: Result<Key, ParseKeyError>)
    ensures
        key_result_matches(r, spec_key_text(s@)),
{
    let n = s.unicode_len();
    let (lo, hi) = trim_bounds(s, 0, n);
    let c1 = colon_from(s, lo, hi);
    if c1 >= hi {
        return Err(ParseKeyError::NoSeparator);
    }
    let c2 = colon_from(s, c1 + 1, hi);
    if c2 < hi {
        return Err(ParseKeyError::ExtraSeparator);
    }
    let (ka, kb) = trim_bounds(s, lo, c1);
    let (ia, ib) = trim_bounds(s, c1 + 1, hi);
    let key = s.substring_char(ka, kb);
    let iv = s.substring_char(ia, ib);
    let klen = key.as_bytes().len();
    let ilen = iv.as_bytes().len();
    if klen != 32 {
        return Err(ParseKeyError::InvalidKeyLen { len: klen });
    }
    if ilen != 32 {
        return Err(ParseKeyError::InvalidIVLen { len: ilen });
    }
    let k = match u128_from_hex(key) {
        Ok(v) => v,
        Err(e) => return Err(ParseKeyError::InvalidKey(e)),
    };
    let v = match u128_from_hex(iv) {
        Ok(v) => v,
        Err(e) => return Err(ParseKeyError::InvalidIV(e)),
    };
    Ok(Key::new(u128_be_bytes(k), u128_be_bytes(v)))
}


/// A compiled glob pattern.
#[verifier::external_type_specification]
#[verifier::external_body]
pub struct ExGlob(globset::Glob);

/// A set of compiled glob patterns.
#[verifier::external_type_specification]
#[verifier::external_body]
pub struct ExGlobSet(globset::GlobSet);

/// The error of compiling or combining globs.
#[verifier::external_type_specification]
#[verifier::external_body]
pub struct ExGlobError(globset::Error);

/// A set of compiled regular expressions over bytes.
#[verifier::external_type_specification]
#[verifier::external_body]
pub struct ExRegexSet(regex::bytes::RegexSet);

/// The error of compiling regular expressions.
#[verifier::external_type_specification]
#[verifier::external_body]
pub struct ExRegexError(regex::Error);

/// Whether `path` matches the glob `pattern`, compiled with `\` escapes, case-insensitive
/// matching, empty alternates allowed and `/` matched literally (so `*` stays within a component).
pub uninterp spec fn glob_match(pattern: Seq<char>, path: Seq<u8>) -> bool;

/// Whether the regular expression `pattern`, compiled without Unicode support, matches
/// somewhere in `text`.
pub uninterp spec fn regex_match(pattern: Seq<char>, text: Seq<u8>) -> bool;

/// Whether some glob of `patterns` matches `path`.
pub open spec fn any_glob_matches(patterns: Seq<Seq<char>>, path: Seq<u8>) -> bool {
    exists|i: int| 0 <= i < patterns.len() && glob_match(#[trigger] patterns[i], path)
}

/// Whether some regular expression of `patterns` matches `text`.
pub open spec fn any_regex_matches(patterns: Seq<Seq<char>>, text: Seq<u8>) -> bool {
    exists|i: int| 0 <= i < patterns.len() && regex_match(#[trigger] patterns[i], text)
}

/// Whether `pattern` is a valid glob for `globset::GlobBuilder::build` with `\` escapes,
/// case-insensitive matching, empty alternates and a literal separator turned on.
pub uninterp spec fn glob_compiles(pattern: Seq<char>) -> bool;

/// Whether `regex::bytes::RegexSetBuilder::build`, Unicode support turned off, compiles
/// `patterns` into one set.
pub uninterp spec fn regex_set_compiles(patterns: Seq<Seq<char>>) -> bool;

/// The indices, in increasing order, of the first `n` patterns that are not valid globs.
pub open spec fn failing_globs(patterns: Seq<Seq<char>>, n: nat) -> Seq<int>
    decreases n,
{
    if n == 0 {
        Seq::empty()
    } else {
        let prev = failing_globs(patterns, (n - 1) as nat);
        if glob_compiles(patterns[n - 1]) {
            prev
        } else {
            prev.push(n - 1)
        }
    }
}

/// No index is listed exactly when every one of the first `n` patterns compiles; every listed
/// index is below `n`.
pub proof fn lemma_failing_globs(patterns: Seq<Seq<char>>, n: nat)
    ensures
        failing_globs(patterns, n).len() == 0 <==> forall|i: int|
            0 <= i < n ==> glob_compiles(#[trigger] patterns[i]),
        forall|k: int|
            0 <= k < failing_globs(patterns, n).len() ==> 0 <= #[trigger] failing_globs(
                patterns,
                n,
            )[k] < n && !glob_compiles(patterns[failing_globs(patterns, n)[k]]),
    decreases n,
{
    if n > 0 {
        lemma_failing_globs(patterns, (n - 1) as nat);
    }
}

/// The patterns as text.
pub open spec fn patterns_view(patterns: Seq<String>) -> Seq<Seq<char>> {
    patterns.map_values(|p: String| p@)
}

/// Compiles one glob with `globset::GlobBuilder::build`, with `\` escapes, case-insensitive
/// matching, empty alternates and a literal separator turned on.
///
/// Claimed: the build succeeds exactly when the pattern is a valid glob, a property of the
/// pattern's text alone (the builder parses it with fixed options). Which patterns are valid is
/// globset's syntax and is left unsaid.
#[verifier::external_body]
fn compile_glob(pattern: &str) -> (r: Result<globset::Glob, globset::Error>)
    ensures
        r is Ok <==> glob_compiles(pattern@),
{
    globset::GlobBuilder::new(pattern)
        .backslash_escape(true)
        .case_insensitive(true)
        .empty_alternates(true)
        .literal_separator(true)
        .build()
}

/// Combines compiled globs with `globset::GlobSet::new`.
///
/// Claimed, as its source shows: no globs give an empty set, never an error. When more globs
/// fail to combine is left unsaid (the globs are opaque here).
#[verifier::external_body]
fn combine_globs(globs: Vec<globset::Glob>) -> (r: Result<globset::GlobSet, globset::Error>)
    ensures
        globs@.len() == 0 ==> r is Ok,
{
    globset::GlobSet::new(globs)
}

/// Globs compiled from their patterns, for matching paths.
pub struct GlobMatcher {
    /// The compiled set.
    set: globset::GlobSet,
    /// The patterns the set was compiled from, in order.
    patterns: Vec<String>,
}

impl View for GlobMatcher {
    type V = Seq<Seq<char>>;

    closed spec fn view(&self) -> Seq<Seq<char>> {
        patterns_view(self.patterns@)
    }
}

/// Why globs could not be compiled.
#[derive(Debug)]
pub enum GlobCompileError {
    /// These patterns (index and error) are not valid globs.
    InvalidGlobs(Vec<(usize, globset::Error)>),
    /// The globs compiled but could not be combined.
    Combine(globset::Error),
}

/// Matches a path against a matcher's set with `globset::GlobSet::is_match_candidate`, the path
/// made a candidate by `globset::Candidate::from_bytes`.
///
/// Claimed, as globset documents it: true exactly when some glob of the set matches the path.
/// The set is the one compiled from the matcher's patterns (its fields are private and only
/// [`GlobMatcher::compile`] fills them). A candidate's `\` would become `/` on Windows only, so
/// the path must hold none.
#[verifier::external_body]
fn glob_set_matches(m: &GlobMatcher, path: &[u8]) -> (r: bool)
    requires
        !path@.contains(BACKSLASH),
    ensures
        r == (exists|i: int| 0 <= i < m@.len() && glob_match(#[trigger] m@[i], path@)),
{
    m.set.is_match_candidate(&globset::Candidate::from_bytes(path))
}

impl GlobMatcher {
    /// Compiles the patterns; every one must be a valid glob, or the error lists those that
    /// are not, in order.
    pub fn compile(patterns: &Vec<String>) -> (r: Result<GlobMatcher, GlobCompileError>)
        ensures
            ({
                let pats = patterns_view(patterns@);
                match r {
                    Ok(m) => {
                        &&& m@ == pats
                        &&& forall|i: int| 0 <= i < pats.len() ==> glob_compiles(#[trigger] pats[i])
                    },
                    Err(GlobCompileError::InvalidGlobs(v)) => {
                        &&& failing_globs(pats, pats.len()).len() > 0
                        &&& v@.map_values(|e: (usize, globset::Error)| e.0 as int) == failing_globs(
                            pats,
                            pats.len(),
                        )
                    },
                    Err(GlobCompileError::Combine(_)) => {
                        &&& pats.len() > 0
                        &&& forall|i: int| 0 <= i < pats.len() ==> glob_compiles(#[trigger] pats[i])
                    },
                }
            }),
    {
        let ghost pats = patterns_view(patterns@);
        let mut globs: Vec<globset::Glob> = Vec::new();
        let mut invalid: Vec<(usize, globset::Error)> = Vec::new();
        let mut i: usize = 0;
        while i < patterns.len()
            invariant
                0 <= i <= patterns@.len(),
                pats == patterns_view(patterns@),
                globs@.len() <= i,
                invalid@.map_values(|e: (usize, globset::Error)| e.0 as int) == failing_globs(
                    pats,
                    i as nat,
                ),
            decreases patterns@.len() - i,
        {
            let res = compile_glob(patterns[i].as_str());
            assert(patterns[i as int]@ == pats[i as int]);
            match res {
                Ok(g) => globs.push(g),
                Err(e) => {
                    invalid.push((i, e));
                },
            }
            assert(invalid@.map_values(|e: (usize, globset::Error)| e.0 as int) =~= failing_globs(
                pats,
                (i + 1) as nat,
            ));
            i = i + 1;
        }
        proof {
            lemma_failing_globs(pats, pats.len());
        }
        if invalid.len() > 0 {
            return Err(GlobCompileError::InvalidGlobs(invalid));
        }
        let set = match combine_globs(globs) {
            Ok(s) => s,
            Err(e) => return Err(GlobCompileError::Combine(e)),
        };
        let mut copy: Vec<String> = Vec::new();
        let mut j: usize = 0;
        while j < patterns.len()
            invariant
                0 <= j <= patterns@.len(),
                copy@.len() == j,
                forall|k: int| 0 <= k < j ==> (#[trigger] copy@[k])@ == patterns@[k]@,
            decreases patterns@.len() - j,
        {
            copy.push(patterns[j].clone());
            j = j + 1;
        }
        let m = GlobMatcher { set, patterns: copy };
        assert(m@ =~= pats);
        Ok(m)
    }
}

/// Selects the files whose names, with `/` for every separator, match some glob: one flag per
/// entry.
pub fn select_glob(entries: &Vec<FileEntry>, m: &GlobMatcher) -> (r: Vec<bool>)
    ensures
        r@.len() == entries@.len(),
        forall|j: int|
            0 <= j < r@.len() ==> #[trigger] r@[j] == any_glob_matches(
                m@,
                spec_unix_path(entry_names(entries@)[j]),
            ),
{
    let mut keep: Vec<bool> = Vec::new();
    let mut j: usize = 0;
    while j < entries.len()
        invariant
            0 <= j <= entries@.len(),
            keep@.len() == j,
            forall|k: int|
                0 <= k < j ==> #[trigger] keep@[k] == any_glob_matches(
                    m@,
                    spec_unix_path(entry_names(entries@)[k]),
                ),
        decreases entries@.len() - j,
    {
        let name = entries[j].name();
        let unix = normalize_path_to_unix(name.as_bytes());
        assert(!unix@.contains(BACKSLASH)) by {
            if unix@.contains(BACKSLASH) {
                let t = choose|t: int| 0 <= t < unix@.len() && unix@[t] == BACKSLASH;
                assert(unix@[t] == if name@[t] == BACKSLASH {
                    SLASH
                } else {
                    name@[t]
                });
            }
        }
        assert(entry_names(entries@)[j as int] == name@);
        keep.push(glob_set_matches(m, unix.as_slice()));
        j = j + 1;
    }
    keep
}

/// Compiles regular expressions with `regex::bytes::RegexSetBuilder::build`, Unicode support
/// turned off.
///
/// Claimed: the build succeeds exactly when the patterns compile as a set, a property of their
/// text alone (fixed options and default size limits). Which patterns compile is regex's
/// syntax and is left unsaid.
#[verifier::external_body]
fn compile_regex_set(patterns: &Vec<String>) -> (r: Result<regex::bytes::RegexSet, regex::Error>)
    ensures
        r is Ok <==> regex_set_compiles(patterns_view(patterns@)),
{
    regex::bytes::RegexSetBuilder::new(patterns).unicode(false).build()
}

/// Regular expressions compiled from their patterns, for matching names.
pub struct RegexMatcher {
    /// The compiled set.
    set: regex::bytes::RegexSet,
    /// The patterns the set was compiled from, in order.
    patterns: Vec<String>,
}

impl View for RegexMatcher {
    type V = Seq<Seq<char>>;

    closed spec fn view(&self) -> Seq<Seq<char>> {
        patterns_view(self.patterns@)
    }
}

/// Matches bytes against a matcher's set with `regex::bytes::RegexSet::is_match`.
///
/// Claimed, as regex documents it: true exactly when one of the regular expressions of the set
/// matches the text. The set is the one compiled from the matcher's patterns (its fields are
/// private and only [`RegexMatcher::compile`] fills them).
#[verifier::external_body]
fn regex_set_matches(m: &RegexMatcher, text: &[u8]) -> (r: bool)
    ensures
        r == (exists|i: int| 0 <= i < m@.len() && regex_match(#[trigger] m@[i], text@)),
{
    m.set.is_match(text)
}

impl RegexMatcher {
    /// Compiles the patterns, without Unicode support.
    pub fn compile(patterns: &Vec<String>) -> (r: Result<RegexMatcher, regex::Error>)
        ensures
            r is Ok <==> regex_set_compiles(patterns_view(patterns@)),
            r matches Ok(m) ==> m@ == patterns_view(patterns@),
    {
        let set = match compile_regex_set(patterns) {
            Ok(s) => s,
            Err(e) => return Err(e),
        };
        let mut copy: Vec<String> = Vec::new();
        let mut j: usize = 0;
        while j < patterns.len()
            invariant
                0 <= j <= patterns@.len(),
                copy@.len() == j,
                forall|k: int| 0 <= k < j ==> (#[trigger] copy@[k])@ == patterns@[k]@,
            decreases patterns@.len() - j,
        {
            copy.push(patterns[j].clone());
            j = j + 1;
        }
        let m = RegexMatcher { set, patterns: copy };
        assert(m@ =~= patterns_view(patterns@));
        Ok(m)
    }
}

/// Selects the files whose names match some regular expression: one flag per entry.
pub fn select_regex(entries: &Vec<FileEntry>, m: &RegexMatcher) -> (r: Vec<bool>)
    ensures
        r@.len() == entries@.len(),
        forall|j: int|
            0 <= j < r@.len() ==> #[trigger] r@[j] == any_regex_matches(
                m@,
                entry_names(entries@)[j],
            ),
{
    let mut keep: Vec<bool> = Vec::new();
    let mut j: usize = 0;
    while j < entries.len()
        invariant
            0 <= j <= entries@.len(),
            keep@.len() == j,
            forall|k: int|
                0 <= k < j ==> #[trigger] keep@[k] == any_regex_matches(
                    m@,
                    entry_names(entries@)[k],
                ),
        decreases entries@.len() - j,
    {
        let name = entries[j].name();
        assert(entry_names(entries@)[j as int] == name@);
        keep.push(regex_set_matches(m, name.as_bytes()));
        j = j + 1;
    }
    keep
}

} // verus!
