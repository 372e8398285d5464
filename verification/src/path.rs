//! MEGA file paths: validation, components, case-insensitive comparison and normalization.

use vstd::prelude::*;
use vstd::string::StringSliceAdditionalSpecFns;

verus! {

/// Path length limit for Windows, which is also applied to MEGA paths in some contexts.
pub const WIN_PATH_LIMIT: usize = 260;

/// `/`
pub const SLASH: u8 = 47;

/// `\`
pub const BACKSLASH: u8 = 92;

/// True when `c` is one of the two accepted directory separators, `/` and `\`.
pub open spec fn spec_is_dir_separator(c: u8) -> bool {
    c == SLASH || c == BACKSLASH
}

/// True when `c` may appear inside a path component: 7-bit ASCII, not a control character, not a
/// separator and none of the characters that Windows refuses in file names.
pub open spec fn spec_is_valid_component(c: u8) -> bool {
    &&& c < 128
    &&& c > 31
    &&& !spec_is_dir_separator(c)
    &&& c != 60  // '<'
    &&& c != 62  // '>'
    &&& c != 58  // ':'
    &&& c != 34  // '"'
    &&& c != 124  // '|'
    &&& c != 63  // '?'
    &&& c != 42  // '*'
}

/// True when `c` may be the last character of a component: a valid component character other
/// than '.' and ' '.
pub open spec fn spec_is_valid_component_end(c: u8) -> bool {
    spec_is_valid_component(c) && c != 46 && c != 32
}

/// The MEGA path rules, stated over the whole byte sequence.
///
/// The empty path is valid. Otherwise every byte is a separator or a valid component character,
/// the path neither starts nor ends with a separator, and every component (the text before each
/// separator and the text after the last one) ends with a valid component end. That last rule also
/// forbids empty components, `.` and `..`.
pub open spec fn valid_path(s: Seq<u8>) -> bool {
    s.len() == 0 || {
        &&& forall|i: int|
            0 <= i < s.len() ==> spec_is_dir_separator(#[trigger] s[i]) || spec_is_valid_component(
                s[i],
            )
        &&& !spec_is_dir_separator(s[0])
        &&& forall|i: int|
            0 < i < s.len() && spec_is_dir_separator(#[trigger] s[i])
                ==> spec_is_valid_component_end(s[i - 1])
        &&& spec_is_valid_component_end(s[s.len() - 1])
    }
}

/// Error for invalid conversions from str and bytes to a MEGA path.
#[derive(Debug, Clone, Copy, PartialEq, Eq, Structural)]
pub enum MegPathError {
    /// Path contained a non-ascii character.
    NotAscii,
    /// Path started with a leading slash.
    LeadingSlash,
    /// Path ended with a trailing slash.
    TrailingSlash,
    /// Path contained an empty path component, such as one made by a double slash.
    EmptyComponent,
    /// Path contained an ascii character which isn't permitted in a path component.
    InvalidCharacter,
    /// Path contained an invalid component, such as '.', '..' or any name ending in '.' or ' '.
    InvalidComponent,
}

/// The error, if any, that the byte at index `i` of `s` causes, given that all earlier bytes
/// passed.
pub open spec fn byte_error(s: Seq<u8>, i: int) -> Option<MegPathError> {
    let c = s[i];
    if !(c < 128) {
        Some(MegPathError::NotAscii)
    } else if spec_is_dir_separator(c) {
        if i == 0 {
            Some(MegPathError::LeadingSlash)
        } else if i == s.len() - 1 {
            Some(MegPathError::TrailingSlash)
        } else if spec_is_dir_separator(s[i - 1]) {
            Some(MegPathError::EmptyComponent)
        } else if !spec_is_valid_component_end(s[i - 1]) {
            Some(MegPathError::InvalidComponent)
        } else {
            None
        }
    } else if !spec_is_valid_component(c) {
        Some(MegPathError::InvalidCharacter)
    } else {
        None
    }
}

/// Result of validating `s` from byte `i` on: the error of the first offending byte, scanning from
/// the front; once every byte passed, a last component ending in '.' or ' ' is an
/// `InvalidComponent`.
pub open spec fn validate_from(s: Seq<u8>, i: int) -> Result<(), MegPathError>
    decreases s.len() - i,
{
    if i < 0 || i >= s.len() {
        if s.len() > 0 && !spec_is_valid_component_end(s[s.len() - 1]) {
            Err(MegPathError::InvalidComponent)
        } else {
            Ok(())
        }
    } else {
        match byte_error(s, i) {
            Some(e) => Err(e),
            None => validate_from(s, i + 1),
        }
    }
}

/// Result of validating a whole path.
pub open spec fn spec_validate_path(s: Seq<u8>) -> Result<(), MegPathError> {
    validate_from(s, 0)
}

/// Check if the given character is a directory separator.
pub fn is_dir_separator(c: u8) -> (r: bool)
    ensures
        r == spec_is_dir_separator(c),
{
    c == SLASH || c == BACKSLASH
}

/// Returns true if the character is valid inside a path component.
pub fn is_valid_component(c: u8) -> (r: bool)
    ensures
        r == spec_is_valid_component(c),
{
    c < 128 && c > 31 && !is_dir_separator(c) && c != 60 && c != 62 && c != 58 && c != 34 && c
        != 124 && c != 63 && c != 42
}

/// Returns true if the character is valid as the last character in a path component.
pub fn is_valid_component_end(c: u8) -> (r: bool)
    ensures
        r == spec_is_valid_component_end(c),
{
    is_valid_component(c) && c != 46 && c != 32
}

/// Checks that the given bytes satisfy the MEGA path rules, reporting the first violation.
pub fn validate_path(bytes: &[u8]) -> (r: Result<(), MegPathError>)
    ensures
        r == spec_validate_path(bytes@),
        r is Ok <==> valid_path(bytes@),
{
    let n = bytes.len();
    let mut idx: usize = 0;
    while idx < n
        invariant
            n == bytes@.len(),
            0 <= idx <= n,
            spec_validate_path(bytes@) == validate_from(bytes@, idx as int),
            forall|j: int| 0 <= j < idx ==> byte_error(bytes@, j) is None,
        decreases n - idx,
    {
        let byte = bytes[idx];
        if !(byte < 128) {
            return Err(MegPathError::NotAscii);
        }
        if is_dir_separator(byte) {
            if idx == 0 {
                return Err(MegPathError::LeadingSlash);
            }
            if idx == n - 1 {
                return Err(MegPathError::TrailingSlash);
            }
            if is_dir_separator(bytes[idx - 1]) {
                return Err(MegPathError::EmptyComponent);
            }
            if !is_valid_component_end(bytes[idx - 1]) {
                return Err(MegPathError::InvalidComponent);
            }
        } else if !is_valid_component(byte) {
            return Err(MegPathError::InvalidCharacter);
        }
        idx = idx + 1;
    }
    if n > 0 && !is_valid_component_end(bytes[n - 1]) {
        proof {
            lemma_no_byte_error_prefix(bytes@);
        }
        return Err(MegPathError::InvalidComponent);
    }
    proof {
        lemma_no_byte_error_prefix(bytes@);
    }
    Ok(())
}

/// The last-byte rule that validation checks after the byte scan.
pub open spec fn final_byte_ok(s: Seq<u8>) -> bool {
    s.len() == 0 || spec_is_valid_component_end(s[s.len() - 1])
}

proof fn lemma_validate_from_ok(s: Seq<u8>, i: int)
    requires
        0 <= i <= s.len(),
    ensures
        validate_from(s, i) is Ok <==> (forall|j: int| i <= j < s.len() ==> #[trigger] byte_error(
            s,
            j,
        ) is None) && final_byte_ok(s),
    decreases s.len() - i,
{
    if i < s.len() {
        lemma_validate_from_ok(s, i + 1);
        if byte_error(s, i) is None && (forall|j: int|
            i + 1 <= j < s.len() ==> #[trigger] byte_error(s, j) is None) {
            assert forall|j: int| i <= j < s.len() implies #[trigger] byte_error(s, j) is None by {
                if j > i {
                }
            }
        }
    }
}

/// Validation succeeds exactly on the paths that follow the rules.
pub proof fn lemma_validate_ok_iff_valid(s: Seq<u8>)
    ensures
        spec_validate_path(s) is Ok <==> valid_path(s),
{
    lemma_validate_from_ok(s, 0);
    if valid_path(s) {
        assert forall|j: int| 0 <= j < s.len() implies #[trigger] byte_error(s, j) is None by {
            assert(spec_is_dir_separator(s[j]) || spec_is_valid_component(s[j]));
            if spec_is_dir_separator(s[j]) && j > 0 {
                assert(spec_is_valid_component_end(s[j - 1]));
            }
        }
    }
    if spec_validate_path(s) is Ok {
        lemma_no_byte_error_prefix(s);
    }
}

/// When no byte causes an error, the byte-level rules of `valid_path` hold except possibly the
/// rule on the last byte.
proof fn lemma_no_byte_error_prefix(s: Seq<u8>)
    requires
        forall|j: int| 0 <= j < s.len() ==> byte_error(s, j) is None,
    ensures
        s.len() > 0 ==> {
            &&& forall|i: int|
                0 <= i < s.len() ==> spec_is_dir_separator(#[trigger] s[i])
                    || spec_is_valid_component(s[i])
            &&& !spec_is_dir_separator(s[0])
            &&& forall|i: int|
                0 < i < s.len() && spec_is_dir_separator(#[trigger] s[i])
                    ==> spec_is_valid_component_end(s[i - 1])
        },
{
    if s.len() > 0 {
        assert(byte_error(s, 0) is None);
        assert forall|i: int| 0 <= i < s.len() implies spec_is_dir_separator(#[trigger] s[i])
            || spec_is_valid_component(s[i]) by {
            assert(byte_error(s, i) is None);
        }
        assert forall|i: int| 0 < i < s.len() && spec_is_dir_separator(#[trigger] s[i]) implies
            spec_is_valid_component_end(s[i - 1]) by {
            assert(byte_error(s, i) is None);
        }
    }
}


/// The first index at or after `i` that holds a separator, or `s.len()` when there is none.
pub open spec fn find_separator(s: Seq<u8>, i: int) -> int
    decreases s.len() - i,
{
    if i < 0 || i >= s.len() {
        s.len() as int
    } else if spec_is_dir_separator(s[i]) {
        i
    } else {
        find_separator(s, i + 1)
    }
}

/// `find_separator` lands in range, on a separator, after only non-separators.
pub proof fn lemma_find_separator(s: Seq<u8>, i: int)
    requires
        0 <= i <= s.len(),
    ensures
        i <= find_separator(s, i) <= s.len(),
        find_separator(s, i) < s.len() ==> spec_is_dir_separator(s[find_separator(s, i)]),
        forall|j: int| i <= j < find_separator(s, i) ==> !spec_is_dir_separator(#[trigger] s[j]),
    decreases s.len() - i,
{
    if i < s.len() && !spec_is_dir_separator(s[i]) {
        lemma_find_separator(s, i + 1);
    }
}

/// The first component of `s`: everything before the first separator.
pub open spec fn first_component(s: Seq<u8>) -> Seq<u8> {
    s.subrange(0, find_separator(s, 0))
}

/// What follows the first component of `s` and its separator.
pub open spec fn after_first_component(s: Seq<u8>) -> Seq<u8> {
    let k = find_separator(s, 0);
    if k < s.len() {
        s.subrange(k + 1, s.len() as int)
    } else {
        Seq::empty()
    }
}

/// The components of a path: the texts between its separators, in order.
pub open spec fn components(s: Seq<u8>) -> Seq<Seq<u8>>
    decreases s.len(),
{
    if s.len() == 0 {
        Seq::empty()
    } else {
        proof {
            lemma_find_separator(s, 0);
        }
        seq![first_component(s)] + components(after_first_component(s))
    }
}

/// A valid component: non-empty, made of valid component characters, and ending with a valid
/// component end.
pub open spec fn valid_component(c: Seq<u8>) -> bool {
    &&& c.len() > 0
    &&& forall|i: int| 0 <= i < c.len() ==> spec_is_valid_component(#[trigger] c[i])
    &&& spec_is_valid_component_end(c[c.len() - 1])
}

/// Splitting a valid non-empty path yields a valid component and a valid remaining path.
pub proof fn lemma_split_valid(s: Seq<u8>)
    requires
        valid_path(s),
        s.len() > 0,
    ensures
        valid_component(first_component(s)),
        valid_path(after_first_component(s)),
        after_first_component(s).len() < s.len(),
{
    lemma_find_separator(s, 0);
    let k = find_separator(s, 0);
    let c = first_component(s);
    assert(k > 0);
    assert forall|i: int| 0 <= i < c.len() implies spec_is_valid_component(#[trigger] c[i]) by {
        assert(c[i] == s[i]);
        assert(!spec_is_dir_separator(s[i]));
    }
    if k < s.len() {
        assert(spec_is_dir_separator(s[k]));
        assert(spec_is_valid_component_end(s[k - 1]));
        let r = after_first_component(s);
        assert(k + 1 < s.len()) by {
            if k + 1 == s.len() {
                assert(spec_is_valid_component_end(s[s.len() - 1]));
            }
        }
        assert(r.len() > 0);
        assert forall|i: int| 0 <= i < r.len() implies spec_is_dir_separator(#[trigger] r[i])
            || spec_is_valid_component(r[i]) by {
            assert(r[i] == s[k + 1 + i]);
        }
        assert(!spec_is_dir_separator(r[0])) by {
            assert(r[0] == s[k + 1]);
            assert(spec_is_valid_component_end(s[k]) || !spec_is_dir_separator(s[k + 1]));
        }
        assert forall|i: int| 0 < i < r.len() && spec_is_dir_separator(#[trigger] r[i]) implies
            spec_is_valid_component_end(r[i - 1]) by {
            assert(r[i] == s[k + 1 + i]);
            assert(r[i - 1] == s[k + i]);
        }
        assert(r[r.len() - 1] == s[s.len() - 1]);
    } else {
        assert(c =~= s);
    }
}

/// ASCII upper-casing of one byte.
pub open spec fn spec_ascii_upper(c: u8) -> u8 {
    if 97 <= c <= 122 {
        (c - 32) as u8
    } else {
        c
    }
}

/// ASCII lower-casing of one byte.
pub open spec fn spec_ascii_lower(c: u8) -> u8 {
    if 65 <= c <= 90 {
        (c + 32) as u8
    } else {
        c
    }
}

/// The normalized form of a path, as stored in built MEGA files: ASCII upper case with every
/// separator written as `\`.
pub open spec fn normalize(s: Seq<u8>) -> Seq<u8> {
    Seq::new(
        s.len(),
        |i: int|
            if spec_is_dir_separator(s[i]) {
                BACKSLASH
            } else {
                spec_ascii_upper(s[i])
            },
    )
}

/// The comparison key of a path: ASCII lower case with every separator replaced by 0, a value
/// below every valid component character.
///
/// Comparing keys lexicographically compares paths component by component, case-insensitively,
/// treating `/` and `\` alike; equal keys mean equal paths.
pub open spec fn path_key(s: Seq<u8>) -> Seq<u8> {
    Seq::new(
        s.len(),
        |i: int|
            if spec_is_dir_separator(s[i]) {
                0u8
            } else {
                spec_ascii_lower(s[i])
            },
    )
}

/// Strict lexicographic order on byte sequences; a proper prefix comes first.
pub open spec fn lex_lt(a: Seq<u8>, b: Seq<u8>) -> bool
    decreases a.len(),
{
    if b.len() == 0 {
        false
    } else if a.len() == 0 {
        true
    } else if a[0] < b[0] {
        true
    } else if a[0] > b[0] {
        false
    } else {
        lex_lt(a.drop_first(), b.drop_first())
    }
}

/// Equality of MEGA paths: case-insensitive, with `/` and `\` alike.
pub open spec fn spec_path_eq(a: Seq<u8>, b: Seq<u8>) -> bool {
    path_key(a) == path_key(b)
}

/// Order of MEGA paths: by components, each compared case-insensitively.
pub open spec fn spec_path_lt(a: Seq<u8>, b: Seq<u8>) -> bool {
    lex_lt(path_key(a), path_key(b))
}

/// `lex_lt` is irreflexive.
pub proof fn lemma_lex_lt_irreflexive(a: Seq<u8>)
    ensures
        !lex_lt(a, a),
    decreases a.len(),
{
    if a.len() > 0 {
        lemma_lex_lt_irreflexive(a.drop_first());
    }
}

/// `lex_lt` is transitive.
pub proof fn lemma_lex_lt_transitive(a: Seq<u8>, b: Seq<u8>, c: Seq<u8>)
    requires
        lex_lt(a, b),
        lex_lt(b, c),
    ensures
        lex_lt(a, c),
    decreases a.len(),
{
    if a.len() > 0 && b.len() > 0 && c.len() > 0 && a[0] == b[0] && b[0] == c[0] {
        lemma_lex_lt_transitive(a.drop_first(), b.drop_first(), c.drop_first());
    }
}

/// `lex_lt` orders any two different sequences.
pub proof fn lemma_lex_lt_total(a: Seq<u8>, b: Seq<u8>)
    requires
        a != b,
    ensures
        lex_lt(a, b) || lex_lt(b, a),
    decreases a.len(),
{
    if a.len() == 0 && b.len() == 0 {
        assert(a =~= b);
    } else if a.len() > 0 && b.len() > 0 && a[0] == b[0] {
        if a.drop_first() == b.drop_first() {
            assert(a =~= seq![a[0]] + a.drop_first());
            assert(b =~= seq![b[0]] + b.drop_first());
        }
        lemma_lex_lt_total(a.drop_first(), b.drop_first());
    }
}

/// `lex_lt` is asymmetric.
pub proof fn lemma_lex_lt_asymmetric(a: Seq<u8>, b: Seq<u8>)
    requires
        lex_lt(a, b),
    ensures
        !lex_lt(b, a),
{
    if lex_lt(b, a) {
        lemma_lex_lt_transitive(a, b, a);
        lemma_lex_lt_irreflexive(a);
    }
}

/// A normalized path: no lower-case ASCII letter and no `/`.
pub open spec fn is_normalized(s: Seq<u8>) -> bool {
    forall|i: int| 0 <= i < s.len() ==> !(97 <= #[trigger] s[i] <= 122) && s[i] != SLASH
}

/// Normalizing yields a normalized path.
pub proof fn lemma_normalize_is_normalized(s: Seq<u8>)
    ensures
        is_normalized(normalize(s)),
{
}

/// Normalizing a normalized path changes nothing.
pub proof fn lemma_normalize_idempotent(s: Seq<u8>)
    requires
        valid_path(s),
        is_normalized(s),
    ensures
        normalize(s) == s,
{
    assert(normalize(s) =~= s);
}

/// The value of `spec_ascii_lower`.
pub proof fn lemma_ascii_lower_value(c: u8)
    ensures
        spec_ascii_lower(c) as int == if 65 <= c <= 90 {
            c + 32
        } else {
            c as int
        },
{
}

/// Two valid normalized paths with equal comparison keys are equal.
pub proof fn lemma_path_key_injective(a: Seq<u8>, b: Seq<u8>)
    requires
        valid_path(a),
        valid_path(b),
        is_normalized(a),
        is_normalized(b),
        path_key(a) == path_key(b),
    ensures
        a == b,
{
    assert(a.len() == path_key(a).len());
    assert(b.len() == path_key(b).len());
    assert forall|i: int| 0 <= i < a.len() implies a[i] == b[i] by {
        assert(path_key(a)[i] == path_key(b)[i]);
        assert(!(97 <= a[i] <= 122) && a[i] != SLASH);
        assert(!(97 <= b[i] <= 122) && b[i] != SLASH);
        lemma_ascii_lower_value(a[i]);
        lemma_ascii_lower_value(b[i]);
        let x = a[i];
        let y = b[i];
        assert(path_key(a)[i] == if spec_is_dir_separator(x) {
            0u8
        } else {
            spec_ascii_lower(x)
        });
        assert(path_key(b)[i] == if spec_is_dir_separator(y) {
            0u8
        } else {
            spec_ascii_lower(y)
        });
        if spec_is_dir_separator(x) {
            assert(x == BACKSLASH);
            if !spec_is_dir_separator(y) {
                assert(spec_is_valid_component(y));
                assert(false);
            }
        } else {
            assert(spec_is_valid_component(x));
        }
        assert(spec_is_dir_separator(a[i]) || spec_is_valid_component(a[i]));
        assert(spec_is_dir_separator(b[i]) || spec_is_valid_component(b[i]));
    }
    assert(a =~= b);
}

/// Paths with the same normalized form have the same comparison key.
pub proof fn lemma_normalize_path_eq(a: Seq<u8>)
    ensures
        path_key(normalize(a)) == path_key(a),
{
    assert(path_key(normalize(a)) =~= path_key(a));
}

/// Two valid paths are equal as MEGA paths (case-insensitively, with `/` and `\\` alike) exactly
/// when they have the same normalized form.
pub proof fn lemma_path_eq_iff_same_normal(a: Seq<u8>, b: Seq<u8>)
    requires
        valid_path(a),
        valid_path(b),
    ensures
        spec_path_eq(a, b) <==> normalize(a) == normalize(b),
{
    lemma_normalize_path_eq(a);
    lemma_normalize_path_eq(b);
    if spec_path_eq(a, b) {
        lemma_normalize_valid(a);
        lemma_normalize_valid(b);
        lemma_normalize_is_normalized(a);
        lemma_normalize_is_normalized(b);
        lemma_path_key_injective(normalize(a), normalize(b));
    }
}

/// Normalizing keeps a path valid.
pub proof fn lemma_normalize_valid(s: Seq<u8>)
    requires
        valid_path(s),
    ensures
        valid_path(normalize(s)),
        normalize(s).len() == s.len(),
{
    let n = normalize(s);
    if s.len() > 0 {
        assert forall|i: int| 0 <= i < n.len() implies spec_is_dir_separator(#[trigger] n[i])
            || spec_is_valid_component(n[i]) by {
            assert(spec_is_dir_separator(s[i]) || spec_is_valid_component(s[i]));
        }
        assert forall|i: int| 0 < i < n.len() && spec_is_dir_separator(#[trigger] n[i]) implies
            spec_is_valid_component_end(n[i - 1]) by {
            assert(spec_is_dir_separator(s[i]) || spec_is_valid_component(s[i]));
            assert(spec_is_dir_separator(s[i]));
            assert(spec_is_valid_component_end(s[i - 1]));
        }
        assert(spec_is_valid_component_end(s[s.len() - 1]));
        assert(spec_is_dir_separator(s[0]) || spec_is_valid_component(s[0]));
    }
}

/// ASCII upper-casing of one byte.
pub fn ascii_upper(c: u8) -> (r: u8)
    ensures
        r == spec_ascii_upper(c),
{
    if 97 <= c && c <= 122 {
        c - 32
    } else {
        c
    }
}

/// ASCII lower-casing of one byte.
pub fn ascii_lower(c: u8) -> (r: u8)
    ensures
        r == spec_ascii_lower(c),
{
    if 65 <= c && c <= 90 {
        c + 32
    } else {
        c
    }
}

/// The comparison key of one byte of a path.
fn key_byte(c: u8) -> (r: u8)
    ensures
        r == (if spec_is_dir_separator(c) {
            0u8
        } else {
            spec_ascii_lower(c)
        }),
{
    if is_dir_separator(c) {
        0
    } else {
        ascii_lower(c)
    }
}

/// Case-insensitive, separator-agnostic equality of two paths given as bytes.
pub fn path_bytes_eq(a: &[u8], b: &[u8]) -> (r: bool)
    ensures
        r == spec_path_eq(a@, b@),
{
    if a.len() != b.len() {
        assert(path_key(a@).len() != path_key(b@).len());
        return false;
    }
    let n = a.len();
    let mut i: usize = 0;
    while i < n
        invariant
            n == a@.len(),
            n == b@.len(),
            0 <= i <= n,
            forall|j: int| 0 <= j < i ==> path_key(a@)[j] == path_key(b@)[j],
        decreases n - i,
    {
        if key_byte(a[i]) != key_byte(b[i]) {
            assert(path_key(a@)[i as int] != path_key(b@)[i as int]);
            return false;
        }
        i = i + 1;
    }
    assert(path_key(a@) =~= path_key(b@));
    true
}

/// Case-insensitive, component-wise strict order of two paths given as bytes.
pub fn path_bytes_lt(a: &[u8], b: &[u8]) -> (r: bool)
    ensures
        r == spec_path_lt(a@, b@),
{
    let ghost ka = path_key(a@);
    let ghost kb = path_key(b@);
    let mut i: usize = 0;
    assert(ka.skip(0) =~= ka);
    assert(kb.skip(0) =~= kb);
    while i < a.len() && i < b.len()
        invariant
            ka == path_key(a@),
            kb == path_key(b@),
            0 <= i <= a@.len(),
            i <= b@.len(),
            lex_lt(ka, kb) == lex_lt(ka.skip(i as int), kb.skip(i as int)),
        decreases a@.len() - i,
    {
        let x = key_byte(a[i]);
        let y = key_byte(b[i]);
        assert(ka.skip(i as int)[0] == x);
        assert(kb.skip(i as int)[0] == y);
        if x < y {
            return true;
        }
        if x > y {
            return false;
        }
        assert(ka.skip(i as int).drop_first() =~= ka.skip(i + 1));
        assert(kb.skip(i as int).drop_first() =~= kb.skip(i + 1));
        i = i + 1;
    }
    if i < b.len() {
        assert(ka.skip(i as int).len() == 0);
        true
    } else {
        assert(kb.skip(i as int).len() == 0);
        false
    }
}


/// `k` is where the last component of `s` starts: at the front or just after a separator, with no
/// separator from there on.
pub open spec fn is_last_component_start(s: Seq<u8>, k: int) -> bool {
    &&& 0 <= k < s.len()
    &&& (k == 0 || spec_is_dir_separator(s[k - 1]))
    &&& forall|j: int| k <= j < s.len() ==> !spec_is_dir_separator(#[trigger] s[j])
}

/// A borrowed, validated MEGA file path.
///
/// The path rules are those of [`valid_path`]: ASCII-7 only, no characters that are invalid in
/// Windows file names, relative (no leading separator), no empty components, and no component
/// ending in '.' or ' ' (so neither `.` nor `..`). Equality and order are case-insensitive and
/// treat `/` and `\` alike, while the original bytes are kept.
#[derive(Clone, Copy)]
pub struct MegPath<'a> {
    bytes: &'a [u8],
}

impl<'a> MegPath<'a> {
    #[verifier::type_invariant]
    spec fn inv(self) -> bool {
        valid_path(self.bytes@)
    }
}

impl<'a> View for MegPath<'a> {
    type V = Seq<u8>;

    closed spec fn view(&self) -> Seq<u8> {
        self.bytes@
    }
}

/// The text of 7-bit ASCII bytes: one character per byte, of the byte's value.
pub open spec fn ascii_chars(s: Seq<u8>) -> Seq<char> {
    s.map_values(|b: u8| b as char)
}

/// Views bytes as text with `std::str::from_utf8`.
///
/// Claimed, as std documents it: 7-bit ASCII bytes are valid UTF-8, so the conversion succeeds
/// and the text has one character per byte, of the byte's value (the `Err` arm is never taken).
#[verifier::external_body]
fn ascii_text(bytes: &[u8]) -> (r: &str)
    requires
        forall|i: int| 0 <= i < bytes@.len() ==> #[trigger] bytes@[i] < 128,
    ensures
        r@ == ascii_chars(bytes@),
{
    match std::str::from_utf8(bytes) {
        Ok(text) => text,
        Err(_) => "",
    }
}

impl<'a> MegPath<'a> {
    /// The empty path.
    pub fn empty() -> (r: MegPath<'static>)
        ensures
            r@ == Seq::<u8>::empty(),
    {
        let bytes: &'static [u8] = &[];
        assert(bytes@ =~= Seq::<u8>::empty());
        MegPath { bytes }
    }

    /// The path as text (a valid path is 7-bit ASCII).
    pub fn as_str(&self) -> (r: &'a str)
        ensures
            r@ == ascii_chars(self@),
    {
        proof {
            use_type_invariant(self);
        }
        ascii_text(self.bytes)
    }

    /// Convert bytes to a MegPath, checking the path rules.
    pub fn from_bytes(bytes: &'a [u8]) -> (r: Result<MegPath<'a>, MegPathError>)
        ensures
            match r {
                Ok(p) => p@ == bytes@ && valid_path(bytes@),
                Err(e) => spec_validate_path(bytes@) == Err::<(), MegPathError>(e),
            },
            r is Ok <==> valid_path(bytes@),
    {
        match validate_path(bytes) {
            Ok(()) => Ok(MegPath { bytes }),
            Err(e) => Err(e),
        }
    }

    /// Convert a string to a MegPath, checking the path rules on its bytes.
    pub fn from_str(s: &'a str) -> (r: Result<MegPath<'a>, MegPathError>)
        ensures
            match r {
                Ok(p) => p@ == s.spec_bytes() && valid_path(s.spec_bytes()),
                Err(e) => spec_validate_path(s.spec_bytes()) == Err::<(), MegPathError>(e),
            },
            r is Ok <==> valid_path(s.spec_bytes()),
    {
        Self::from_bytes(s.as_bytes())
    }

    /// Length of the path in bytes.
    pub fn len(&self) -> (r: usize)
        ensures
            r == self@.len(),
    {
        self.bytes.len()
    }

    /// Returns true if this path is empty.
    pub fn is_empty(&self) -> (r: bool)
        ensures
            r == (self@.len() == 0),
    {
        self.bytes.len() == 0
    }

    /// Get the bytes of the path.
    pub fn as_bytes(&self) -> (r: &'a [u8])
        ensures
            r@ == self@,
            valid_path(r@),
    {
        proof {
            use_type_invariant(self);
        }
        self.bytes
    }

    /// Get the [`Components`] of this path, in order.
    pub fn components(&self) -> (r: Components<'a>)
        ensures
            r@ == self@,
    {
        proof {
            use_type_invariant(self);
        }
        Components { path: self.bytes }
    }

    /// Get the file name: the last component, or `None` for the empty path.
    pub fn file_name(&self) -> (r: Option<Component<'a>>)
        ensures
            self@.len() == 0 <==> r is None,
            match r {
                Some(c) => exists|k: int|
                    #[trigger] is_last_component_start(self@, k) && c@ == self@.subrange(
                        k,
                        self@.len() as int,
                    ),
                None => true,
            },
    {
        proof {
            use_type_invariant(self);
        }
        let n = self.bytes.len();
        if n == 0 {
            return None;
        }
        let mut k: usize = n;
        while k > 0 && !is_dir_separator(self.bytes[k - 1])
            invariant
                n == self.bytes@.len(),
                0 <= k <= n,
                forall|j: int| k <= j < n ==> !spec_is_dir_separator(#[trigger] self.bytes@[j]),
            decreases k,
        {
            k = k - 1;
        }
        let s = self.bytes;
        let name = vstd::slice::slice_subrange(s, k, n);
        proof {
            let v = s@;
            assert(k < n) by {
                if k == n {
                    assert(spec_is_dir_separator(v[n - 1]));
                    assert(spec_is_valid_component_end(v[n - 1]));
                }
            }
            assert forall|i: int| 0 <= i < name@.len() implies spec_is_valid_component(
                #[trigger] name@[i],
            ) by {
                assert(name@[i] == v[k + i]);
                assert(spec_is_dir_separator(v[k + i]) || spec_is_valid_component(v[k + i]));
            }
            assert(name@[name@.len() - 1] == v[n - 1]);
            let kk = k as int;
            assert(name@ == v.subrange(kk, n as int));
            assert(is_last_component_start(v, kk));
        }
        let r = Component { bytes: name };
        assert(is_last_component_start(self@, k as int) && r@ == self@.subrange(
            k as int,
            self@.len() as int,
        ));
        Some(r)
    }

    /// Make an owned copy of this path.
    pub fn to_owned(&self) -> (r: MegPathBuf)
        ensures
            r@ == self@,
    {
        proof {
            use_type_invariant(self);
        }
        MegPathBuf { bytes: vstd::slice::slice_to_vec(self.bytes) }
    }

    /// Case-insensitive equality with `/` and `\` treated alike.
    pub fn path_eq(&self, other: &MegPath) -> (r: bool)
        ensures
            r == spec_path_eq(self@, other@),
    {
        path_bytes_eq(self.bytes, other.bytes)
    }

    /// Component-wise, case-insensitive strict order.
    pub fn path_lt(&self, other: &MegPath) -> (r: bool)
        ensures
            r == spec_path_lt(self@, other@),
    {
        path_bytes_lt(self.bytes, other.bytes)
    }
}

/// The remaining components of a [`MegPath`].
pub struct Components<'a> {
    path: &'a [u8],
}

impl<'a> Components<'a> {
    #[verifier::type_invariant]
    spec fn inv(self) -> bool {
        valid_path(self.path@)
    }
}

impl<'a> View for Components<'a> {
    type V = Seq<u8>;

    /// The part of the path whose components are still to come.
    closed spec fn view(&self) -> Seq<u8> {
        self.path@
    }
}

impl<'a> Components<'a> {
    /// Returns the next component, or `None` when none is left.
    pub fn next(&mut self) -> (r: Option<Component<'a>>)
        ensures
            old(self)@.len() == 0 ==> r is None && final(self)@ == old(self)@,
            old(self)@.len() > 0 ==> {
                &&& r matches Some(c)
                &&& c@ == first_component(old(self)@)
                &&& final(self)@ == after_first_component(old(self)@)
            },
            components(old(self)@) == match r {
                Some(c) => seq![c@] + components(final(self)@),
                None => Seq::<Seq<u8>>::empty(),
            },
    {
        proof {
            use_type_invariant(&*self);
        }
        let p = self.path;
        let n = p.len();
        if n == 0 {
            return None;
        }
        proof {
            lemma_find_separator(p@, 0);
            lemma_split_valid(p@);
        }
        let mut k: usize = 0;
        while k < n && !is_dir_separator(p[k])
            invariant
                n == p@.len(),
                0 <= k <= n,
                k <= find_separator(p@, 0),
                find_separator(p@, k as int) == find_separator(p@, 0),
            decreases n - k,
        {
            proof {
                lemma_find_separator(p@, k + 1);
            }
            k = k + 1;
        }
        let head = vstd::slice::slice_subrange(p, 0, k);
        if k < n {
            let rest = vstd::slice::slice_subrange(p, k + 1, n);
            self.path = rest;
        } else {
            let rest = vstd::slice::slice_subrange(p, n, n);
            assert(rest@ =~= Seq::<u8>::empty());
            self.path = rest;
        }
        Some(Component { bytes: head })
    }

    /// All remaining components, in order.
    pub fn collect(self) -> (r: Vec<Component<'a>>)
        ensures
            r@.len() == components(self@).len(),
            forall|i: int| 0 <= i < r@.len() ==> #[trigger] r@[i]@ == components(self@)[i],
    {
        let mut it = self;
        let mut out: Vec<Component<'a>> = Vec::new();
        let ghost all = components(self@);
        while it.path.len() > 0
            invariant
                all == components(self@),
                all == out@.map_values(|c: Component<'a>| c@) + components(it@),
            decreases it@.len(),
        {
            proof {
                use_type_invariant(&it);
                lemma_split_valid(it@);
            }
            let ghost before = it@;
            let c = it.next();
            match c {
                Some(c) => {
                    let ghost old_out = out@;
                    out.push(c);
                    assert(out@.map_values(|c: Component<'a>| c@) =~= old_out.map_values(
                        |c: Component<'a>| c@,
                    ).push(c@));
                },
                None => {},
            }
        }
        assert(components(it@) =~= Seq::<Seq<u8>>::empty());
        assert(all =~= out@.map_values(|c: Component<'a>| c@));
        out
    }
}

/// One component of a MEGA path: non-empty, 7-bit ASCII, without separators or characters that
/// are invalid in Windows file names, and not ending in '.' or ' '.
pub struct Component<'a> {
    bytes: &'a [u8],
}

impl<'a> Component<'a> {
    #[verifier::type_invariant]
    spec fn inv(self) -> bool {
        valid_component(self.bytes@)
    }
}

impl<'a> View for Component<'a> {
    type V = Seq<u8>;

    closed spec fn view(&self) -> Seq<u8> {
        self.bytes@
    }
}

impl<'a> Component<'a> {
    /// Length of the component in bytes.
    pub fn len(&self) -> (r: usize)
        ensures
            r == self@.len(),
            r > 0,
    {
        proof {
            use_type_invariant(self);
        }
        self.bytes.len()
    }

    /// The component as text (a component is 7-bit ASCII).
    pub fn as_str(&self) -> (r: &'a str)
        ensures
            r@ == ascii_chars(self@),
    {
        proof {
            use_type_invariant(self);
        }
        ascii_text(self.bytes)
    }

    /// Get the bytes of the component.
    pub fn as_bytes(&self) -> (r: &'a [u8])
        ensures
            r@ == self@,
            valid_component(r@),
    {
        proof {
            use_type_invariant(self);
        }
        self.bytes
    }

    /// Case-insensitive equality of two components.
    pub fn eq_ignore_case(&self, other: &Component) -> (r: bool)
        ensures
            r == (path_key(self@) == path_key(other@)),
    {
        path_bytes_eq(self.bytes, other.bytes)
    }

    /// Case-insensitive strict order of two components.
    pub fn lt_ignore_case(&self, other: &Component) -> (r: bool)
        ensures
            r == lex_lt(path_key(self@), path_key(other@)),
    {
        path_bytes_lt(self.bytes, other.bytes)
    }
}

/// Owned container for a MEGA path, with the same validation requirements as [`MegPath`].
pub struct MegPathBuf {
    bytes: Vec<u8>,
}

impl MegPathBuf {
    #[verifier::type_invariant]
    spec fn inv(self) -> bool {
        valid_path(self.bytes@)
    }
}

impl View for MegPathBuf {
    type V = Seq<u8>;

    closed spec fn view(&self) -> Seq<u8> {
        self.bytes@
    }
}

impl Clone for MegPathBuf {
    fn clone(&self) -> (r: Self)
        ensures
            r@ == self@,
    {
        proof {
            use_type_invariant(self);
        }
        MegPathBuf { bytes: vstd::slice::slice_to_vec(self.bytes.as_slice()) }
    }
}

impl MegPathBuf {
    /// Creates a new empty path.
    pub fn new() -> (r: Self)
        ensures
            r@ == Seq::<u8>::empty(),
    {
        MegPathBuf { bytes: Vec::new() }
    }

    /// Convert a vector of bytes to a MEGA path, checking the path rules.
    pub fn from_vec(bytes: Vec<u8>) -> (r: Result<Self, MegPathError>)
        ensures
            match r {
                Ok(p) => p@ == bytes@ && valid_path(bytes@),
                Err(e) => spec_validate_path(bytes@) == Err::<(), MegPathError>(e),
            },
            r is Ok <==> valid_path(bytes@),
    {
        match validate_path(bytes.as_slice()) {
            Ok(()) => Ok(MegPathBuf { bytes }),
            Err(e) => Err(e),
        }
    }

    /// Convert a string into a MEGA path, checking the path rules on its bytes.
    pub fn from_string(string: String) -> (r: Result<Self, MegPathError>)
        ensures
            match r {
                Ok(p) => p@ == vstd::utf8::encode_utf8(string@) && valid_path(p@),
                Err(e) => spec_validate_path(vstd::utf8::encode_utf8(string@)) == Err::<
                    (),
                    MegPathError,
                >(e),
            },
    {
        let bytes = vstd::slice::slice_to_vec(string.as_str().as_bytes());
        Self::from_vec(bytes)
    }

    /// Borrow as a [`MegPath`].
    pub fn as_path(&self) -> (r: MegPath<'_>)
        ensures
            r@ == self@,
            valid_path(self@),
    {
        proof {
            use_type_invariant(self);
        }
        MegPath { bytes: self.bytes.as_slice() }
    }

    /// Get the bytes of the path.
    pub fn as_bytes(&self) -> (r: &[u8])
        ensures
            r@ == self@,
            valid_path(self@),
    {
        proof {
            use_type_invariant(self);
        }
        self.bytes.as_slice()
    }

    /// Length of the path in bytes.
    pub fn len(&self) -> (r: usize)
        ensures
            r == self@.len(),
    {
        self.bytes.len()
    }

    /// Returns true if this path is empty.
    pub fn is_empty(&self) -> (r: bool)
        ensures
            r == (self@.len() == 0),
    {
        self.bytes.len() == 0
    }

    /// Normalize in place: ASCII upper case and `\` for every separator.
    pub fn make_normalized(&mut self)
        ensures
            final(self)@ == normalize(old(self)@),
    {
        proof {
            use_type_invariant(&*self);
            lemma_normalize_valid(self@);
        }
        let n = self.bytes.len();
        let mut out: Vec<u8> = Vec::with_capacity(n);
        let mut i: usize = 0;
        while i < n
            invariant
                n == self.bytes@.len(),
                0 <= i <= n,
                out@ =~= normalize(self.bytes@).subrange(0, i as int),
            decreases n - i,
        {
            let c = self.bytes[i];
            if is_dir_separator(c) {
                out.push(BACKSLASH);
            } else {
                out.push(ascii_upper(c));
            }
            i = i + 1;
        }
        assert(out@ =~= normalize(self.bytes@));
        self.bytes = out;
    }

    /// Case-insensitive equality with `/` and `\` treated alike.
    pub fn path_eq(&self, other: &MegPath) -> (r: bool)
        ensures
            r == spec_path_eq(self@, other@),
    {
        path_bytes_eq(self.bytes.as_slice(), other.bytes)
    }
}

} // verus!
