//! The first V1 reader: the files of a V1 MEGA file grouped by their names, which are compared as
//! paths with `/` separators.

use crate::encoding::{read_u16_le, read_u32_le, spec_u16_le, spec_u32_le};
use crate::path::{lemma_lex_lt_irreflexive, lemma_lex_lt_total, lemma_lex_lt_transitive, lex_lt};
use vstd::prelude::*;

verus! {

/// A component of a path with `/` separators.
pub enum PathPart {
    /// The leading `/` of an absolute path.
    RootDir,
    /// A leading `.`.
    CurDir,
    /// `..`.
    ParentDir,
    /// Any other non-empty text between separators.
    Normal(Seq<u8>),
}

/// The first `/` at or after `i`, or the end.
pub open spec fn next_slash(s: Seq<u8>, i: int) -> int
    decreases s.len() - i,
{
    if i >= s.len() || s[i] == 47 {
        i
    } else {
        next_slash(s, i + 1)
    }
}

/// The first `/` from `i` on lies between `i` and the end.
pub proof fn lemma_next_slash(s: Seq<u8>, i: int)
    requires
        0 <= i <= s.len(),
    ensures
        i <= next_slash(s, i) <= s.len(),
        forall|j: int| i <= j < next_slash(s, i) ==> s[j] != 47,
        next_slash(s, i) < s.len() ==> s[next_slash(s, i)] == 47,
    decreases s.len() - i,
{
    if i < s.len() && s[i] != 47 {
        lemma_next_slash(s, i + 1);
    }
}

/// Whether a piece between separators is `.`.
pub open spec fn is_dot(p: Seq<u8>) -> bool {
    p.len() == 1 && p[0] == 46
}

/// Whether a piece between separators is `..`.
pub open spec fn is_dot_dot(p: Seq<u8>) -> bool {
    p.len() == 2 && p[0] == 46 && p[1] == 46
}

/// The components of the pieces from `i` on: empty pieces and `.` are dropped.
pub open spec fn parts_from(s: Seq<u8>, i: int) -> Seq<PathPart>
    decreases s.len() + 1 - i,
{
    if i < 0 || i > s.len() {
        Seq::empty()
    } else {
        let e = next_slash(s, i);
        proof {
            lemma_next_slash(s, i);
        }
        let piece = s.subrange(i, e);
        let rest = if e < s.len() {
            parts_from(s, e + 1)
        } else {
            Seq::empty()
        };
        if piece.len() == 0 || is_dot(piece) {
            rest
        } else if is_dot_dot(piece) {
            seq![PathPart::ParentDir] + rest
        } else {
            seq![PathPart::Normal(piece)] + rest
        }
    }
}

/// The components of a path with `/` separators: repeated and trailing separators and `.` are
/// ignored, except that a leading `/` is the root and a leading `.` is kept.
pub open spec fn unix_components(s: Seq<u8>) -> Seq<PathPart> {
    if s.len() == 0 {
        Seq::empty()
    } else if s[0] == 47 {
        seq![PathPart::RootDir] + parts_from(s, 1)
    } else if is_dot(s.subrange(0, next_slash(s, 0))) {
        seq![PathPart::CurDir] + parts_from(s, next_slash(s, 0) + 1)
    } else {
        parts_from(s, 0)
    }
}

/// The rank of a component's kind: root, then `.`, then `..`, then the others.
pub open spec fn part_rank(p: PathPart) -> int {
    match p {
        PathPart::RootDir => 0,
        PathPart::CurDir => 1,
        PathPart::ParentDir => 2,
        PathPart::Normal(_) => 3,
    }
}

/// The order of components: by kind, and other components by their bytes.
pub open spec fn part_lt(a: PathPart, b: PathPart) -> bool {
    part_rank(a) < part_rank(b) || (a matches PathPart::Normal(x) && b matches PathPart::Normal(y)
        && lex_lt(x, y))
}

/// Strict lexicographic order on component sequences; a proper prefix comes first.
pub open spec fn parts_lt(a: Seq<PathPart>, b: Seq<PathPart>) -> bool
    decreases a.len(),
{
    if b.len() == 0 {
        false
    } else if a.len() == 0 {
        true
    } else if part_lt(a[0], b[0]) {
        true
    } else if a[0] != b[0] {
        false
    } else {
        parts_lt(a.drop_first(), b.drop_first())
    }
}

/// The order of names as paths with `/` separators.
pub open spec fn unix_path_lt(a: Seq<u8>, b: Seq<u8>) -> bool {
    parts_lt(unix_components(a), unix_components(b))
}

/// Equality of names as paths with `/` separators.
pub open spec fn unix_path_eq(a: Seq<u8>, b: Seq<u8>) -> bool {
    unix_components(a) == unix_components(b)
}

proof fn lemma_part_lt_facts(a: PathPart, b: PathPart, c: PathPart)
    ensures
        !part_lt(a, a),
        part_lt(a, b) && part_lt(b, c) ==> part_lt(a, c),
        a == b || part_lt(a, b) || part_lt(b, a),
        part_lt(a, b) ==> !part_lt(b, a),
{
    if let PathPart::Normal(x) = a {
        lemma_lex_lt_irreflexive(x);
        if let PathPart::Normal(y) = b {
            if x != y {
                lemma_lex_lt_total(x, y);
            }
            if lex_lt(x, y) && lex_lt(y, x) {
                lemma_lex_lt_transitive(x, y, x);
                lemma_lex_lt_irreflexive(x);
            }
            if let PathPart::Normal(z) = c {
                if lex_lt(x, y) && lex_lt(y, z) {
                    lemma_lex_lt_transitive(x, y, z);
                }
            }
        }
    }
}

/// `parts_lt` is a strict total order.
pub proof fn lemma_parts_lt_order(a: Seq<PathPart>, b: Seq<PathPart>, c: Seq<PathPart>)
    ensures
        !parts_lt(a, a),
        parts_lt(a, b) && parts_lt(b, c) ==> parts_lt(a, c),
        a == b || parts_lt(a, b) || parts_lt(b, a),
    decreases a.len(),
{
    if a.len() > 0 && b.len() > 0 {
        if c.len() > 0 {
            lemma_part_lt_facts(a[0], b[0], c[0]);
        } else {
            lemma_part_lt_facts(a[0], b[0], a[0]);
        }
        lemma_part_lt_facts(b[0], a[0], a[0]);
        if c.len() > 0 {
            lemma_parts_lt_order(a.drop_first(), b.drop_first(), c.drop_first());
        } else {
            lemma_parts_lt_order(a.drop_first(), b.drop_first(), a.drop_first());
        }
        if a.drop_first() == b.drop_first() && a[0] == b[0] {
            assert forall|i: int| 0 <= i < a.len() implies a[i] == b[i] by {
                if i > 0 {
                    assert(a[i] == a.drop_first()[i - 1]);
                    assert(b[i] == b.drop_first()[i - 1]);
                }
            }
            assert(a =~= b);
        }
    } else if a.len() > 0 {
        lemma_part_lt_facts(a[0], a[0], a[0]);
        lemma_parts_lt_order(a.drop_first(), a.drop_first(), a.drop_first());
    } else if b.len() == 0 {
        assert(a =~= b);
    }
}

/// Strict lexicographic order on bytes.
fn bytes_lt(a: &[u8], b: &[u8]) -> (r: bool)
    ensures
        r == lex_lt(a@, b@),
{
    let mut i: usize = 0;
    assert(a@.skip(0) =~= a@);
    assert(b@.skip(0) =~= b@);
    while i < a.len() && i < b.len()
        invariant
            0 <= i <= a@.len(),
            i <= b@.len(),
            lex_lt(a@, b@) == lex_lt(a@.skip(i as int), b@.skip(i as int)),
        decreases a@.len() - i,
    {
        let x = a[i];
        let y = b[i];
        assert(a@.skip(i as int)[0] == x);
        assert(b@.skip(i as int)[0] == y);
        if x < y {
            return true;
        }
        if x > y {
            return false;
        }
        assert(a@.skip(i as int).drop_first() =~= a@.skip(i + 1));
        assert(b@.skip(i as int).drop_first() =~= b@.skip(i + 1));
        i = i + 1;
    }
    if i < b.len() {
        assert(a@.skip(i as int).len() == 0);
        true
    } else {
        assert(b@.skip(i as int).len() == 0);
        false
    }
}

/// A component found in a name: its kind (0 root, 1 `.`, 2 `..`, 3 other) and, for the others,
/// where its bytes lie.
struct Part {
    kind: u8,
    lo: usize,
    hi: usize,
}

/// The component a found part stands for.
spec fn part_view(s: Seq<u8>, p: Part) -> PathPart {
    if p.kind == 0 {
        PathPart::RootDir
    } else if p.kind == 1 {
        PathPart::CurDir
    } else if p.kind == 2 {
        PathPart::ParentDir
    } else {
        PathPart::Normal(s.subrange(p.lo as int, p.hi as int))
    }
}

/// The components found parts stand for.
spec fn parts_view(s: Seq<u8>, v: Seq<Part>) -> Seq<PathPart> {
    v.map_values(|p: Part| part_view(s, p))
}

/// Found parts lie within the name.
spec fn parts_within(s: Seq<u8>, v: Seq<Part>) -> bool {
    forall|k: int| 0 <= k < v.len() ==> (#[trigger] v[k]).lo <= v[k].hi <= s.len()
}

/// The first `/` from `i` on, or the end.
fn slash_from(s: &[u8], i: usize) -> (r: usize)
    requires
        i <= s@.len(),
    ensures
        r == next_slash(s@, i as int),
        i <= r <= s@.len(),
{
    let mut j = i;
    while j < s.len() && s[j] != 47
        invariant
            i <= j <= s@.len(),
            next_slash(s@, i as int) == next_slash(s@, j as int),
        decreases s@.len() - j,
    {
        j = j + 1;
    }
    j
}

/// The components of a name; see [`unix_components`].
fn components_of(s: &[u8]) -> (r: Vec<Part>)
    ensures
        parts_view(s@, r@) == unix_components(s@),
        parts_within(s@, r@),
{
    let n = s.len();
    let mut out: Vec<Part> = Vec::new();
    if n == 0 {
        assert(parts_view(s@, out@) =~= Seq::<PathPart>::empty());
        return out;
    }
    let mut i: usize;
    if s[0] == 47 {
        out.push(Part { kind: 0, lo: 0, hi: 0 });
        i = 1;
    } else {
        let e = slash_from(s, 0);
        if e == 1 && s[0] == 46 {
            out.push(Part { kind: 1, lo: 0, hi: 0 });
            i = e + 1;
        } else {
            i = 0;
        }
    }
    assert(unix_components(s@) =~= parts_view(s@, out@) + parts_from(s@, i as int));
    let mut more = i <= n;
    while more
        invariant
            n == s@.len(),
            0 <= i <= n + 1,
            more ==> i <= n,
            unix_components(s@) == parts_view(s@, out@) + if more {
                parts_from(s@, i as int)
            } else {
                Seq::<PathPart>::empty()
            },
            parts_within(s@, out@),
        decreases n + 1 - i + (if more { 1int } else { 0int }),
    {
        let e = slash_from(s, i);
        let len = e - i;
        let ghost before = out@;
        let ghost piece = s@.subrange(i as int, e as int);
        if len == 0 || (len == 1 && s[i] == 46) {
        } else if len == 2 && s[i] == 46 && s[i + 1] == 46 {
            out.push(Part { kind: 2, lo: i, hi: e });
        } else {
            out.push(Part { kind: 3, lo: i, hi: e });
        }
        proof {
            assert(piece.len() == len);
            if len > 0 {
                assert(piece[0] == s@[i as int]);
            }
            if len == 2 {
                assert(piece[1] == s@[i + 1]);
            }
            let rest = if e < n {
                parts_from(s@, e + 1)
            } else {
                Seq::<PathPart>::empty()
            };
            assert(parts_from(s@, i as int) == if piece.len() == 0 || is_dot(piece) {
                rest
            } else if is_dot_dot(piece) {
                seq![PathPart::ParentDir] + rest
            } else {
                seq![PathPart::Normal(piece)] + rest
            });
            if len == 0 || (len == 1 && s@[i as int] == 46) {
                assert(out@ == before);
            } else {
                assert(parts_view(s@, out@) =~= parts_view(s@, before).push(part_view(s@, out@.last())));
            }
            assert(parts_view(s@, out@) + rest =~= parts_view(s@, before) + parts_from(s@, i as int));
        }
        if e < n {
            i = e + 1;
        } else {
            more = false;
        }
    }
    assert(parts_view(s@, out@) + Seq::<PathPart>::empty() =~= parts_view(s@, out@));
    out
}

/// The order of two found parts.
fn part_less(a: &[u8], p: &Part, b: &[u8], q: &Part) -> (r: bool)
    requires
        p.lo <= p.hi <= a@.len(),
        q.lo <= q.hi <= b@.len(),
    ensures
        r == part_lt(part_view(a@, *p), part_view(b@, *q)),
{
    let rp: u8 = if p.kind < 3 { p.kind } else { 3 };
    let rq: u8 = if q.kind < 3 { q.kind } else { 3 };
    if rp != rq {
        return rp < rq;
    }
    if rp < 3 {
        return false;
    }
    bytes_lt(
        vstd::slice::slice_subrange(a, p.lo, p.hi),
        vstd::slice::slice_subrange(b, q.lo, q.hi),
    )
}

/// Whether two found parts stand for the same component.
#[verifier::loop_isolation(false)]
fn part_same(a: &[u8], p: &Part, b: &[u8], q: &Part) -> (r: bool)
    requires
        p.lo <= p.hi <= a@.len(),
        q.lo <= q.hi <= b@.len(),
    ensures
        r == (part_view(a@, *p) == part_view(b@, *q)),
{
    let rp: u8 = if p.kind < 3 { p.kind } else { 3 };
    let rq: u8 = if q.kind < 3 { q.kind } else { 3 };
    if rp != rq {
        return false;
    }
    if rp < 3 {
        return true;
    }
    let x = vstd::slice::slice_subrange(a, p.lo, p.hi);
    let y = vstd::slice::slice_subrange(b, q.lo, q.hi);
    if x.len() != y.len() {
        assert(x@ != y@);
        return false;
    }
    let mut i: usize = 0;
    while i < x.len()
        invariant
            x@.len() == y@.len(),
            0 <= i <= x@.len(),
            forall|j: int| 0 <= j < i ==> x@[j] == y@[j],
        decreases x@.len() - i,
    {
        if x[i] != y[i] {
            assert(x@ != y@);
            return false;
        }
        i = i + 1;
    }
    assert(x@ =~= y@);
    true
}

/// Compares two names as paths with `/` separators: -1 when `a` comes first, 0 when they are the
/// same path, 1 when `b` comes first.
#[verifier::loop_isolation(false)]
pub fn compare_unix_paths(a: &[u8], b: &[u8]) -> (r: i8)
    ensures
        r == -1 <==> unix_path_lt(a@, b@),
        r == 0 <==> unix_path_eq(a@, b@),
        r == 1 <==> unix_path_lt(b@, a@),
        r == -1 || r == 0 || r == 1,
{
    let pa = components_of(a);
    let pb = components_of(b);
    let ghost ca = unix_components(a@);
    let ghost cb = unix_components(b@);
    proof {
        lemma_parts_lt_order(ca, cb, ca);
        lemma_parts_lt_order(cb, ca, cb);
    }
    let mut i: usize = 0;
    assert(ca.skip(0) =~= ca);
    assert(cb.skip(0) =~= cb);
    while i < pa.len() && i < pb.len()
        invariant
            ca == parts_view(a@, pa@),
            cb == parts_view(b@, pb@),
            parts_within(a@, pa@),
            parts_within(b@, pb@),
            0 <= i <= pa@.len(),
            i <= pb@.len(),
            parts_lt(ca, cb) == parts_lt(ca.skip(i as int), cb.skip(i as int)),
            parts_lt(cb, ca) == parts_lt(cb.skip(i as int), ca.skip(i as int)),
            (ca == cb) == (ca.skip(i as int) == cb.skip(i as int)),
        decreases pa@.len() - i,
    {
        let x = &pa[i];
        let y = &pb[i];
        assert(ca.skip(i as int)[0] == part_view(a@, *x));
        assert(cb.skip(i as int)[0] == part_view(b@, *y));
        proof {
            lemma_part_lt_facts(part_view(a@, *x), part_view(b@, *y), part_view(a@, *x));
        }
        if part_less(a, x, b, y) {
            assert(ca.skip(i as int) != cb.skip(i as int));
            assert(parts_lt(ca.skip(i as int), cb.skip(i as int)));
            assert(!parts_lt(cb.skip(i as int), ca.skip(i as int)));
            return -1;
        }
        if !part_same(a, x, b, y) {
            assert(ca.skip(i as int) != cb.skip(i as int));
            assert(!parts_lt(ca.skip(i as int), cb.skip(i as int)));
            assert(parts_lt(cb.skip(i as int), ca.skip(i as int)));
            return 1;
        }
        proof {
            let sa = ca.skip(i as int);
            let sb = cb.skip(i as int);
            assert(sa.drop_first() =~= ca.skip(i + 1));
            assert(sb.drop_first() =~= cb.skip(i + 1));
            if sa.drop_first() == sb.drop_first() {
                assert(sa =~= sb) by {
                    assert forall|k: int| 0 <= k < sa.len() implies sa[k] == sb[k] by {
                        if k > 0 {
                            assert(sa[k] == sa.drop_first()[k - 1]);
                            assert(sb[k] == sb.drop_first()[k - 1]);
                        }
                    }
                }
            }
        }
        i = i + 1;
    }
    if i < pb.len() {
        assert(ca.skip(i as int).len() == 0);
        assert(ca.skip(i as int) != cb.skip(i as int));
        -1
    } else if i < pa.len() {
        assert(cb.skip(i as int).len() == 0);
        assert(ca.skip(i as int) != cb.skip(i as int));
        1
    } else {
        assert(ca.skip(i as int) =~= cb.skip(i as int));
        0
    }
}

/// Where a file's contents lie in the MEGA file, as plain values.
pub struct FileSpan {
    pub size: u32,
    pub start: u32,
}

/// Where a file's contents lie in the MEGA file.
#[derive(Clone, Copy, Debug, PartialEq, Eq, Structural)]
pub struct File {
    /// Size of the file.
    size: u32,
    /// Offset of the start of the file.
    start: u32,
}

impl View for File {
    type V = FileSpan;

    closed spec fn view(&self) -> FileSpan {
        FileSpan { size: self.size, start: self.start }
    }
}

impl File {
    /// Gets the size of this file.
    pub fn size(&self) -> (r: u32)
        ensures
            r == self@.size,
    {
        self.size
    }
}

/// The plain values of a list of files.
pub open spec fn spans(v: Seq<File>) -> Seq<FileSpan> {
    v.map_values(|f: File| f@)
}

/// Errors from reading a V1 MEGA file with [`MegaFileReader`].
#[derive(Debug, Clone, Copy, PartialEq, Eq, Structural)]
pub enum MegaFileError {
    /// The data ended before a field that had to be read.
    UnexpectedEof,
    /// A file name is not ASCII.
    NonAsciiName { name_index: usize },
    /// A file record referenced a name index past the names table.
    NameIndexOutOfBounds { file_index: usize, name_index: usize, num_names: usize },
}

/// Reads the names with indexes `i..n` from `pos` on, after the names `acc`: each a `u16` length
/// and that many ASCII bytes.
pub open spec fn spec_v1_names(b: Seq<u8>, pos: int, i: int, n: int, acc: Seq<Seq<u8>>) -> Result<
    (Seq<Seq<u8>>, int),
    MegaFileError,
>
    decreases n - i,
{
    if i >= n {
        Ok((acc, pos))
    } else if pos + 2 > b.len() || pos + 2 + spec_u16_le(b, pos) > b.len() {
        Err(MegaFileError::UnexpectedEof)
    } else {
        let raw = b.subrange(pos + 2, pos + 2 + spec_u16_le(b, pos));
        if exists|j: int| 0 <= j < raw.len() && raw[j] >= 128 {
            Err(MegaFileError::NonAsciiName { name_index: i as usize })
        } else {
            spec_v1_names(b, pos + 2 + spec_u16_le(b, pos), i + 1, n, acc.push(raw))
        }
    }
}

/// Reads the file records with indexes `i..n` from `pos` on, adding each file to the list of the
/// name it references; a name index past the `m` names is an error.
pub open spec fn spec_v1_records(
    b: Seq<u8>,
    pos: int,
    i: int,
    n: int,
    lists: Seq<Seq<FileSpan>>,
) -> Result<Seq<Seq<FileSpan>>, MegaFileError>
    decreases n - i,
{
    if i >= n {
        Ok(lists)
    } else if pos + 20 > b.len() {
        Err(MegaFileError::UnexpectedEof)
    } else {
        let size = spec_u32_le(b, pos + 8);
        let start = spec_u32_le(b, pos + 12);
        let name = spec_u32_le(b, pos + 16);
        if name >= lists.len() {
            Err(
                MegaFileError::NameIndexOutOfBounds {
                    file_index: i as usize,
                    name_index: name as usize,
                    num_names: lists.len() as usize,
                },
            )
        } else {
            spec_v1_records(
                b,
                pos + 20,
                i + 1,
                n,
                lists.update(name as int, lists[name as int].push(FileSpan { size, start })),
            )
        }
    }
}

/// The names of a V1 MEGA file and, for each name, the files that reference it in record order.
pub open spec fn spec_v1_tables(b: Seq<u8>) -> Result<
    (Seq<Seq<u8>>, Seq<Seq<FileSpan>>),
    MegaFileError,
> {
    if b.len() < 8 {
        Err(MegaFileError::UnexpectedEof)
    } else {
        match spec_v1_names(b, 8, 0, spec_u32_le(b, 0) as int, Seq::empty()) {
            Err(e) => Err(e),
            Ok((names, pos)) => match spec_v1_records(
                b,
                pos,
                0,
                spec_u32_le(b, 4) as int,
                Seq::new(names.len(), |k: int| Seq::<FileSpan>::empty()),
            ) {
                Err(e) => Err(e),
                Ok(lists) => Ok((names, lists)),
            },
        }
    }
}

/// The map from paths to names and their files, built by inserting the first `k` names in order;
/// a later name with the same path replaces an earlier one.
pub open spec fn path_map(names: Seq<Seq<u8>>, lists: Seq<Seq<FileSpan>>, k: int) -> Map<
    Seq<PathPart>,
    (Seq<u8>, Seq<FileSpan>),
>
    decreases k,
{
    if k <= 0 {
        Map::empty()
    } else {
        path_map(names, lists, k - 1).insert(
            unix_components(names[k - 1]),
            (names[k - 1], lists[k - 1]),
        )
    }
}

/// The entries of a map from paths, listed in path order.
pub open spec fn lists_map(
    entries: Seq<(Seq<u8>, Seq<FileSpan>)>,
    m: Map<Seq<PathPart>, (Seq<u8>, Seq<FileSpan>)>,
) -> bool {
    &&& forall|i: int, j: int|
        0 <= i < j < entries.len() ==> unix_path_lt(#[trigger] entries[i].0, #[trigger] entries[j].0)
    &&& forall|i: int|
        0 <= i < entries.len() ==> m.contains_key(unix_components(#[trigger] entries[i].0))
            && m[unix_components(entries[i].0)] == entries[i]
    &&& forall|key: Seq<PathPart>|
        #[trigger] m.contains_key(key) ==> exists|i: int|
            0 <= i < entries.len() && unix_components(#[trigger] entries[i].0) == key
}

/// A name and the files that reference it.
struct Entry {
    name: Vec<u8>,
    files: Vec<File>,
}

/// The plain values of a list of entries.
spec fn entries_view(v: Seq<Entry>) -> Seq<(Seq<u8>, Seq<FileSpan>)> {
    v.map_values(|e: Entry| (e.name@, spans(e.files@)))
}

/// Adds a name and its files to entries listed in path order, replacing the entry of the same
/// path if there is one.
fn insert_entry(
    entries: &mut Vec<Entry>,
    name: Vec<u8>,
    files: Vec<File>,
    Ghost(m): Ghost<Map<Seq<PathPart>, (Seq<u8>, Seq<FileSpan>)>>,
)
    requires
        lists_map(entries_view(old(entries)@), m),
    ensures
        lists_map(
            entries_view(final(entries)@),
            m.insert(unix_components(name@), (name@, spans(files@))),
        ),
{
    let ghost old_v = entries_view(entries@);
    let ghost key = unix_components(name@);
    let ghost val = (name@, spans(files@));
    let ghost m2 = m.insert(key, val);
    let n = entries.len();
    let mut p: usize = 0;
    while p < n && compare_unix_paths(entries[p].name.as_slice(), name.as_slice()) == -1
        invariant
            n == entries@.len(),
            old_v == entries_view(entries@),
            0 <= p <= n,
            forall|q: int| 0 <= q < p ==> unix_path_lt(#[trigger] old_v[q].0, name@),
        decreases n - p,
    {
        assert(old_v[p as int].0 == entries@[p as int].name@);
        p = p + 1;
    }
    let same = p < n && compare_unix_paths(entries[p].name.as_slice(), name.as_slice()) == 0;
    let ghost pp = p as int;
    let entry = Entry { name, files };
    if same {
        entries.set(p, entry);
        proof {
            let nv = entries_view(entries@);
            assert(nv =~= old_v.update(pp, val));
            assert(unix_components(old_v[pp].0) == key);
            assert forall|i: int| 0 <= i < nv.len() && i != pp implies unix_components(
                #[trigger] nv[i].0,
            ) != key by {
                lemma_parts_lt_order(unix_components(old_v[i].0), key, key);
                lemma_parts_lt_order(key, unix_components(old_v[i].0), key);
                if i < pp {
                    assert(unix_path_lt(old_v[i].0, old_v[pp].0));
                } else {
                    assert(unix_path_lt(old_v[pp].0, old_v[i].0));
                }
            }
            assert forall|i: int, j: int| 0 <= i < j < nv.len() implies unix_path_lt(
                #[trigger] nv[i].0,
                #[trigger] nv[j].0,
            ) by {
                assert(unix_path_lt(old_v[i].0, old_v[j].0));
            }
            assert forall|k: Seq<PathPart>| #[trigger] m2.contains_key(k) implies exists|i: int|
                0 <= i < nv.len() && unix_components(#[trigger] nv[i].0) == k by {
                if k == key {
                    assert(unix_components(nv[pp].0) == k);
                } else {
                    let i = choose|i: int| 0 <= i < old_v.len() && unix_components(#[trigger] old_v[i].0) == k;
                    assert(unix_components(nv[i].0) == k);
                }
            }
        }
    } else {
        entries.insert(p, entry);
        proof {
            let nv = entries_view(entries@);
            assert(nv =~= old_v.insert(pp, val));
            if pp < old_v.len() {
                let c = unix_components(old_v[pp].0);
                lemma_parts_lt_order(c, key, c);
                assert(unix_path_lt(name@, old_v[pp].0));
            }
            assert forall|i: int| 0 <= i < old_v.len() implies unix_components(#[trigger] old_v[i].0)
                != key by {
                let c = unix_components(old_v[i].0);
                lemma_parts_lt_order(c, key, c);
                if i >= pp && pp < old_v.len() {
                    if i > pp {
                        assert(unix_path_lt(old_v[pp].0, old_v[i].0));
                        lemma_parts_lt_order(key, unix_components(old_v[pp].0), c);
                    }
                    lemma_parts_lt_order(key, key, key);
                }
            }
            assert(!m.contains_key(key)) by {
                if m.contains_key(key) {
                    let i = choose|i: int| 0 <= i < old_v.len() && unix_components(#[trigger] old_v[i].0) == key;
                    assert(unix_components(old_v[i].0) != key);
                }
            }
            assert forall|i: int, j: int| 0 <= i < j < nv.len() implies unix_path_lt(
                #[trigger] nv[i].0,
                #[trigger] nv[j].0,
            ) by {
                if j < pp {
                    assert(unix_path_lt(old_v[i].0, old_v[j].0));
                } else if j == pp {
                    assert(unix_path_lt(old_v[i].0, name@));
                } else if i < pp {
                    assert(nv[j] == old_v[j - 1]);
                    assert(unix_path_lt(old_v[i].0, name@));
                    if j - 1 > pp {
                        assert(unix_path_lt(old_v[pp].0, old_v[j - 1].0));
                        lemma_parts_lt_order(key, unix_components(old_v[pp].0), unix_components(old_v[j - 1].0));
                    }
                    lemma_parts_lt_order(unix_components(old_v[i].0), key, unix_components(old_v[j - 1].0));
                } else if i == pp {
                    assert(nv[j] == old_v[j - 1]);
                    if j - 1 > pp {
                        assert(unix_path_lt(old_v[pp].0, old_v[j - 1].0));
                        lemma_parts_lt_order(key, unix_components(old_v[pp].0), unix_components(old_v[j - 1].0));
                    }
                } else {
                    assert(nv[i] == old_v[i - 1]);
                    assert(nv[j] == old_v[j - 1]);
                    assert(unix_path_lt(old_v[i - 1].0, old_v[j - 1].0));
                }
            }
            assert forall|i: int| 0 <= i < nv.len() implies m2.contains_key(
                unix_components(#[trigger] nv[i].0),
            ) && m2[unix_components(nv[i].0)] == nv[i] by {
                if i < pp {
                    assert(nv[i] == old_v[i]);
                    assert(m.contains_key(unix_components(old_v[i].0)));
                } else if i > pp {
                    assert(nv[i] == old_v[i - 1]);
                    assert(m.contains_key(unix_components(old_v[i - 1].0)));
                }
            }
            assert forall|k: Seq<PathPart>| #[trigger] m2.contains_key(k) implies exists|i: int|
                0 <= i < nv.len() && unix_components(#[trigger] nv[i].0) == k by {
                if k == key {
                    assert(unix_components(nv[pp].0) == k);
                } else {
                    let i = choose|i: int| 0 <= i < old_v.len() && unix_components(#[trigger] old_v[i].0) == k;
                    if i < pp {
                        assert(unix_components(nv[i].0) == k);
                    } else {
                        assert(unix_components(nv[i + 1].0) == k);
                    }
                }
            }
        }
    }
}

/// Reads the names table; see [`spec_v1_names`].
#[verifier::loop_isolation(false)]
fn read_v1_names(b: &[u8], n: u32) -> (r: Result<(Vec<Vec<u8>>, usize), MegaFileError>)
    requires
        8 <= b@.len(),
    ensures
        match r {
            Ok((names, pos)) => spec_v1_names(b@, 8, 0, n as int, Seq::empty()) == Ok::<
                (Seq<Seq<u8>>, int),
                MegaFileError,
            >((names@.map_values(|v: Vec<u8>| v@), pos as int)) && pos <= b@.len(),
            Err(e) => spec_v1_names(b@, 8, 0, n as int, Seq::empty()) == Err::<
                (Seq<Seq<u8>>, int),
                MegaFileError,
            >(e),
        },
{
    let len = b.len();
    let mut names: Vec<Vec<u8>> = Vec::new();
    let mut pos: usize = 8;
    let mut i: u32 = 0;
    assert(names@.map_values(|v: Vec<u8>| v@) =~= Seq::<Seq<u8>>::empty());
    while i < n
        invariant
            len == b@.len(),
            pos <= len,
            0 <= i <= n,
            spec_v1_names(b@, 8, 0, n as int, Seq::empty()) == spec_v1_names(
                b@,
                pos as int,
                i as int,
                n as int,
                names@.map_values(|v: Vec<u8>| v@),
            ),
        decreases n - i,
    {
        if len - pos < 2 {
            return Err(MegaFileError::UnexpectedEof);
        }
        let name_len = read_u16_le(b, pos) as usize;
        if len - pos - 2 < name_len {
            return Err(MegaFileError::UnexpectedEof);
        }
        let raw = vstd::slice::slice_subrange(b, pos + 2, pos + 2 + name_len);
        let mut j: usize = 0;
        while j < raw.len()
            invariant
                0 <= j <= raw@.len(),
                forall|t: int| 0 <= t < j ==> raw@[t] < 128,
            decreases raw@.len() - j,
        {
            if raw[j] >= 128 {
                assert(raw@ == b@.subrange(pos + 2, pos + 2 + name_len));
                assert(raw@[j as int] >= 128);
                return Err(MegaFileError::NonAsciiName { name_index: i as usize });
            }
            j = j + 1;
        }
        let ghost before = names@;
        names.push(vstd::slice::slice_to_vec(raw));
        assert(names@.map_values(|v: Vec<u8>| v@) =~= before.map_values(|v: Vec<u8>| v@).push(
            raw@,
        ));
        pos = pos + 2 + name_len;
        i = i + 1;
    }
    Ok((names, pos))
}

/// Reads the file records; see [`spec_v1_records`].
#[verifier::loop_isolation(false)]
fn read_v1_records(b: &[u8], pos0: usize, n: u32, lists: Vec<Vec<File>>) -> (r: Result<
    Vec<Vec<File>>,
    MegaFileError,
>)
    requires
        pos0 <= b@.len(),
    ensures
        match r {
            Ok(ls) => spec_v1_records(
                b@,
                pos0 as int,
                0,
                n as int,
                lists@.map_values(|l: Vec<File>| spans(l@)),
            ) == Ok::<Seq<Seq<FileSpan>>, MegaFileError>(ls@.map_values(|l: Vec<File>| spans(l@))),
            Err(e) => spec_v1_records(
                b@,
                pos0 as int,
                0,
                n as int,
                lists@.map_values(|l: Vec<File>| spans(l@)),
            ) == Err::<Seq<Seq<FileSpan>>, MegaFileError>(e),
        },
{
    let len = b.len();
    let mut lists = lists;
    let ghost start = lists@.map_values(|l: Vec<File>| spans(l@));
    let mut pos = pos0;
    let mut i: u32 = 0;
    while i < n
        invariant
            len == b@.len(),
            pos <= len,
            0 <= i <= n,
            spec_v1_records(b@, pos0 as int, 0, n as int, start) == spec_v1_records(
                b@,
                pos as int,
                i as int,
                n as int,
                lists@.map_values(|l: Vec<File>| spans(l@)),
            ),
        decreases n - i,
    {
        if len - pos < 20 {
            return Err(MegaFileError::UnexpectedEof);
        }
        let size = read_u32_le(b, pos + 8);
        let start = read_u32_le(b, pos + 12);
        let name = read_u32_le(b, pos + 16) as usize;
        if name >= lists.len() {
            return Err(
                MegaFileError::NameIndexOutOfBounds {
                    file_index: i as usize,
                    name_index: name,
                    num_names: lists.len(),
                },
            );
        }
        let ghost before = lists@.map_values(|l: Vec<File>| spans(l@));
        let mut l = lists.remove(name);
        l.push(File { size, start });
        lists.insert(name, l);
        proof {
            let after = lists@.map_values(|l: Vec<File>| spans(l@));
            assert(after =~= before.update(
                name as int,
                before[name as int].push(FileSpan { size, start }),
            )) by {
                assert(spans(lists@[name as int]@) =~= before[name as int].push(
                    FileSpan { size, start },
                ));
            }
        }
        pos = pos + 20;
        i = i + 1;
    }
    Ok(lists)
}

/// Reads the files of a V1 MEGA file, grouped by their names, which are compared as paths with `/`
/// separators (as on Unix).
pub struct MegaFileReader<'s> {
    /// The names and their files, in path order; a later name with the same path replaced an
    /// earlier one.
    files: Vec<Entry>,
    /// The bytes of the MEGA file.
    source: &'s [u8],
}

impl<'s> MegaFileReader<'s> {
    /// The entries are listed in path order.
    #[verifier::type_invariant]
    spec fn inv(self) -> bool {
        forall|a: int, b: int|
            0 <= a < b < entries_view(self.files@).len() ==> unix_path_lt(
                #[trigger] entries_view(self.files@)[a].0,
                #[trigger] entries_view(self.files@)[b].0,
            )
    }

    /// The names and their files, in path order.
    pub closed spec fn entries(&self) -> Seq<(Seq<u8>, Seq<FileSpan>)> {
        entries_view(self.files@)
    }

    /// The file spans listed under the entry whose name is the same path as `path`; none when no
    /// entry is.
    pub open spec fn spec_files_of(&self, path: Seq<u8>) -> Seq<FileSpan> {
        if exists|i: int| 0 <= i < self.entries().len() && unix_path_eq(#[trigger] self.entries()[i].0, path) {
            self.entries()[choose|i: int|
                0 <= i < self.entries().len() && unix_path_eq(#[trigger] self.entries()[i].0, path)].1
        } else {
            Seq::empty()
        }
    }

    /// The entry found for a path is the one [`spec_files_of`](Self::spec_files_of) picks.
    proof fn lemma_files_of(&self, path: Seq<u8>, i: int)
        requires
            0 <= i < self.entries().len(),
            unix_path_eq(self.entries()[i].0, path),
            forall|a: int, b: int|
                0 <= a < b < self.entries().len() ==> unix_path_lt(
                    #[trigger] self.entries()[a].0,
                    #[trigger] self.entries()[b].0,
                ),
        ensures
            self.spec_files_of(path) == self.entries()[i].1,
    {
        let j = choose|j: int|
            0 <= j < self.entries().len() && unix_path_eq(#[trigger] self.entries()[j].0, path);
        if j != i {
            lemma_entries_distinct(self.entries(), i, j, path);
        }
    }

    /// The bytes of the MEGA file.
    pub closed spec fn source(&self) -> Seq<u8> {
        self.source@
    }

    /// Reads a V1 MEGA file: the header, the names (each ASCII) and the file records (each
    /// naming an existing name). The files of each name are kept in record order, and the names
    /// are listed by path, a later name replacing an earlier one of the same path.
    pub fn parse_v1(source: &'s [u8]) -> (r: Result<Self, MegaFileError>)
        ensures
            match r {
                Ok(reader) => reader.source() == source@ && (spec_v1_tables(source@) matches Ok(
                    (names, lists),
                ) && lists_map(reader.entries(), path_map(names, lists, names.len() as int))),
                Err(e) => spec_v1_tables(source@) == Err::<
                    (Seq<Seq<u8>>, Seq<Seq<FileSpan>>),
                    MegaFileError,
                >(e),
            },
    {
        if source.len() < 8 {
            return Err(MegaFileError::UnexpectedEof);
        }
        let num_filenames = read_u32_le(source, 0);
        let num_files = read_u32_le(source, 4);
        let (names, pos) = match read_v1_names(source, num_filenames) {
            Ok(x) => x,
            Err(e) => return Err(e),
        };
        let ghost names_v = names@.map_values(|v: Vec<u8>| v@);
        let mut lists: Vec<Vec<File>> = Vec::new();
        let mut k: usize = 0;
        while k < names.len()
            invariant
                0 <= k <= names@.len(),
                lists@.len() == k,
                forall|t: int| 0 <= t < k ==> (#[trigger] lists@[t])@.len() == 0,
            decreases names@.len() - k,
        {
            lists.push(Vec::new());
            k = k + 1;
        }
        assert(lists@.map_values(|l: Vec<File>| spans(l@)) =~= Seq::new(
            names_v.len(),
            |t: int| Seq::<FileSpan>::empty(),
        )) by {
            assert forall|t: int| 0 <= t < lists@.len() implies spans(#[trigger] lists@[t]@)
                =~= Seq::<FileSpan>::empty() by {}
        }
        let lists = match read_v1_records(source, pos, num_files, lists) {
            Ok(ls) => ls,
            Err(e) => return Err(e),
        };
        let ghost lists_v = lists@.map_values(|l: Vec<File>| spans(l@));
        proof {
            lemma_v1_records_len(source@, pos as int, 0, num_files as int, Seq::new(
                names_v.len(),
                |t: int| Seq::<FileSpan>::empty(),
            ));
        }
        let mut files: Vec<Entry> = Vec::new();
        let mut names = names;
        let mut lists = lists;
        let ghost total = names_v.len() as int;
        let mut k: usize = 0;
        assert(lists_map(entries_view(files@), path_map(names_v, lists_v, 0))) by {
            assert(path_map(names_v, lists_v, 0) =~= Map::empty());
        }
        while names.len() > 0
            invariant
                names@.len() == lists@.len(),
                k + names@.len() == total,
                total <= usize::MAX,
                total == names_v.len(),
                total == lists_v.len(),
                forall|t: int| 0 <= t < names@.len() ==> (#[trigger] names@[t])@ == names_v[k + t],
                forall|t: int| 0 <= t < lists@.len() ==> spans((#[trigger] lists@[t])@) == lists_v[k + t],
                lists_map(entries_view(files@), path_map(names_v, lists_v, k as int)),
            decreases names@.len(),
        {
            let name = names.remove(0);
            let list = lists.remove(0);
            insert_entry(&mut files, name, list, Ghost(path_map(names_v, lists_v, k as int)));
            k = k + 1;
        }
        Ok(MegaFileReader { files, source })
    }

    /// The names of the MEGA file, in path order.
    pub fn file_names(&self) -> (r: Vec<&[u8]>)
        ensures
            r@.len() == self.entries().len(),
            forall|i: int| 0 <= i < r@.len() ==> (#[trigger] r@[i])@ == self.entries()[i].0,
    {
        let mut out: Vec<&[u8]> = Vec::new();
        let mut i: usize = 0;
        while i < self.files.len()
            invariant
                0 <= i <= self.files@.len(),
                out@.len() == i,
                forall|t: int| 0 <= t < i ==> (#[trigger] out@[t])@ == self.entries()[t].0,
            decreases self.files@.len() - i,
        {
            out.push(self.files[i].name.as_slice());
            i = i + 1;
        }
        out
    }

    /// The names of the MEGA file with their files, in path order.
    pub fn files(&self) -> (r: Vec<(&[u8], &[File])>)
        ensures
            r@.len() == self.entries().len(),
            forall|i: int|
                0 <= i < r@.len() ==> (#[trigger] r@[i]).0@ == self.entries()[i].0 && spans(
                    r@[i].1@,
                ) == self.entries()[i].1,
    {
        let mut out: Vec<(&[u8], &[File])> = Vec::new();
        let mut i: usize = 0;
        while i < self.files.len()
            invariant
                0 <= i <= self.files@.len(),
                out@.len() == i,
                forall|t: int|
                    0 <= t < i ==> (#[trigger] out@[t]).0@ == self.entries()[t].0 && spans(
                        out@[t].1@,
                    ) == self.entries()[t].1,
            decreases self.files@.len() - i,
        {
            out.push((self.files[i].name.as_slice(), self.files[i].files.as_slice()));
            i = i + 1;
        }
        out
    }

    /// The index of the entry whose name is the same path as `path`, if any.
    fn find(&self, path: &[u8]) -> (r: Option<usize>)
        ensures
            match r {
                Some(i) => i < self.entries().len() && unix_path_eq(self.entries()[i as int].0, path@),
                None => forall|i: int|
                    0 <= i < self.entries().len() ==> !unix_path_eq(
                        #[trigger] self.entries()[i].0,
                        path@,
                    ),
            },
    {
        let mut i: usize = 0;
        while i < self.files.len()
            invariant
                0 <= i <= self.files@.len(),
                forall|t: int| 0 <= t < i ==> !unix_path_eq(#[trigger] self.entries()[t].0, path@),
            decreases self.files@.len() - i,
        {
            if compare_unix_paths(self.files[i].name.as_slice(), path) == 0 {
                return Some(i);
            }
            i = i + 1;
        }
        None
    }

    /// The files of the entry whose name is the same path as `path`; none if there is none.
    pub fn get_files(&self, path: &[u8]) -> (r: &[File])
        ensures
            spans(r@) == self.spec_files_of(path@),
            (exists|i: int|
                0 <= i < self.entries().len() && unix_path_eq(#[trigger] self.entries()[i].0, path@)
                    && spans(r@) == self.entries()[i].1) || (r@.len() == 0 && forall|i: int|
                0 <= i < self.entries().len() ==> !unix_path_eq(
                    #[trigger] self.entries()[i].0,
                    path@,
                )),
    {
        proof {
            use_type_invariant(self);
        }
        match self.find(path) {
            Some(i) => {
                proof {
                    self.lemma_files_of(path@, i as int);
                }
                self.files[i].files.as_slice()
            },
            None => {
                let empty: &[File] = &[];
                assert(spans(empty@) =~= Seq::<FileSpan>::empty());
                empty
            },
        }
    }

    /// A reader of the file number `entry_idx` of the entry whose name is the same path as
    /// `path`; `None` if there is no such file.
    pub fn get_reader(&self, path: &[u8], entry_idx: usize) -> (r: Option<FileReader<'s>>)
        ensures
            r is None <==> entry_idx >= self.spec_files_of(path@).len(),
            r matches Some(fr) ==> fr.span() == self.spec_files_of(path@)[entry_idx as int]
                && fr.source() == self.source(),
            match r {
                Some(fr) => exists|i: int|
                    0 <= i < self.entries().len() && unix_path_eq(#[trigger] self.entries()[i].0, path@)
                        && entry_idx < self.entries()[i].1.len() && fr.span() == self.entries()[i].1[entry_idx as int]
                        && fr.source() == self.source(),
                None => forall|i: int|
                    0 <= i < self.entries().len() && unix_path_eq(#[trigger] self.entries()[i].0, path@)
                        ==> entry_idx >= self.entries()[i].1.len(),
            },
    {
        proof {
            use_type_invariant(self);
        }
        match self.find(path) {
            Some(i) => {
                proof {
                    self.lemma_files_of(path@, i as int);
                }
                if entry_idx < self.files[i].files.len() {
                    let f = self.files[i].files[entry_idx];
                    assert(spans(self.files@[i as int].files@)[entry_idx as int] == f@);
                    Some(FileReader { source: self.source, seek_pos: f.start, remaining_bytes: f.size })
                } else {
                    proof {
                        assert forall|j: int|
                            0 <= j < self.entries().len() && unix_path_eq(#[trigger] self.entries()[j].0, path@)
                            implies entry_idx >= self.entries()[j].1.len() by {
                            if j != i {
                                lemma_entries_distinct(self.entries(), i as int, j, path@);
                            }
                        }
                    }
                    None
                }
            },
            None => None,
        }
    }
}

/// Reader of one file of a [`MegaFileReader`].
pub struct FileReader<'s> {
    /// The bytes of the MEGA file.
    source: &'s [u8],
    /// Where the file starts.
    seek_pos: u32,
    /// The size of the file.
    remaining_bytes: u32,
}

impl<'s> FileReader<'s> {
    /// Where the file lies.
    pub closed spec fn span(&self) -> FileSpan {
        FileSpan { size: self.remaining_bytes, start: self.seek_pos }
    }

    /// The bytes of the MEGA file.
    pub closed spec fn source(&self) -> Seq<u8> {
        self.source@
    }

    /// Reads the whole file: its `size` bytes from its start, or an error when the MEGA file ends
    /// before them.
    pub fn read_all(&self) -> (r: Result<Vec<u8>, MegaFileError>)
        ensures
            self.span().start + self.span().size <= self.source().len() ==> (r matches Ok(v)
                && v@ == self.source().subrange(
                self.span().start as int,
                self.span().start + self.span().size,
            )),
            self.span().start + self.span().size > self.source().len() ==> (r matches Err(e) && e
                == MegaFileError::UnexpectedEof),
    {
        let n = self.source.len();
        let s = self.seek_pos as usize;
        let size = self.remaining_bytes as usize;
        if s > n || size > n - s {
            return Err(MegaFileError::UnexpectedEof);
        }
        Ok(vstd::slice::slice_to_vec(vstd::slice::slice_subrange(self.source, s, s + size)))
    }
}

/// Entries listed in path order have distinct paths.
proof fn lemma_entries_distinct(
    entries: Seq<(Seq<u8>, Seq<FileSpan>)>,
    i: int,
    j: int,
    path: Seq<u8>,
)
    requires
        0 <= i < entries.len(),
        0 <= j < entries.len(),
        i != j,
        forall|a: int, b: int|
            0 <= a < b < entries.len() ==> unix_path_lt(#[trigger] entries[a].0, #[trigger] entries[b].0),
        unix_path_eq(entries[i].0, path),
    ensures
        !unix_path_eq(entries[j].0, path),
{
    let c = unix_components(path);
    lemma_parts_lt_order(c, c, c);
    if i < j {
        assert(unix_path_lt(entries[i].0, entries[j].0));
    } else {
        assert(unix_path_lt(entries[j].0, entries[i].0));
    }
}

/// Reading records keeps one list per name.
proof fn lemma_v1_records_len(b: Seq<u8>, pos: int, i: int, n: int, lists: Seq<Seq<FileSpan>>)
    ensures
        spec_v1_records(b, pos, i, n, lists) matches Ok(ls) ==> ls.len() == lists.len(),
    decreases n - i,
{
    if i < n && pos + 20 <= b.len() {
        let name = spec_u32_le(b, pos + 16);
        if name < lists.len() {
            lemma_v1_records_len(
                b,
                pos + 20,
                i + 1,
                n,
                lists.update(
                    name as int,
                    lists[name as int].push(
                        FileSpan { size: spec_u32_le(b, pos + 8), start: spec_u32_le(b, pos + 12) },
                    ),
                ),
            );
        }
    }
}

} // verus!
