//! Reading back what the writer builds.

use crate::checksum::crc32;
use crate::crypto::cipher_roundtrips;
use crate::writer::{lemma_offsets_lengths, spec_adjust_len, spec_offset_step, spec_record_body_v3, spec_file_record_size, spec_header_size};
use crate::crypto::{
    aes128_cbc_decrypt, pad_to_block, spec_encrypt_section, spec_round_down_to_block,
    spec_round_up_to_block,
};
use crate::encoding::{
    lemma_u16_roundtrip, lemma_u32_roundtrip, spec_u16_le, spec_u32_le, u16_le_bytes, u32_le_bytes,
};
use crate::path::{is_normalized, lemma_validate_ok_iff_valid, spec_validate_path, valid_path};
use crate::reader::{
    spec_extract, spec_names_section, spec_read_files_from, spec_read_header, spec_read_meg_meta,
    spec_read_name, spec_read_names_from, spec_read_record, FileEntryView, MegHeader,
    ReadOptionsView, ID2, ID_ENCRYPTED, ID_PLAIN,
};
use crate::parser::{
    spec_names_from, spec_parse_results, spec_record_to_file, FileView, MegParseError, NameView,
    ParseOptionsView,
};
use crate::version::MegVersion;
use crate::writer::{
    keys_ok, spec_build, spec_data_bytes, spec_encode, spec_file_bytes, spec_header_bytes,
    spec_layout, spec_name_records, spec_name_records_len_from, spec_names_bytes, spec_offsets,
    spec_prelude, spec_record_bytes, spec_records_bytes, BuildMegError, LayoutView,
};
use vstd::prelude::*;

verus! {

/// The name records of a prefix of the names extend to those of a longer prefix.
proof fn lemma_name_records_step(names: Seq<Seq<u8>>, k: int)
    requires
        0 <= k < names.len(),
    ensures
        spec_name_records(names.subrange(0, k + 1)) == spec_name_records(names.subrange(0, k))
            + u16_le_bytes(names[k].len() as u16) + names[k],
{
    let p = names.subrange(0, k + 1);
    assert(p.drop_last() =~= names.subrange(0, k));
}

/// The name records of a prefix of the names are a prefix of all name records.
proof fn lemma_name_records_prefix(names: Seq<Seq<u8>>, k: int)
    requires
        0 <= k <= names.len(),
    ensures
        spec_name_records(names.subrange(0, k)).len() <= spec_name_records(names).len(),
        spec_name_records(names) == spec_name_records(names.subrange(0, k)) + spec_name_records(
            names,
        ).subrange(spec_name_records(names.subrange(0, k)).len() as int, spec_name_records(names).len() as int),
    decreases names.len() - k,
{
    let all = spec_name_records(names);
    if k == names.len() {
        assert(names.subrange(0, k) =~= names);
        assert(all =~= all + all.subrange(all.len() as int, all.len() as int));
    } else {
        lemma_name_records_prefix(names, k + 1);
        lemma_name_records_step(names, k);
        let a = spec_name_records(names.subrange(0, k));
        let b = spec_name_records(names.subrange(0, k + 1));
        assert(all =~= a + all.subrange(a.len() as int, all.len() as int));
    }
}

/// The total the writer computes for the name records is their length, and every name fits the
/// limit.
proof fn lemma_name_records_len(names: Seq<Seq<u8>>, i: int, limit: u16)
    requires
        0 <= i <= names.len(),
        spec_name_records(names.subrange(0, i)).len() <= u32::MAX,
        spec_name_records_len_from(
            names,
            i,
            spec_name_records(names.subrange(0, i)).len() as int,
            limit,
        ) is Ok,
    ensures
        spec_name_records_len_from(
            names,
            i,
            spec_name_records(names.subrange(0, i)).len() as int,
            limit,
        ) == Ok::<u32, BuildMegError>(spec_name_records(names).len() as u32),
        spec_name_records(names).len() <= u32::MAX,
        forall|j: int| i <= j < names.len() ==> (#[trigger] names[j]).len() <= limit,
    decreases names.len() - i,
{
    if i == names.len() {
        assert(names.subrange(0, i) =~= names);
    } else {
        lemma_name_records_step(names, i);
        lemma_name_records_len(names, i + 1, limit);
    }
}


/// A window of a sequence that contains `r` at `base` holds the matching window of `r`.
proof fn lemma_window(buf: Seq<u8>, base: int, r: Seq<u8>, lo: int, hi: int)
    requires
        0 <= base,
        base + r.len() <= buf.len(),
        buf.subrange(base, base + r.len()) == r,
        0 <= lo <= hi <= r.len(),
    ensures
        buf.subrange(base + lo, base + hi) == r.subrange(lo, hi),
{
    assert forall|t: int| 0 <= t < hi - lo implies buf.subrange(base + lo, base + hi)[t] == r.subrange(
        lo,
        hi,
    )[t] by {
        assert(buf.subrange(base, base + r.len())[lo + t] == r[lo + t]);
    }
    assert(buf.subrange(base + lo, base + hi) =~= r.subrange(lo, hi));
}

/// Name records laid out at `base` read back as the names, from any record boundary on.
proof fn lemma_read_names(buf: Seq<u8>, base: int, names: Seq<Seq<u8>>, k: int, opts: ReadOptionsView)
    requires
        0 <= k <= names.len(),
        names.len() <= u32::MAX,
        forall|j: int|
            0 <= j < names.len() ==> valid_path(#[trigger] names[j]) && names[j].len() <= 0xFFFF
                && (opts.validate_name_length ==> names[j].len() <= 260),
        0 <= base,
        base + spec_name_records(names).len() <= buf.len(),
        buf.subrange(base, base + spec_name_records(names).len()) == spec_name_records(names),
    ensures
        spec_read_names_from(
            buf,
            base + spec_name_records(names.subrange(0, k)).len(),
            k,
            names.len() as int,
            names.subrange(0, k),
            opts,
        ) == Ok::<(Seq<Seq<u8>>, int), crate::reader::MegReadError>(
            (names, base + spec_name_records(names).len()),
        ),
    decreases names.len() - k,
{
    let r = spec_name_records(names);
    if k == names.len() {
        assert(names.subrange(0, k) =~= names);
    } else {
        lemma_name_records_prefix(names, k + 1);
        lemma_name_records_step(names, k);
        let a = spec_name_records(names.subrange(0, k));
        let x = spec_name_records(names.subrange(0, k + 1));
        let al: int = a.len() as int;
        let len: int = names[k].len() as int;
        let pos = base + al;
        assert(x.len() == al + 2 + len);
        assert(r.subrange(al, al + 2) =~= u16_le_bytes(len as u16)) by {
            assert forall|t: int| 0 <= t < 2 implies r[al + t] == #[trigger] u16_le_bytes(len as u16)[t] by {
                assert(r[al + t] == x[al + t]);
            }
        }
        assert(r.subrange(al + 2, al + 2 + len) =~= names[k]) by {
            assert forall|t: int| 0 <= t < len implies r[al + 2 + t] == #[trigger] names[k][t] by {
                assert(r[al + 2 + t] == x[al + 2 + t]);
            }
        }
        lemma_window(buf, base, r, al, al + 2);
        lemma_window(buf, base, r, al + 2, al + 2 + len);
        lemma_u16_roundtrip(len as u16, buf, pos);
        assert(spec_u16_le(buf, pos) == len);
        lemma_validate_ok_iff_valid(names[k]);
        assert(spec_read_name(buf, pos, k as u32, opts) == Ok::<
            (Seq<u8>, int),
            crate::reader::MegReadError,
        >((names[k], pos + 2 + len)));
        assert(names.subrange(0, k).push(names[k]) =~= names.subrange(0, k + 1));
        lemma_read_names(buf, base, names, k + 1, opts);
    }
}


/// A `u32` stored at `off` of a section laid out at `pos` reads back.
proof fn lemma_read_u32_in(buf: Seq<u8>, pos: int, r: Seq<u8>, off: int, x: u32)
    requires
        0 <= pos,
        pos + r.len() <= buf.len(),
        buf.subrange(pos, pos + r.len()) == r,
        0 <= off,
        off + 4 <= r.len(),
        r.subrange(off, off + 4) == u32_le_bytes(x),
    ensures
        spec_u32_le(buf, pos + off) == x,
{
    lemma_window(buf, pos, r, off, off + 4);
    lemma_u32_roundtrip(x, buf, pos + off);
}

/// A `u16` stored at `off` of a section laid out at `pos` reads back.
proof fn lemma_read_u16_in(buf: Seq<u8>, pos: int, r: Seq<u8>, off: int, x: u16)
    requires
        0 <= pos,
        pos + r.len() <= buf.len(),
        buf.subrange(pos, pos + r.len()) == r,
        0 <= off,
        off + 2 <= r.len(),
        r.subrange(off, off + 2) == u16_le_bytes(x),
    ensures
        spec_u16_le(buf, pos + off) == x,
{
    lemma_window(buf, pos, r, off, off + 2);
    lemma_u16_roundtrip(x, buf, pos + off);
}

/// The fields of a V3 record body read back from it.
proof fn lemma_read_body_v3(buf: Seq<u8>, pos: int, crc: u32, index: u32, start: u32, size: u32)
    requires
        0 <= pos,
        pos + 18 <= buf.len(),
        buf.subrange(pos, pos + 18) == spec_record_body_v3(crc, index, start, size),
    ensures
        crate::reader::spec_parse_record_v3(buf, pos, true) == (crate::reader::FileRecord {
            encrypted: true,
            crc,
            index,
            size,
            start,
            name: index as u16 as u32,
        }),
        crate::reader::spec_parse_record_v3(buf, pos, false) == (crate::reader::FileRecord {
            encrypted: false,
            crc,
            index,
            size,
            start,
            name: index as u16 as u32,
        }),
{
    let b = spec_record_body_v3(crc, index, start, size);
    assert(b.len() == 18);
    assert(b.subrange(0, 4) =~= u32_le_bytes(crc));
    assert(b.subrange(4, 8) =~= u32_le_bytes(index));
    assert(b.subrange(8, 12) =~= u32_le_bytes(size));
    assert(b.subrange(12, 16) =~= u32_le_bytes(start));
    assert(b.subrange(16, 18) =~= u16_le_bytes(index as u16));
    lemma_read_u32_in(buf, pos, b, 0, crc);
    lemma_read_u32_in(buf, pos, b, 4, index);
    lemma_read_u32_in(buf, pos, b, 8, size);
    lemma_read_u32_in(buf, pos, b, 12, start);
    lemma_read_u16_in(buf, pos, b, 16, index as u16);
}


/// Padding an 18 byte record body gives 32 bytes that start with the body.
proof fn lemma_pad_body(b: Seq<u8>)
    requires
        b.len() == 18,
    ensures
        pad_to_block(b).len() == 32,
        pad_to_block(b).subrange(0, 18) == b,
{
    assert(pad_to_block(b).subrange(0, 18) =~= b);
}

/// A written file record reads back as the record it was written from.
#[verifier::spinoff_prover]
#[verifier::rlimit(50)]
proof fn lemma_read_record(
    h: MegHeader,
    buf: Seq<u8>,
    pos: int,
    key: Option<(Seq<u8>, Seq<u8>)>,
    crc: u32,
    i: u32,
    start: u32,
    size: u32,
    opts: ReadOptionsView,
)
    requires
        h.encrypted == key is Some,
        key is Some ==> h.version == MegVersion::V3 && opts.key == key,
        h.version == MegVersion::V3 ==> i <= 0xFFFF,
        h.version != MegVersion::V1 ==> start >= h.data_start,
        h.version == MegVersion::V3 && key is Some ==> cipher_roundtrips(
            key->Some_0,
            pad_to_block(spec_record_body_v3(crc, i, start, size)),
        ),
        0 <= pos,
        pos + spec_record_bytes(h.version, key, crc, i, start, size).len() <= buf.len(),
        buf.subrange(pos, pos + spec_record_bytes(h.version, key, crc, i, start, size).len())
            == spec_record_bytes(h.version, key, crc, i, start, size),
    ensures
        spec_record_bytes(h.version, key, crc, i, start, size).len() == spec_file_record_size(
            h.version,
            key is Some,
        ),
        spec_read_record(h, buf, pos, i, opts) == Ok::<
            (crate::reader::FileRecord, int),
            crate::reader::MegReadError,
        >(
            (
                crate::reader::FileRecord {
                    encrypted: key is Some,
                    crc,
                    index: i,
                    size,
                    start,
                    name: i,
                },
                pos + spec_file_record_size(h.version, key is Some),
            ),
        ),
{
    match h.version {
        MegVersion::V3 => match key {
            Some(k) => lemma_read_record_v3_enc(h, buf, pos, k, crc, i, start, size, opts),
            None => lemma_read_record_v3_plain(h, buf, pos, crc, i, start, size, opts),
        },
        _ => lemma_read_record_v12(h, buf, pos, crc, i, start, size, opts),
    }
}

proof fn lemma_read_record_v12(
    h: MegHeader,
    buf: Seq<u8>,
    pos: int,
    crc: u32,
    i: u32,
    start: u32,
    size: u32,
    opts: ReadOptionsView,
)
    requires
        h.version != MegVersion::V3,
        !h.encrypted,
        h.version != MegVersion::V1 ==> start >= h.data_start,
        0 <= pos,
        pos + 20 <= buf.len(),
        buf.subrange(pos, pos + 20) == spec_record_bytes(h.version, None, crc, i, start, size),
    ensures
        spec_record_bytes(h.version, None, crc, i, start, size).len() == 20,
        spec_read_record(h, buf, pos, i, opts) == Ok::<
            (crate::reader::FileRecord, int),
            crate::reader::MegReadError,
        >(
            (
                crate::reader::FileRecord {
                    encrypted: false,
                    crc,
                    index: i,
                    size,
                    start,
                    name: i,
                },
                pos + 20,
            ),
        ),
{
    let rb = spec_record_bytes(h.version, None, crc, i, start, size);
    assert(rb.subrange(0, 4) =~= u32_le_bytes(crc));
    assert(rb.subrange(4, 8) =~= u32_le_bytes(i));
    assert(rb.subrange(8, 12) =~= u32_le_bytes(size));
    assert(rb.subrange(12, 16) =~= u32_le_bytes(start));
    assert(rb.subrange(16, 20) =~= u32_le_bytes(i));
    lemma_read_u32_in(buf, pos, rb, 0, crc);
    lemma_read_u32_in(buf, pos, rb, 4, i);
    lemma_read_u32_in(buf, pos, rb, 8, size);
    lemma_read_u32_in(buf, pos, rb, 12, start);
    lemma_read_u32_in(buf, pos, rb, 16, i);
}

proof fn lemma_read_record_v3_plain(
    h: MegHeader,
    buf: Seq<u8>,
    pos: int,
    crc: u32,
    i: u32,
    start: u32,
    size: u32,
    opts: ReadOptionsView,
)
    requires
        h.version == MegVersion::V3,
        !h.encrypted,
        i <= 0xFFFF,
        start >= h.data_start,
        0 <= pos,
        pos + 20 <= buf.len(),
        buf.subrange(pos, pos + 20) == spec_record_bytes(h.version, None, crc, i, start, size),
    ensures
        spec_record_bytes(h.version, None, crc, i, start, size).len() == 20,
        spec_read_record(h, buf, pos, i, opts) == Ok::<
            (crate::reader::FileRecord, int),
            crate::reader::MegReadError,
        >(
            (
                crate::reader::FileRecord {
                    encrypted: false,
                    crc,
                    index: i,
                    size,
                    start,
                    name: i,
                },
                pos + 20,
            ),
        ),
{
    let rb = spec_record_bytes(h.version, None, crc, i, start, size);
    let body = spec_record_body_v3(crc, i, start, size);
    assert(rb.subrange(0, 2) =~= u16_le_bytes(0u16));
    lemma_read_u16_in(buf, pos, rb, 0, 0u16);
    assert(i as u16 as u32 == i);
    assert(rb.subrange(2, 20) =~= body);
    lemma_window(buf, pos, rb, 2, 20);
    lemma_read_body_v3(buf, pos + 2, crc, i, start, size);
}

proof fn lemma_read_record_v3_enc(
    h: MegHeader,
    buf: Seq<u8>,
    pos: int,
    k: (Seq<u8>, Seq<u8>),
    crc: u32,
    i: u32,
    start: u32,
    size: u32,
    opts: ReadOptionsView,
)
    requires
        h.version == MegVersion::V3,
        h.encrypted,
        opts.key == Some(k),
        i <= 0xFFFF,
        start >= h.data_start,
        cipher_roundtrips(k, pad_to_block(spec_record_body_v3(crc, i, start, size))),
        0 <= pos,
        pos + spec_record_bytes(h.version, Some(k), crc, i, start, size).len() <= buf.len(),
        buf.subrange(pos, pos + spec_record_bytes(h.version, Some(k), crc, i, start, size).len())
            == spec_record_bytes(h.version, Some(k), crc, i, start, size),
    ensures
        spec_record_bytes(h.version, Some(k), crc, i, start, size).len() == 34,
        spec_read_record(h, buf, pos, i, opts) == Ok::<
            (crate::reader::FileRecord, int),
            crate::reader::MegReadError,
        >(
            (
                crate::reader::FileRecord {
                    encrypted: true,
                    crc,
                    index: i,
                    size,
                    start,
                    name: i,
                },
                pos + 34,
            ),
        ),
{
    let rb = spec_record_bytes(h.version, Some(k), crc, i, start, size);
    let body = spec_record_body_v3(crc, i, start, size);
    let c = spec_encrypt_section(k, body);
    lemma_pad_body(body);
    assert(c.len() == 32);
    assert(rb =~= u16_le_bytes(1u16) + c);
    assert(rb.subrange(0, 2) =~= u16_le_bytes(1u16));
    lemma_read_u16_in(buf, pos, rb, 0, 1u16);
    assert(i as u16 as u32 == i);
    assert(rb.subrange(2, 34) =~= c);
    lemma_window(buf, pos, rb, 2, 34);
    let plain = aes128_cbc_decrypt(k.0, k.1, buf.subrange(pos + 2, pos + 34));
    assert(plain == pad_to_block(body));
    assert(plain.subrange(0, 18) == body);
    lemma_read_body_v3(plain, 0, crc, i, start, size);
}


/// A written file record has the record size of its version.
proof fn lemma_record_len(
    v: MegVersion,
    key: Option<(Seq<u8>, Seq<u8>)>,
    crc: u32,
    i: u32,
    start: u32,
    size: u32,
)
    requires
        v == MegVersion::V3 && key is Some ==> cipher_roundtrips(
            key->Some_0,
            pad_to_block(spec_record_body_v3(crc, i, start, size)),
        ),
    ensures
        spec_record_bytes(v, key, crc, i, start, size).len() == spec_file_record_size(
            v,
            key is Some,
        ),
{
    if v == MegVersion::V3 && key is Some {
        lemma_pad_body(spec_record_body_v3(crc, i, start, size));
    }
}

/// The encryption facts for the record bodies of the first `m` files.
pub open spec fn bodies_roundtrip(
    v: MegVersion,
    key: Option<(Seq<u8>, Seq<u8>)>,
    names: Seq<Seq<u8>>,
    starts: Seq<u32>,
    sizes: Seq<u32>,
    m: int,
) -> bool {
    v == MegVersion::V3 && key is Some ==> forall|i: int|
        0 <= i < m ==> #[trigger] cipher_roundtrips(
            key->Some_0,
            pad_to_block(spec_record_body_v3(crc32(names[i]), i as u32, starts[i], sizes[i])),
        )
}

/// The file table for `m` files is `m` records of the record size, in order.
proof fn lemma_records_layout(
    v: MegVersion,
    key: Option<(Seq<u8>, Seq<u8>)>,
    names: Seq<Seq<u8>>,
    starts: Seq<u32>,
    sizes: Seq<u32>,
    m: int,
)
    requires
        0 <= m,
        bodies_roundtrip(v, key, names, starts, sizes, m),
    ensures
        spec_records_bytes(v, key, names, starts, sizes, m).len() == m * spec_file_record_size(
            v,
            key is Some,
        ),
        forall|k: int|
            0 <= k < m ==> #[trigger] spec_records_bytes(v, key, names, starts, sizes, m).subrange(
                k * spec_file_record_size(v, key is Some),
                k * spec_file_record_size(v, key is Some) + spec_file_record_size(v, key is Some),
            ) == spec_record_bytes(v, key, crc32(names[k]), k as u32, starts[k], sizes[k]),
    decreases m,
{
    let rs = spec_file_record_size(v, key is Some) as int;
    if m > 0 {
        lemma_records_layout(v, key, names, starts, sizes, m - 1);
        lemma_record_len(v, key, crc32(names[m - 1]), (m - 1) as u32, starts[m - 1], sizes[m - 1]);
        let prev = spec_records_bytes(v, key, names, starts, sizes, m - 1);
        let all = spec_records_bytes(v, key, names, starts, sizes, m);
        assert((m - 1) * rs + rs == m * rs) by (nonlinear_arith);
        assert forall|k: int| 0 <= k < m implies #[trigger] all.subrange(k * rs, k * rs + rs)
            == spec_record_bytes(v, key, crc32(names[k]), k as u32, starts[k], sizes[k]) by {
            if k < m - 1 {
                assert(k * rs + rs <= (m - 1) * rs) by (nonlinear_arith)
                    requires
                        k < m - 1,
                        rs >= 0,
                ;
                assert(0 <= k * rs) by (nonlinear_arith)
                    requires
                        0 <= k,
                        rs >= 0,
                ;
                assert(all.subrange(k * rs, k * rs + rs) =~= prev.subrange(k * rs, k * rs + rs));
            } else {
                assert(all.subrange(k * rs, k * rs + rs) =~= spec_record_bytes(
                    v,
                    key,
                    crc32(names[k]),
                    k as u32,
                    starts[k],
                    sizes[k],
                ));
            }
        }
    }
}


/// The names still available after reading `k` records of a written file.
pub open spec fn names_left(names: Seq<Seq<u8>>, k: int, unique: bool) -> Seq<Option<Seq<u8>>> {
    Seq::new(
        names.len(),
        |j: int|
            if unique && j < k {
                None
            } else {
                Some(names[j])
            },
    )
}

/// The entries of the first `k` files of a written file.
pub open spec fn built_entries(
    names: Seq<Seq<u8>>,
    starts: Seq<u32>,
    sizes: Seq<u32>,
    encrypted: bool,
    k: int,
) -> Seq<FileEntryView> {
    Seq::new(
        k as nat,
        |j: int| FileEntryView { name: names[j], start: starts[j], size: sizes[j], encrypted },
    )
}

/// One record of a written file reads back and passes the checks.
proof fn lemma_files_step(
    h: MegHeader,
    buf: Seq<u8>,
    pos: int,
    k: int,
    names: Seq<Seq<u8>>,
    left: Seq<Option<Seq<u8>>>,
    acc: Seq<FileEntryView>,
    opts: ReadOptionsView,
    rec: crate::reader::FileRecord,
    next: int,
)
    requires
        0 <= k < h.num_files,
        k < names.len(),
        left.len() == names.len(),
        left[k] == Some(names[k]),
        rec.index == k,
        rec.name == k,
        rec.crc == crc32(names[k]),
        spec_read_record(h, buf, pos, k as u32, opts) == Ok::<
            (crate::reader::FileRecord, int),
            crate::reader::MegReadError,
        >((rec, next)),
    ensures
        spec_read_files_from(h, buf, pos, k, left, acc, opts) == spec_read_files_from(
            h,
            buf,
            next,
            k + 1,
            if opts.validate_names_unique {
                left.update(k, None)
            } else {
                left
            },
            acc.push(
                FileEntryView {
                    name: names[k],
                    start: rec.start,
                    size: rec.size,
                    encrypted: rec.encrypted,
                },
            ),
            opts,
        ),
{
    assert(k as u32 as int == k);
}

/// The file table of a written file reads back as its entries, from any record on.
#[verifier::spinoff_prover]
#[verifier::rlimit(50)]
proof fn lemma_read_files(
    h: MegHeader,
    buf: Seq<u8>,
    base: int,
    key: Option<(Seq<u8>, Seq<u8>)>,
    names: Seq<Seq<u8>>,
    starts: Seq<u32>,
    sizes: Seq<u32>,
    k: int,
    opts: ReadOptionsView,
)
    requires
        0 <= k <= names.len(),
        starts.len() == names.len(),
        sizes.len() == names.len(),
        h.num_files == names.len(),
        h.num_filenames == names.len(),
        h.encrypted == key is Some,
        key is Some ==> h.version == MegVersion::V3 && opts.key == key,
        h.version == MegVersion::V3 ==> names.len() <= 0xFFFF + 1,
        h.version != MegVersion::V1 ==> forall|j: int|
            0 <= j < names.len() ==> #[trigger] starts[j] >= h.data_start,
        bodies_roundtrip(h.version, key, names, starts, sizes, names.len() as int),
        0 <= base,
        base + spec_records_bytes(h.version, key, names, starts, sizes, names.len() as int).len()
            <= buf.len(),
        buf.subrange(
            base,
            base + spec_records_bytes(h.version, key, names, starts, sizes, names.len() as int).len(),
        ) == spec_records_bytes(h.version, key, names, starts, sizes, names.len() as int),
    ensures
        spec_read_files_from(
            h,
            buf,
            base + k * spec_file_record_size(h.version, key is Some),
            k,
            names_left(names, k, opts.validate_names_unique),
            built_entries(names, starts, sizes, key is Some, k),
            opts,
        ) == Ok::<Seq<FileEntryView>, crate::reader::MegReadError>(
            built_entries(names, starts, sizes, key is Some, names.len() as int),
        ),
    decreases names.len() - k,
{
    let n = names.len() as int;
    let rs = spec_file_record_size(h.version, key is Some) as int;
    let v = h.version;
    if k < n {
        lemma_records_layout(v, key, names, starts, sizes, n);
        let all = spec_records_bytes(v, key, names, starts, sizes, n);
        let rec = spec_record_bytes(v, key, crc32(names[k]), k as u32, starts[k], sizes[k]);
        lemma_record_len(v, key, crc32(names[k]), k as u32, starts[k], sizes[k]);
        assert(0 <= k * rs) by (nonlinear_arith)
            requires
                0 <= k,
                rs >= 0,
        ;
        assert(k * rs + rs <= n * rs) by (nonlinear_arith)
            requires
                k < n,
                rs >= 0,
        ;
        assert(all.subrange(k * rs, k * rs + rs) == rec);
        lemma_window(buf, base, all, k * rs, k * rs + rs);
        lemma_read_record(
            h,
            buf,
            base + k * rs,
            key,
            crc32(names[k]),
            k as u32,
            starts[k],
            sizes[k],
            opts,
        );
        let left = names_left(names, k, opts.validate_names_unique);
        assert(left[k] == Some(names[k]));
        lemma_files_step(
            h,
            buf,
            base + k * rs,
            k,
            names,
            left,
            built_entries(names, starts, sizes, key is Some, k),
            opts,
            crate::reader::FileRecord {
                encrypted: key is Some,
                crc: crc32(names[k]),
                index: k as u32,
                size: sizes[k],
                start: starts[k],
                name: k as u32,
            },
            base + k * rs + rs,
        );
        if opts.validate_names_unique {
            assert(left.update(k, None) =~= names_left(names, k + 1, true));
        } else {
            assert(left =~= names_left(names, k + 1, false));
        }
        assert(built_entries(names, starts, sizes, key is Some, k).push(
            FileEntryView {
                name: names[k],
                start: starts[k],
                size: sizes[k],
                encrypted: key is Some,
            },
        ) =~= built_entries(names, starts, sizes, key is Some, k + 1));
        assert(k as u32 as int == k);
        assert(base + k * rs + rs == base + (k + 1) * rs) by (nonlinear_arith);
        lemma_read_files(h, buf, base, key, names, starts, sizes, k + 1, opts);
    }
}


/// The lengths that in-memory contents report.
pub open spec fn content_lens(cs: Seq<Seq<u8>>) -> Seq<u64> {
    cs.map_values(|c: Seq<u8>| c.len() as u64)
}

/// The stored bytes of a prefix of the files are a prefix of the data section.
proof fn lemma_data_prefix(key: Option<(Seq<u8>, Seq<u8>)>, cs: Seq<Seq<u8>>, k: int)
    requires
        0 <= k <= cs.len(),
    ensures
        spec_data_bytes(key, cs.subrange(0, k)).len() <= spec_data_bytes(key, cs).len(),
        spec_data_bytes(key, cs).subrange(0, spec_data_bytes(key, cs.subrange(0, k)).len() as int)
            == spec_data_bytes(key, cs.subrange(0, k)),
    decreases cs.len() - k,
{
    let all = spec_data_bytes(key, cs);
    if k == cs.len() {
        assert(cs.subrange(0, k) =~= cs);
        assert(all.subrange(0, all.len() as int) =~= all);
    } else {
        lemma_data_prefix(key, cs, k + 1);
        let p = cs.subrange(0, k + 1);
        assert(p.drop_last() =~= cs.subrange(0, k));
        let a = spec_data_bytes(key, cs.subrange(0, k));
        let b = spec_data_bytes(key, p);
        assert(b == a + spec_file_bytes(key, cs[k]));
        assert(all.subrange(0, a.len() as int) =~= b.subrange(0, a.len() as int));
        assert(b.subrange(0, a.len() as int) =~= a);
    }
}

/// The stored size of a file is its padded size when encrypted.
proof fn lemma_file_bytes_len(key: Option<(Seq<u8>, Seq<u8>)>, c: Seq<u8>)
    requires
        key matches Some(k) ==> cipher_roundtrips(k, pad_to_block(c)),
    ensures
        spec_file_bytes(key, c).len() == if key is Some {
            spec_round_up_to_block(c.len() as int)
        } else {
            c.len() as int
        },
{
}

/// The offsets placed for in-memory contents are where their stored bytes sit in the data section.
proof fn lemma_offsets_data(key: Option<(Seq<u8>, Seq<u8>)>, cs: Seq<Seq<u8>>, fe: u32)
    requires
        forall|i: int| 0 <= i < cs.len() ==> (#[trigger] cs[i]).len() <= u32::MAX,
        key matches Some(k) ==> forall|i: int|
            0 <= i < cs.len() ==> #[trigger] cipher_roundtrips(k, pad_to_block(cs[i])),
    ensures
        spec_offsets(key is Some, content_lens(cs), fe) matches Ok((st, sz, nx)) ==> {
            &&& st.len() == cs.len()
            &&& sz.len() == cs.len()
            &&& forall|i: int|
                0 <= i < cs.len() ==> #[trigger] st[i] == fe + spec_data_bytes(
                    key,
                    cs.subrange(0, i),
                ).len() && sz[i] == cs[i].len()
            &&& nx == if fe + spec_data_bytes(key, cs).len() <= u32::MAX {
                Some((fe + spec_data_bytes(key, cs).len()) as u32)
            } else {
                None::<u32>
            }
        },
    decreases cs.len(),
{
    let lens = content_lens(cs);
    if cs.len() == 0 {
        assert(spec_data_bytes(key, cs).len() == 0);
    } else {
        let init = cs.drop_last();
        assert(content_lens(init) =~= lens.drop_last());
        lemma_offsets_data(key, init, fe);
        assert(init.subrange(0, init.len() as int) =~= init);
        assert forall|i: int| 0 <= i < init.len() implies #[trigger] init.subrange(0, i) == cs.subrange(
            0,
            i,
        ) by {
            assert(init.subrange(0, i) =~= cs.subrange(0, i));
        }
        assert(cs.subrange(0, init.len() as int) =~= init);
        lemma_file_bytes_len(key, cs.last());
        if let Ok((st, sz, nx)) = spec_offsets(key is Some, lens, fe) {
            let (st0, sz0, nx0) = spec_offsets(key is Some, lens.drop_last(), fe)->Ok_0;
            assert(lens.last() == cs.last().len());
            assert forall|i: int| 0 <= i < cs.len() implies #[trigger] st[i] == fe + spec_data_bytes(
                key,
                cs.subrange(0, i),
            ).len() && sz[i] == cs[i].len() by {
                if i < init.len() {
                    assert(st[i] == st0[i]);
                    assert(sz[i] == sz0[i]);
                    assert(init[i] == cs[i]);
                }
            }
        }
    }
}

/// Contents whose sizes all matched have the lengths of those sizes.
proof fn lemma_sizes_match(sizes: Seq<u32>, cs: Seq<Seq<u8>>, i: int)
    requires
        0 <= i <= cs.len(),
        sizes.len() == cs.len(),
        crate::writer::spec_size_mismatch_from(sizes, cs, i) is None,
    ensures
        forall|j: int| i <= j < cs.len() ==> (#[trigger] cs[j]).len() == sizes[j],
    decreases cs.len() - i,
{
    if i < cs.len() {
        lemma_sizes_match(sizes, cs, i + 1);
    }
}

/// A file stored in a data section laid out at `fe` extracts back to its contents.
proof fn lemma_extract_built(
    key: Option<(Seq<u8>, Seq<u8>)>,
    cs: Seq<Seq<u8>>,
    i: int,
    out: Seq<u8>,
    fe: int,
    name: Seq<u8>,
    opts: ReadOptionsView,
)
    requires
        0 <= i < cs.len(),
        0 <= fe,
        fe + spec_data_bytes(key, cs).len() <= out.len(),
        out.subrange(fe, fe + spec_data_bytes(key, cs).len()) == spec_data_bytes(key, cs),
        key matches Some(k) ==> opts.key == key && forall|j: int|
            0 <= j < cs.len() ==> #[trigger] cipher_roundtrips(k, pad_to_block(cs[j])),
        cs[i].len() <= u32::MAX,
        fe + spec_data_bytes(key, cs.subrange(0, i)).len() <= u32::MAX,
    ensures
        spec_extract(
            FileEntryView {
                name,
                start: (fe + spec_data_bytes(key, cs.subrange(0, i)).len()) as u32,
                size: cs[i].len() as u32,
                encrypted: key is Some,
            },
            out,
            opts,
        ) == Ok::<Seq<u8>, crate::reader::MegReadError>(cs[i]),
{
    let d = spec_data_bytes(key, cs);
    let pre = spec_data_bytes(key, cs.subrange(0, i));
    let q = cs.subrange(0, i + 1);
    assert(q.drop_last() =~= cs.subrange(0, i));
    let fb = spec_file_bytes(key, cs[i]);
    assert(spec_data_bytes(key, q) == pre + fb);
    lemma_data_prefix(key, cs, i + 1);
    let pl = pre.len() as int;
    let ql = pl + fb.len();
    assert(d.subrange(pl, ql) =~= fb) by {
        assert forall|t: int| 0 <= t < fb.len() implies d.subrange(pl, ql)[t] == fb[t] by {
            assert(d.subrange(0, ql)[pl + t] == (pre + fb)[pl + t]);
        }
    }
    lemma_window(out, fe, d, pl, ql);
    lemma_file_bytes_len(key, cs[i]);
    let c = cs[i];
    match key {
        Some(k) => {
            assert(cipher_roundtrips(k, pad_to_block(cs[i])));
            assert(spec_round_up_to_block(c.len() as int) % 16 == 0);
            let plain = aes128_cbc_decrypt(k.0, k.1, fb);
            assert(plain == pad_to_block(c));
            assert(pad_to_block(c).subrange(0, c.len() as int) =~= c);
        },
        None => {},
    }
}


/// A written names table reads back as the names.
#[verifier::spinoff_prover]
proof fn lemma_names_section_built(
    h: MegHeader,
    out: Seq<u8>,
    hs: int,
    key: Option<(Seq<u8>, Seq<u8>)>,
    names: Seq<Seq<u8>>,
    opts: ReadOptionsView,
)
    requires
        h.num_filenames == names.len(),
        h.encrypted == key is Some,
        key matches Some(k) ==> h.version == MegVersion::V3 && opts.key == key && cipher_roundtrips(
            k,
            pad_to_block(spec_name_records(names)),
        ),
        h.version == MegVersion::V3 ==> h.filenames_size == spec_names_bytes(key, names).len(),
        forall|j: int|
            0 <= j < names.len() ==> valid_path(#[trigger] names[j]) && names[j].len() <= 0xFFFF
                && (opts.validate_name_length ==> names[j].len() <= 260),
        0 <= hs,
        hs + spec_names_bytes(key, names).len() <= out.len(),
        out.subrange(hs, hs + spec_names_bytes(key, names).len()) == spec_names_bytes(key, names),
    ensures
        spec_names_section(h, out, hs, opts) == Ok::<(Seq<Seq<u8>>, int), crate::reader::MegReadError>(
            (names, hs + spec_names_bytes(key, names).len()),
        ),
{
    let recs = spec_name_records(names);
    let nb = spec_names_bytes(key, names);
    let n = names.len() as int;
    assert(names.subrange(0, 0) =~= Seq::<Seq<u8>>::empty());
    assert(spec_name_records(names.subrange(0, 0)).len() == 0);
    if h.version == MegVersion::V3 {
        let region = out.subrange(hs, hs + nb.len());
        assert(region == nb);
        match key {
            Some(k) => {
                let p = pad_to_block(recs);
                assert(nb.len() == p.len());
                assert(p.len() % 16 == 0);
                assert(region.subrange(0, spec_round_down_to_block(region.len() as int)) =~= region);
                assert(aes128_cbc_decrypt(k.0, k.1, region) == p);
                assert(p.subrange(0, recs.len() as int) =~= recs);
                lemma_read_names(p, 0, names, 0, opts);
            },
            None => {
                assert(region.subrange(0, recs.len() as int) =~= recs);
                lemma_read_names(region, 0, names, 0, opts);
            },
        }
    } else {
        lemma_read_names(out, hs, names, 0, opts);
    }
}


/// Reading back a built file gives one entry per built file, in order, with its name, its size
/// and whether it is encrypted, and each entry extracts to the file's contents.
pub open spec fn reads_back(
    v: MegVersion,
    key: Option<(Seq<u8>, Seq<u8>)>,
    names: Seq<Seq<u8>>,
    cs: Seq<Seq<u8>>,
    out: Seq<u8>,
    opts: ReadOptionsView,
) -> bool {
    spec_read_meg_meta(Some(v), out, opts) matches Ok(es) && {
        &&& es.len() == names.len()
        &&& forall|i: int|
            0 <= i < es.len() ==> {
                &&& (#[trigger] es[i]).name == names[i]
                &&& es[i].size == cs[i].len()
                &&& es[i].encrypted == key is Some
                &&& spec_extract(es[i], out, opts) == Ok::<Seq<u8>, crate::reader::MegReadError>(
                    cs[i],
                )
            }
    }
}

/// Read options fit for reading back a file built with `key` from `names`: they hold the key when
/// the file is encrypted, and check name lengths only where no name exceeds 260 bytes.
pub open spec fn options_fit(
    key: Option<(Seq<u8>, Seq<u8>)>,
    names: Seq<Seq<u8>>,
    opts: ReadOptionsView,
) -> bool {
    &&& key is Some ==> opts.key == key
    &&& opts.validate_name_length ==> forall|j: int|
        0 <= j < names.len() ==> (#[trigger] names[j]).len() <= 260
}

/// The bytes of a successful build split into header, names table, file table and data, with
/// the lengths the layout expects.
#[verifier::spinoff_prover]
#[verifier::rlimit(50)]
proof fn lemma_build_parts(
    v: MegVersion,
    key: Option<(Seq<u8>, Seq<u8>)>,
    names: Seq<Seq<u8>>,
    limit: u16,
    cs: Seq<Seq<u8>>,
    out: Seq<u8>,
)
    requires
        key is Some ==> v == MegVersion::V3,
        cs.len() == names.len(),
        spec_build(v, key, names, limit, content_lens(cs), cs) == Ok::<Seq<u8>, BuildMegError>(out),
        spec_layout(v, key is Some, names, limit, content_lens(cs)) matches Ok(l)
            ==> crate::writer::sections_roundtrip(v, key, names, l.starts, l.sizes, cs),
    ensures
        spec_layout(v, key is Some, names, limit, content_lens(cs)) matches Ok(l) && {
            let hb = spec_header_bytes(v, key is Some, names.len() as u32, l.files_end, l.names_len);
            let nb = spec_names_bytes(key, names);
            let rb = spec_records_bytes(v, key, names, l.starts, l.sizes, names.len() as int);
            let db = spec_data_bytes(key, cs);
            &&& hb.len() + nb.len() + rb.len() + db.len() == out.len()
            &&& out.subrange(0, hb.len() as int) == hb
            &&& out.subrange(hb.len() as int, (hb.len() + nb.len()) as int) == nb
            &&& out.subrange((hb.len() + nb.len()) as int, (hb.len() + nb.len() + rb.len()) as int)
                == rb
            &&& out.subrange(l.files_end as int, l.files_end + db.len()) == db
            &&& names.len() <= u32::MAX
            &&& v == MegVersion::V3 ==> names.len() <= 0xFFFF
            &&& nb.len() == l.names_len
            &&& hb.len() + nb.len() + rb.len() == l.files_end
            &&& l.starts.len() == names.len()
            &&& l.sizes.len() == names.len()
            &&& forall|i: int|
                0 <= i < cs.len() ==> (#[trigger] cs[i]).len() == l.sizes[i] && l.starts[i]
                    == l.files_end + spec_data_bytes(key, cs.subrange(0, i)).len()
            &&& forall|j: int| 0 <= j < names.len() ==> (#[trigger] names[j]).len() <= limit
            &&& key matches Some(k) ==> cipher_roundtrips(k, pad_to_block(spec_name_records(names)))
            &&& key matches Some(k) ==> forall|i: int|
                0 <= i < cs.len() ==> #[trigger] cipher_roundtrips(k, pad_to_block(cs[i]))
            &&& bodies_roundtrip(v, key, names, l.starts, l.sizes, names.len() as int)
        },
{
    let enc = key is Some;
    let lens = content_lens(cs);
    let l = spec_layout(v, enc, names, limit, lens)->Ok_0;
    let fe = l.files_end;
    let n = names.len() as int;
    lemma_offsets_lengths(enc, lens, fe);
    assert(crate::writer::spec_size_mismatch_from(l.sizes, cs, 0) is None);
    lemma_sizes_match(l.sizes, cs, 0);
    lemma_offsets_data(key, cs, fe);
    assert(names.subrange(0, 0) =~= Seq::<Seq<u8>>::empty());
    lemma_name_records_len(names, 0, limit);
    let recs = spec_name_records(names);
    let nb = spec_names_bytes(key, names);
    match key {
        Some(k) => {
            assert(nb.len() == pad_to_block(recs).len());
        },
        None => {},
    }
    assert(nb.len() == l.names_len);
    lemma_records_layout(v, key, names, l.starts, l.sizes, n);
    let hb = spec_header_bytes(v, enc, n as u32, fe, l.names_len);
    assert(hb.len() == spec_header_size(v));
    let rb = spec_records_bytes(v, key, names, l.starts, l.sizes, n);
    let db = spec_data_bytes(key, cs);
    assert(out == hb + nb + rb + db);
    let hl = hb.len() as int;
    let nl = nb.len() as int;
    let rl = rb.len() as int;
    assert(out.subrange(0, hl) =~= hb);
    assert(out.subrange(hl, hl + nl) =~= nb);
    assert(out.subrange(hl + nl, hl + nl + rl) =~= rb);
    assert(out.subrange(fe as int, fe + db.len()) =~= db);
}


/// The metadata of a written file reads back as its entries.
#[verifier::spinoff_prover]
#[verifier::rlimit(50)]
proof fn lemma_read_meta_built(
    v: MegVersion,
    key: Option<(Seq<u8>, Seq<u8>)>,
    names: Seq<Seq<u8>>,
    l: LayoutView,
    out: Seq<u8>,
    opts: ReadOptionsView,
)
    requires
        key matches Some(k) ==> v == MegVersion::V3 && opts.key == key && cipher_roundtrips(
            k,
            pad_to_block(spec_name_records(names)),
        ),
        forall|j: int|
            0 <= j < names.len() ==> valid_path(#[trigger] names[j]) && names[j].len() <= 0xFFFF
                && (opts.validate_name_length ==> names[j].len() <= 260),
        names.len() <= u32::MAX,
        v == MegVersion::V3 ==> names.len() <= 0xFFFF,
        l.starts.len() == names.len(),
        l.sizes.len() == names.len(),
        forall|j: int| 0 <= j < names.len() ==> #[trigger] l.starts[j] >= l.files_end,
        bodies_roundtrip(v, key, names, l.starts, l.sizes, names.len() as int),
        spec_names_bytes(key, names).len() == l.names_len,
        ({
            let hb = spec_header_bytes(v, key is Some, names.len() as u32, l.files_end, l.names_len);
            let nb = spec_names_bytes(key, names);
            let rb = spec_records_bytes(v, key, names, l.starts, l.sizes, names.len() as int);
            &&& hb.len() + nb.len() + rb.len() <= out.len()
            &&& out.subrange(0, hb.len() as int) == hb
            &&& out.subrange(hb.len() as int, (hb.len() + nb.len()) as int) == nb
            &&& out.subrange((hb.len() + nb.len()) as int, (hb.len() + nb.len() + rb.len()) as int) == rb
        }),
    ensures
        spec_read_meg_meta(Some(v), out, opts) == Ok::<
            Seq<FileEntryView>,
            crate::reader::MegReadError,
        >(built_entries(names, l.starts, l.sizes, key is Some, names.len() as int)),
{
    let enc = key is Some;
    let n = names.len() as int;
    let fe = l.files_end;
    let hb = spec_header_bytes(v, enc, n as u32, fe, l.names_len);
    let nb = spec_names_bytes(key, names);
    let hl = hb.len() as int;
    let nl = nb.len() as int;
    lemma_read_header(out, v, enc, n as u32, fe, l.names_len, opts.key is Some);
    let h = built_header(v, enc, n as u32, fe, l.names_len);
    lemma_names_section_built(h, out, hl, key, names, opts);
    assert(names.map_values(|x: Seq<u8>| Some(x)) =~= names_left(
        names,
        0,
        opts.validate_names_unique,
    ));
    assert(built_entries(names, l.starts, l.sizes, enc, 0) =~= Seq::<FileEntryView>::empty());
    lemma_read_files(h, out, hl + nl, key, names, l.starts, l.sizes, 0, opts);
}

/// What a build writes reads back: with the version it was built as, and options fit for it,
/// the read gives one entry per file in the builder's order, with the file's name, size and
/// encryption, and each entry extracts to the file's contents.
///
/// The encryption facts (`sections_roundtrip`) are those the encrypting wrapper states of the
/// sections that the build encrypted.
#[verifier::spinoff_prover]
#[verifier::rlimit(50)]
pub proof fn lemma_build_reads_back(
    v: MegVersion,
    key: Option<(Seq<u8>, Seq<u8>)>,
    names: Seq<Seq<u8>>,
    limit: u16,
    cs: Seq<Seq<u8>>,
    out: Seq<u8>,
    opts: ReadOptionsView,
)
    requires
        key is Some ==> v == MegVersion::V3,
        forall|j: int| 0 <= j < names.len() ==> valid_path(#[trigger] names[j]),
        cs.len() == names.len(),
        spec_build(v, key, names, limit, content_lens(cs), cs) == Ok::<Seq<u8>, BuildMegError>(out),
        spec_layout(v, key is Some, names, limit, content_lens(cs)) matches Ok(l)
            ==> crate::writer::sections_roundtrip(v, key, names, l.starts, l.sizes, cs),
        options_fit(key, names, opts),
    ensures
        reads_back(v, key, names, cs, out, opts),
{
    lemma_build_parts(v, key, names, limit, cs, out);
    let enc = key is Some;
    let l = spec_layout(v, enc, names, limit, content_lens(cs))->Ok_0;
    let n = names.len() as int;
    let fe = l.files_end;
    let hb = spec_header_bytes(v, enc, n as u32, fe, l.names_len);
    let nb = spec_names_bytes(key, names);
    let rb = spec_records_bytes(v, key, names, l.starts, l.sizes, n);
    let db = spec_data_bytes(key, cs);
    assert forall|j: int| 0 <= j < names.len() implies #[trigger] l.starts[j] >= l.files_end by {
        assert(cs[j].len() == l.sizes[j]);
    }
    lemma_read_meta_built(v, key, names, l, out, opts);
    let es = built_entries(names, l.starts, l.sizes, enc, n);
    assert forall|i: int| 0 <= i < es.len() implies {
        &&& (#[trigger] es[i]).name == names[i]
        &&& es[i].size == cs[i].len()
        &&& es[i].encrypted == key is Some
        &&& spec_extract(es[i], out, opts) == Ok::<Seq<u8>, crate::reader::MegReadError>(cs[i])
    } by {
        assert(cs[i].len() == l.sizes[i]);
        lemma_extract_built(key, cs, i, out, fe as int, names[i], opts);
    }
}

/// Guessing reads a written header as its own version, wherever the header and the first name
/// show it.
#[verifier::spinoff_prover]
#[verifier::rlimit(50)]
proof fn lemma_guess_header(
    out: Seq<u8>,
    v: MegVersion,
    key: Option<(Seq<u8>, Seq<u8>)>,
    names: Seq<Seq<u8>>,
    fe: u32,
    nl: u32,
    has_key: bool,
)
    requires
        key is Some ==> v == MegVersion::V3 && has_key,
        names.len() <= u32::MAX,
        forall|j: int| 0 <= j < names.len() ==> valid_path(#[trigger] names[j]),
        v == MegVersion::V2 ==> names.len() > 0 && 2 <= names[0].len() <= 260 && key is None,
        v == MegVersion::V3 && key is None ==> nl <= 0xFFFF,
        ({
            let hb = spec_header_bytes(v, key is Some, names.len() as u32, fe, nl);
            let nb = spec_names_bytes(key, names);
            &&& hb.len() + nb.len() <= out.len()
            &&& out.subrange(0, hb.len() as int) == hb
            &&& out.subrange(hb.len() as int, (hb.len() + nb.len()) as int) == nb
        }),
    ensures
        spec_read_header(None, out, has_key) == spec_read_header(Some(v), out, has_key),
{
    let enc = key is Some;
    let n = names.len() as int;
    let hb = spec_header_bytes(v, enc, n as u32, fe, nl);
    let nb = spec_names_bytes(key, names);
    lemma_read_header(out, v, enc, n as u32, fe, nl, has_key);
    match v {
        MegVersion::V1 => {
            assert(hb.subrange(0, 4) =~= u32_le_bytes(n as u32));
            assert(hb.subrange(4, 8) =~= u32_le_bytes(n as u32));
            lemma_read_u32_in(out, 0, hb, 0, n as u32);
            lemma_read_u32_in(out, 0, hb, 4, n as u32);
        },
        MegVersion::V2 => {
            assert(hb.subrange(0, 4) =~= u32_le_bytes(ID_PLAIN));
            assert(hb.subrange(4, 8) =~= u32_le_bytes(ID2));
            lemma_read_u32_in(out, 0, hb, 0, ID_PLAIN);
            lemma_read_u32_in(out, 0, hb, 4, ID2);
            lemma_name_records_prefix(names, 1);
            lemma_name_records_step(names, 0);
            assert(names.subrange(0, 0) =~= Seq::<Seq<u8>>::empty());
            let first = spec_name_records(names.subrange(0, 1));
            let len0 = names[0].len() as int;
            assert(first =~= u16_le_bytes(len0 as u16) + names[0]);
            assert(nb.subrange(0, 2) =~= u16_le_bytes(len0 as u16)) by {
                assert forall|t: int| 0 <= t < 2 implies nb[t] == #[trigger] u16_le_bytes(
                    len0 as u16,
                )[t] by {
                    assert(nb[t] == first[t]);
                }
            }
            assert(nb.subrange(2, 4) =~= names[0].subrange(0, 2)) by {
                assert forall|t: int| 0 <= t < 2 implies nb[2 + t] == #[trigger] names[0][t] by {
                    assert(nb[2 + t] == first[2 + t]);
                }
            }
            lemma_read_u16_in(out, 20, nb, 0, len0 as u16);
            lemma_window(out, 20, nb, 2, 4);
            assert(out.subrange(22, 24) =~= names[0].subrange(0, 2));
            assert(valid_path(names[0]));
            assert(crate::reader::spec_is_valid_path_chars(out.subrange(22, 24))) by {
                assert forall|t: int| 0 <= t < 2 implies crate::path::spec_is_dir_separator(
                    #[trigger] out.subrange(22, 24)[t],
                ) || crate::path::spec_is_valid_component(out.subrange(22, 24)[t]) by {
                    assert(out.subrange(22, 24)[t] == names[0][t]);
                }
            }
        },
        MegVersion::V3 => {
            let flags = if enc {
                ID_ENCRYPTED
            } else {
                ID_PLAIN
            };
            assert(hb.subrange(0, 4) =~= u32_le_bytes(flags));
            assert(hb.subrange(4, 8) =~= u32_le_bytes(ID2));
            lemma_read_u32_in(out, 0, hb, 0, flags);
            lemma_read_u32_in(out, 0, hb, 4, ID2);
            if !enc {
                                assert(hb.subrange(20, 24) =~= u32_le_bytes(nl));
                lemma_window(out, 0, hb, 20, 24);
                assert(out[22] == u32_le_bytes(nl)[2]);
                assert(nl / 65536 == 0);
                assert(!crate::reader::spec_is_valid_path_chars(out.subrange(22, 24))) by {
                    assert(out.subrange(22, 24)[0] == out[22]);
                }
            }
        },
    }
}


/// Whether a file built as `v` shows its version to guessing: a V1 file always; a V2 file whose
/// first name is 2 to 260 bytes long; an encrypted V3 file; an unencrypted V3 file whose name
/// records take less than 64 KiB.
pub open spec fn guess_shows_version(
    v: MegVersion,
    key: Option<(Seq<u8>, Seq<u8>)>,
    names: Seq<Seq<u8>>,
) -> bool {
    &&& v == MegVersion::V2 ==> names.len() > 0 && 2 <= names[0].len() <= 260
    &&& v == MegVersion::V3 && key is None ==> spec_name_records(names).len() <= 0xFFFF
}

/// Guessing the version of a built file reads it as the version it was built as, wherever the
/// file shows its version: a V1 file always; a V2 file whose first name is 2 to 260 bytes long;
/// an encrypted V3 file; an unencrypted V3 file whose name records take less than 64 KiB.
pub proof fn lemma_guess_reads_built(
    v: MegVersion,
    key: Option<(Seq<u8>, Seq<u8>)>,
    names: Seq<Seq<u8>>,
    limit: u16,
    cs: Seq<Seq<u8>>,
    out: Seq<u8>,
    opts: ReadOptionsView,
)
    requires
        key is Some ==> v == MegVersion::V3,
        forall|j: int| 0 <= j < names.len() ==> valid_path(#[trigger] names[j]),
        cs.len() == names.len(),
        spec_build(v, key, names, limit, content_lens(cs), cs) == Ok::<Seq<u8>, BuildMegError>(out),
        spec_layout(v, key is Some, names, limit, content_lens(cs)) matches Ok(l)
            ==> crate::writer::sections_roundtrip(v, key, names, l.starts, l.sizes, cs),
        key is Some ==> opts.key == key,
        guess_shows_version(v, key, names),
    ensures
        guess_reads_as(v, out, opts),
{
    lemma_build_parts(v, key, names, limit, cs, out);
    let l = spec_layout(v, key is Some, names, limit, content_lens(cs))->Ok_0;
    lemma_guess_header(out, v, key, names, l.files_end, l.names_len, opts.key is Some);
}

/// Guessing the version of `out` reads it as `v` reads it.
pub open spec fn guess_reads_as(v: MegVersion, out: Seq<u8>, opts: ReadOptionsView) -> bool {
    spec_read_meg_meta(None, out, opts) == spec_read_meg_meta(Some(v), out, opts)
}

/// The laws of a successful build, for every read option fit for it: the file reads back, and
/// guessing reads it as its version wherever it shows it.
pub(crate) proof fn lemma_built_laws(
    v: MegVersion,
    key: Option<(Seq<u8>, Seq<u8>)>,
    names: Seq<Seq<u8>>,
    limit: u16,
    cs: Seq<Seq<u8>>,
    out: Seq<u8>,
)
    requires
        key is Some ==> v == MegVersion::V3,
        forall|j: int| 0 <= j < names.len() ==> valid_path(#[trigger] names[j]),
        cs.len() == names.len(),
        spec_build(v, key, names, limit, content_lens(cs), cs) == Ok::<Seq<u8>, BuildMegError>(out),
        spec_layout(v, key is Some, names, limit, content_lens(cs)) matches Ok(l)
            ==> crate::writer::sections_roundtrip(v, key, names, l.starts, l.sizes, cs),
    ensures
        forall|opts: ReadOptionsView|
            #[trigger] options_fit(key, names, opts) ==> reads_back(v, key, names, cs, out, opts),
        guess_shows_version(v, key, names) ==> forall|opts: ReadOptionsView|
            #[trigger] options_fit(key, names, opts) ==> guess_reads_as(v, out, opts),
        v == MegVersion::V1 ==> forall|opts: ParseOptionsView|
            #[trigger] parse_options_fit(names, opts) ==> spec_parse_results(out, opts)
                == built_files(names, cs),
{
    if v == MegVersion::V1 {
        assert forall|opts: ParseOptionsView| #[trigger] parse_options_fit(names, opts) implies spec_parse_results(
            out,
            opts,
        ) == built_files(names, cs) by {
            lemma_build_parses_back(names, limit, cs, out, opts);
        }
    }
    assert forall|opts: ReadOptionsView| #[trigger] options_fit(key, names, opts) implies reads_back(
        v,
        key,
        names,
        cs,
        out,
        opts,
    ) by {
        lemma_build_reads_back(v, key, names, limit, cs, out, opts);
    }
    if guess_shows_version(v, key, names) {
        assert forall|opts: ReadOptionsView| #[trigger] options_fit(key, names, opts) implies guess_reads_as(
            v,
            out,
            opts,
        ) by {
            lemma_guess_reads_built(v, key, names, limit, cs, out, opts);
        }
    }
}


/// The names table entries the parser reads for valid names.
pub open spec fn valid_name_views(names: Seq<Seq<u8>>) -> Seq<NameView> {
    names.map_values(|x: Seq<u8>| NameView { raw: x, valid: true })
}

/// Name records laid out at `base` parse back as the names, from any record boundary on.
proof fn lemma_parse_names(
    buf: Seq<u8>,
    base: int,
    names: Seq<Seq<u8>>,
    k: int,
    opts: ParseOptionsView,
)
    requires
        0 <= k <= names.len(),
        names.len() <= u32::MAX,
        forall|j: int|
            0 <= j < names.len() ==> valid_path(#[trigger] names[j]) && names[j].len() <= 0xFFFF
                && (opts.validate_name_length ==> names[j].len() <= 260),
        0 <= base,
        base + spec_name_records(names).len() <= buf.len(),
        buf.subrange(base, base + spec_name_records(names).len()) == spec_name_records(names),
    ensures
        spec_names_from(
            buf,
            opts,
            base + spec_name_records(names.subrange(0, k)).len(),
            k as u32,
            names.len() as u32,
            valid_name_views(names.subrange(0, k)),
        ) == Ok::<(Seq<NameView>, int), MegParseError>(
            (valid_name_views(names), base + spec_name_records(names).len()),
        ),
    decreases names.len() - k,
{
    let r = spec_name_records(names);
    if k == names.len() {
        assert(names.subrange(0, k) =~= names);
    } else {
        lemma_name_records_prefix(names, k + 1);
        lemma_name_records_step(names, k);
        let a = spec_name_records(names.subrange(0, k));
        let x = spec_name_records(names.subrange(0, k + 1));
        let al: int = a.len() as int;
        let len: int = names[k].len() as int;
        let pos = base + al;
        assert(x.len() == al + 2 + len);
        assert(r.subrange(al, al + 2) =~= u16_le_bytes(len as u16)) by {
            assert forall|t: int| 0 <= t < 2 implies r[al + t] == #[trigger] u16_le_bytes(len as u16)[t] by {
                assert(r[al + t] == x[al + t]);
            }
        }
        assert(r.subrange(al + 2, al + 2 + len) =~= names[k]) by {
            assert forall|t: int| 0 <= t < len implies r[al + 2 + t] == #[trigger] names[k][t] by {
                assert(r[al + 2 + t] == x[al + 2 + t]);
            }
        }
        lemma_window(buf, base, r, al, al + 2);
        lemma_window(buf, base, r, al + 2, al + 2 + len);
        lemma_u16_roundtrip(len as u16, buf, pos);
        lemma_validate_ok_iff_valid(names[k]);
        assert(valid_name_views(names.subrange(0, k)).push(NameView { raw: names[k], valid: true })
            =~= valid_name_views(names.subrange(0, k + 1)));
        assert((k + 1) as u32 == (k as u32 + 1) as u32);
        lemma_parse_names(buf, base, names, k + 1, opts);
    }
}


/// A stored, unencrypted file sits in the data section laid out at `fe`, after the files before it.
proof fn lemma_plain_file_window(cs: Seq<Seq<u8>>, i: int, out: Seq<u8>, fe: int)
    requires
        0 <= i < cs.len(),
        0 <= fe,
        fe + spec_data_bytes(None, cs).len() <= out.len(),
        out.subrange(fe, fe + spec_data_bytes(None, cs).len()) == spec_data_bytes(None, cs),
    ensures
        ({
            let at = fe + spec_data_bytes(None, cs.subrange(0, i)).len();
            &&& at + cs[i].len() <= out.len()
            &&& out.subrange(at, at + cs[i].len()) == cs[i]
        }),
{
    let d = spec_data_bytes(None, cs);
    let pre = spec_data_bytes(None, cs.subrange(0, i));
    let q = cs.subrange(0, i + 1);
    assert(q.drop_last() =~= cs.subrange(0, i));
    assert(spec_data_bytes(None, q) == pre + cs[i]);
    lemma_data_prefix(None, cs, i + 1);
    let pl = pre.len() as int;
    let ql = pl + cs[i].len();
    assert(d.subrange(pl, ql) =~= cs[i]) by {
        assert forall|t: int| 0 <= t < cs[i].len() implies d.subrange(pl, ql)[t] == cs[i][t] by {
            assert(d.subrange(0, ql)[pl + t] == (pre + cs[i])[pl + t]);
        }
    }
    lemma_window(out, fe, d, pl, ql);
}

/// Parser options fit for a built file with these names: they check name lengths only where no
/// name exceeds 260 bytes.
pub open spec fn parse_options_fit(names: Seq<Seq<u8>>, opts: ParseOptionsView) -> bool {
    opts.validate_name_length ==> forall|j: int|
        0 <= j < names.len() ==> (#[trigger] names[j]).len() <= 260
}

/// The files a parse of a built V1 file yields: each name with its contents.
pub open spec fn built_files(names: Seq<Seq<u8>>, cs: Seq<Seq<u8>>) -> Seq<
    Result<FileView, MegParseError>,
> {
    Seq::new(
        names.len(),
        |i: int|
            Ok(
                FileView {
                    raw_name: Some(names[i]),
                    path: Some(names[i]),
                    contents: cs[i],
                    expected_size: cs[i].len(),
                },
            ),
    )
}

/// One record of a built V1 file parses to its file.
proof fn lemma_parse_record(
    out: Seq<u8>,
    p: int,
    names: Seq<Seq<u8>>,
    cs: Seq<Seq<u8>>,
    i: int,
    start: u32,
    size: u32,
    opts: ParseOptionsView,
)
    requires
        0 <= i < names.len(),
        names.len() <= u32::MAX,
        cs.len() == names.len(),
        size == cs[i].len(),
        0 <= p,
        p + 20 <= out.len(),
        out.subrange(p, p + 20) == spec_record_bytes(
            MegVersion::V1,
            None,
            crc32(names[i]),
            i as u32,
            start,
            size,
        ),
        start + size <= out.len(),
        out.subrange(start as int, start + size) == cs[i],
    ensures
        spec_record_to_file(out, opts, valid_name_views(names), i, p) == built_files(names, cs)[i],
{
    let rb = spec_record_bytes(MegVersion::V1, None, crc32(names[i]), i as u32, start, size);
    assert(rb.subrange(0, 4) =~= u32_le_bytes(crc32(names[i])));
    assert(rb.subrange(4, 8) =~= u32_le_bytes(i as u32));
    assert(rb.subrange(8, 12) =~= u32_le_bytes(size));
    assert(rb.subrange(12, 16) =~= u32_le_bytes(start));
    assert(rb.subrange(16, 20) =~= u32_le_bytes(i as u32));
    lemma_read_u32_in(out, p, rb, 0, crc32(names[i]));
    lemma_read_u32_in(out, p, rb, 4, i as u32);
    lemma_read_u32_in(out, p, rb, 8, size);
    lemma_read_u32_in(out, p, rb, 12, start);
    lemma_read_u32_in(out, p, rb, 16, i as u32);
    assert(valid_name_views(names)[i] == NameView { raw: names[i], valid: true });
}

/// The facts about a built V1 file that parsing its records relies on.
#[verifier::opaque]
pub open spec fn v1_layout_facts(
    out: Seq<u8>,
    base: int,
    names: Seq<Seq<u8>>,
    cs: Seq<Seq<u8>>,
    l: LayoutView,
) -> bool {
    &&& names.len() <= u32::MAX
    &&& cs.len() == names.len()
    &&& l.starts.len() == names.len()
    &&& l.sizes.len() == names.len()
    &&& forall|j: int|
        0 <= j < cs.len() ==> (#[trigger] cs[j]).len() == l.sizes[j] && l.starts[j] == l.files_end
            + spec_data_bytes(None, cs.subrange(0, j)).len()
    &&& 0 <= base
    &&& base + spec_records_bytes(MegVersion::V1, None, names, l.starts, l.sizes, names.len() as int).len()
        <= out.len()
    &&& out.subrange(
        base,
        base + spec_records_bytes(MegVersion::V1, None, names, l.starts, l.sizes, names.len() as int).len(),
    ) == spec_records_bytes(MegVersion::V1, None, names, l.starts, l.sizes, names.len() as int)
    &&& l.files_end + spec_data_bytes(None, cs).len() <= out.len()
    &&& out.subrange(l.files_end as int, l.files_end + spec_data_bytes(None, cs).len())
        == spec_data_bytes(None, cs)
}

/// The record `i` of a built V1 file parses to its file.
#[verifier::spinoff_prover]
proof fn lemma_parse_record_at(
    out: Seq<u8>,
    base: int,
    names: Seq<Seq<u8>>,
    cs: Seq<Seq<u8>>,
    l: LayoutView,
    i: int,
    opts: ParseOptionsView,
)
    requires
        0 <= i < names.len(),
        v1_layout_facts(out, base, names, cs, l),
    ensures
        spec_record_to_file(out, opts, valid_name_views(names), i, base + 20 * i) == built_files(
            names,
            cs,
        )[i],
{
    reveal(v1_layout_facts);
    lemma_v1_record_window(out, base, names, l, i);
    lemma_plain_file_window(cs, i, out, l.files_end as int);
    lemma_parse_record(out, base + 20 * i, names, cs, i, l.starts[i], l.sizes[i], opts);
}

/// The record `i` of a file table of V1 records laid out at `base`.
#[verifier::spinoff_prover]
proof fn lemma_v1_record_window(out: Seq<u8>, base: int, names: Seq<Seq<u8>>, l: LayoutView, i: int)
    requires
        0 <= i < names.len(),
        0 <= base,
        base + spec_records_bytes(MegVersion::V1, None, names, l.starts, l.sizes, names.len() as int).len()
            <= out.len(),
        out.subrange(
            base,
            base + spec_records_bytes(MegVersion::V1, None, names, l.starts, l.sizes, names.len() as int).len(),
        ) == spec_records_bytes(MegVersion::V1, None, names, l.starts, l.sizes, names.len() as int),
    ensures
        base + 20 * i + 20 <= out.len(),
        out.subrange(base + 20 * i, base + 20 * i + 20) == spec_record_bytes(
            MegVersion::V1,
            None,
            crc32(names[i]),
            i as u32,
            l.starts[i],
            l.sizes[i],
        ),
{
    let n = names.len() as int;
    lemma_records_layout(MegVersion::V1, None, names, l.starts, l.sizes, n);
    let all = spec_records_bytes(MegVersion::V1, None, names, l.starts, l.sizes, n);
    let rs = spec_file_record_size(MegVersion::V1, false) as int;
    assert(rs == 20);
    assert(all.subrange(i * rs, i * rs + rs) == spec_record_bytes(
        MegVersion::V1,
        None,
        crc32(names[i]),
        i as u32,
        l.starts[i],
        l.sizes[i],
    ));
    assert(0 <= 20 * i && 20 * i + 20 <= 20 * n);
    lemma_window(out, base, all, 20 * i, 20 * i + 20);
}

/// The records of a built V1 file from index `i` on parse to their files.
#[verifier::spinoff_prover]
#[verifier::rlimit(60)]
proof fn lemma_parse_records(
    out: Seq<u8>,
    base: int,
    names: Seq<Seq<u8>>,
    cs: Seq<Seq<u8>>,
    l: LayoutView,
    i: int,
    opts: ParseOptionsView,
)
    requires
        0 <= i <= names.len(),
        v1_layout_facts(out, base, names, cs, l),
    ensures
        crate::parser::spec_results_from(
            out,
            opts,
            valid_name_views(names),
            base,
            i,
            names.len() as int,
        ) == built_files(names, cs).subrange(i, names.len() as int),
    decreases names.len() - i,
{
    let n = names.len() as int;
    if i < n {
        lemma_parse_records(out, base, names, cs, l, i + 1, opts);
        lemma_parse_record_at(out, base, names, cs, l, i, opts);
        assert(built_files(names, cs).subrange(i, n) =~= seq![built_files(names, cs)[i]]
            + built_files(names, cs).subrange(i + 1, n));
    } else {
        assert(built_files(names, cs).subrange(i, n) =~= Seq::<Result<FileView, MegParseError>>::empty());
    }
}

/// What the V1 builder writes, the zero-copy parser reads back: one file per built file, in the
/// builder's order, each with its name as raw name and path, and its contents, complete; given
/// options that check name lengths only where no name exceeds 260 bytes.
#[verifier::spinoff_prover]
#[verifier::rlimit(50)]
pub proof fn lemma_build_parses_back(
    names: Seq<Seq<u8>>,
    limit: u16,
    cs: Seq<Seq<u8>>,
    out: Seq<u8>,
    opts: ParseOptionsView,
)
    requires
        forall|j: int| 0 <= j < names.len() ==> valid_path(#[trigger] names[j]),
        cs.len() == names.len(),
        spec_build(MegVersion::V1, None, names, limit, content_lens(cs), cs) == Ok::<
            Seq<u8>,
            BuildMegError,
        >(out),
        parse_options_fit(names, opts),
    ensures
        spec_parse_results(out, opts) == built_files(names, cs),
{
    lemma_build_parts(MegVersion::V1, None, names, limit, cs, out);
    let l = spec_layout(MegVersion::V1, false, names, limit, content_lens(cs))->Ok_0;
    let n = names.len() as int;
    let hb = spec_header_bytes(MegVersion::V1, false, n as u32, l.files_end, l.names_len);
    let nb = spec_names_bytes(None, names);
    assert(hb.subrange(0, 4) =~= u32_le_bytes(n as u32));
    assert(hb.subrange(4, 8) =~= u32_le_bytes(n as u32));
    lemma_read_u32_in(out, 0, hb, 0, n as u32);
    lemma_read_u32_in(out, 0, hb, 4, n as u32);
    assert(names.subrange(0, 0) =~= Seq::<Seq<u8>>::empty());
    assert(valid_name_views(names.subrange(0, 0)) =~= Seq::<NameView>::empty());
    lemma_parse_names(out, 8, names, 0, opts);
    assert(v1_layout_facts(out, (8 + nb.len()) as int, names, cs, l)) by {
        reveal(v1_layout_facts);
    }
    lemma_parse_records(out, (8 + nb.len()) as int, names, cs, l, 0, opts);
    assert(built_files(names, cs).subrange(0, n) =~= built_files(names, cs));
}


/// The header the writer produces.
pub open spec fn built_header(v: MegVersion, encrypted: bool, n: u32, files_end: u32, names_len: u32) -> MegHeader {
    MegHeader {
        version: v,
        encrypted: encrypted && v == MegVersion::V3,
        data_start: if v == MegVersion::V1 {
            0
        } else {
            files_end
        },
        num_filenames: n,
        num_files: n,
        filenames_size: if v == MegVersion::V3 {
            names_len
        } else {
            0
        },
    }
}

/// A written header reads back.
proof fn lemma_read_header(
    buf: Seq<u8>,
    v: MegVersion,
    encrypted: bool,
    n: u32,
    files_end: u32,
    names_len: u32,
    has_key: bool,
)
    requires
        encrypted ==> v == MegVersion::V3 && has_key,
        spec_header_bytes(v, encrypted, n, files_end, names_len).len() <= buf.len(),
        buf.subrange(0, spec_header_bytes(v, encrypted, n, files_end, names_len).len() as int)
            == spec_header_bytes(v, encrypted, n, files_end, names_len),
    ensures
        spec_header_bytes(v, encrypted, n, files_end, names_len).len() == spec_header_size(v),
        spec_read_header(Some(v), buf, has_key) == Ok::<(MegHeader, int), crate::reader::MegReadError>(
            (built_header(v, encrypted, n, files_end, names_len), spec_header_size(v) as int),
        ),
{
    let hb = spec_header_bytes(v, encrypted, n, files_end, names_len);
    match v {
        MegVersion::V1 => {
            assert(hb.subrange(0, 4) =~= u32_le_bytes(n));
            assert(hb.subrange(4, 8) =~= u32_le_bytes(n));
            lemma_read_u32_in(buf, 0, hb, 0, n);
            lemma_read_u32_in(buf, 0, hb, 4, n);
        },
        MegVersion::V2 => {
            assert(hb.subrange(0, 4) =~= u32_le_bytes(ID_PLAIN));
            assert(hb.subrange(4, 8) =~= u32_le_bytes(ID2));
            assert(hb.subrange(8, 12) =~= u32_le_bytes(files_end));
            assert(hb.subrange(12, 16) =~= u32_le_bytes(n));
            assert(hb.subrange(16, 20) =~= u32_le_bytes(n));
            lemma_read_u32_in(buf, 0, hb, 0, ID_PLAIN);
            lemma_read_u32_in(buf, 0, hb, 4, ID2);
            lemma_read_u32_in(buf, 0, hb, 8, files_end);
            lemma_read_u32_in(buf, 0, hb, 12, n);
            lemma_read_u32_in(buf, 0, hb, 16, n);
        },
        MegVersion::V3 => {
            let flags = if encrypted {
                ID_ENCRYPTED
            } else {
                ID_PLAIN
            };
            assert(hb.subrange(0, 4) =~= u32_le_bytes(flags));
            assert(hb.subrange(4, 8) =~= u32_le_bytes(ID2));
            assert(hb.subrange(8, 12) =~= u32_le_bytes(files_end));
            assert(hb.subrange(12, 16) =~= u32_le_bytes(n));
            assert(hb.subrange(16, 20) =~= u32_le_bytes(n));
            assert(hb.subrange(20, 24) =~= u32_le_bytes(names_len));
            lemma_read_u32_in(buf, 0, hb, 0, flags);
            lemma_read_u32_in(buf, 0, hb, 4, ID2);
            lemma_read_u32_in(buf, 0, hb, 8, files_end);
            lemma_read_u32_in(buf, 0, hb, 12, n);
            lemma_read_u32_in(buf, 0, hb, 16, n);
            lemma_read_u32_in(buf, 0, hb, 20, names_len);
        },
    }
}

} // verus!
