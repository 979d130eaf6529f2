use crate::error::ParseError;
use crate::pool::{
    is_utf8_flag, spec_entry, spec_header, spec_offsets, spec_read_pool, spec_utf8_entry,
    utf8_decode, ChunkHeader, PoolModel, StringPoolHeader,
};
use crate::stream::u32_at;
use vstd::prelude::*;

verus! {

/// The UTF-8 encoding of the characters. Names the result of
/// `str::as_bytes`.
pub uninterp spec fn utf8_encode(s: Seq<char>) -> Seq<u8>;

/// Relies on `str::as_bytes`: the result is the UTF-8 encoding of the
/// string's characters, and `String::from_utf8` decodes it back to exactly
/// those characters (std documents the two as inverses).
#[verifier::external_body]
fn string_to_utf8(s: &String) -> (r: Vec<u8>)
    ensures
        r@ == utf8_encode(s@),
        utf8_decode(r@) == Some(s@),
{
    s.as_bytes().to_vec()
}

/// The four little-endian bytes of `v`.
pub open spec fn u32_le(v: u32) -> Seq<u8> {
    seq![
        (v % 0x100) as u8,
        ((v / 0x100) % 0x100) as u8,
        ((v / 0x10000) % 0x100) as u8,
        ((v / 0x1000000) % 0x100) as u8,
    ]
}

/// Byte offset of entry `i` within the string-data region: entries lie
/// back to back, each three bytes of framing plus its content.
pub open spec fn spec_entry_offset(encs: Seq<Seq<u8>>, i: int) -> int
    decreases i,
{
    if i <= 0 {
        0
    } else {
        spec_entry_offset(encs, i - 1) + 3 + encs[i - 1].len()
    }
}

/// One laid-out UTF-8 entry: legacy byte, length byte, content, terminator.
pub open spec fn spec_entry_bytes(enc: Seq<u8>) -> Seq<u8> {
    seq![0u8, enc.len() as u8] + enc + seq![0u8]
}

/// The offset table for entries `i..`, one 32-bit little-endian offset
/// each.
pub open spec fn spec_table_bytes(encs: Seq<Seq<u8>>, i: int) -> Seq<u8>
    decreases encs.len() - i,
{
    if i < 0 || i >= encs.len() {
        Seq::empty()
    } else {
        u32_le(spec_entry_offset(encs, i) as u32) + spec_table_bytes(encs, i + 1)
    }
}

/// The string-data region for entries `i..`, laid back to back.
pub open spec fn spec_data_bytes(encs: Seq<Seq<u8>>, i: int) -> Seq<u8>
    decreases encs.len() - i,
{
    if i < 0 || i >= encs.len() {
        Seq::empty()
    } else {
        spec_entry_bytes(encs[i]) + spec_data_bytes(encs, i + 1)
    }
}

/// The five header fields of a UTF-8 pool chunk holding these encodings.
pub open spec fn spec_header_bytes(encs: Seq<Seq<u8>>) -> Seq<u8> {
    u32_le(encs.len() as u32) + u32_le(0) + u32_le(0x100) + u32_le((20 + 4 * encs.len()) as u32)
        + u32_le(0)
}

/// Total byte size of a UTF-8 pool chunk holding these encodings.
pub open spec fn spec_pool_total(encs: Seq<Seq<u8>>) -> int {
    20 + 4 * encs.len() + spec_entry_offset(encs, encs.len() as int)
}

/// A whole UTF-8 pool chunk: header, offset table, string data.
pub open spec fn spec_pool_bytes(encs: Seq<Seq<u8>>) -> Seq<u8> {
    spec_header_bytes(encs) + spec_table_bytes(encs, 0) + spec_data_bytes(encs, 0)
}

/// Whether these encodings fit the short layout: every entry's content at
/// most 127 bytes, and the whole chunk within the 32-bit size field.
pub open spec fn spec_encodable(encs: Seq<Seq<u8>>) -> bool {
    (forall|i: int| 0 <= i < encs.len() ==> (#[trigger] encs[i]).len() <= 127)
        && spec_pool_total(encs) <= u32::MAX
}

/// Entry offsets never decrease and start at zero.
proof fn lemma_entry_offset_mono(encs: Seq<Seq<u8>>, i: int, j: int)
    requires
        i <= j,
    ensures
        spec_entry_offset(encs, i) <= spec_entry_offset(encs, j),
        spec_entry_offset(encs, i) >= 0,
    decreases j - i, (if i >= 0 { i } else { 0 }),
{
    if i < j {
        lemma_entry_offset_mono(encs, i, j - 1);
    } else if i > 0 {
        lemma_entry_offset_mono(encs, i - 1, i - 1);
    }
}

/// Length of the offset table for entries `i..`.
proof fn lemma_table_len(encs: Seq<Seq<u8>>, i: int)
    requires
        0 <= i <= encs.len(),
    ensures
        spec_table_bytes(encs, i).len() == 4 * (encs.len() - i),
    decreases encs.len() - i,
{
    if i < encs.len() {
        lemma_table_len(encs, i + 1);
    }
}

/// Length of the string-data region for entries `i..`.
proof fn lemma_data_len(encs: Seq<Seq<u8>>, i: int)
    requires
        0 <= i <= encs.len(),
    ensures
        spec_data_bytes(encs, i).len() == spec_entry_offset(encs, encs.len() as int)
            - spec_entry_offset(encs, i),
    decreases encs.len() - i,
{
    if i < encs.len() {
        lemma_data_len(encs, i + 1);
    }
}

/// The bytes a little-endian 32-bit write leaves reassemble to the value.
proof fn lemma_u32_le_at(d: Seq<u8>, i: int, v: u32)
    requires
        0 <= i,
        i + 4 <= d.len(),
        d.subrange(i, i + 4) == u32_le(v),
    ensures
        u32_at(d, i) == v,
{
    assert(d[i] == u32_le(v)[0]);
    assert(d[i + 1] == u32_le(v)[1]);
    assert(d[i + 2] == u32_le(v)[2]);
    assert(d[i + 3] == u32_le(v)[3]);
    assert(v % 0x100 + ((v / 0x100) % 0x100) * 0x100 + ((v / 0x10000) % 0x100) * 0x10000 + ((v
        / 0x1000000) % 0x100) * 0x1000000 == v) by (bit_vector);
}

/// Within the offset table for entries `i..`, the four bytes of slot `k`
/// hold entry `k`'s offset.
proof fn lemma_table_at(encs: Seq<Seq<u8>>, i: int, k: int)
    requires
        0 <= i <= k < encs.len(),
    ensures
        spec_table_bytes(encs, i).subrange(4 * (k - i), 4 * (k - i) + 4) == u32_le(
            spec_entry_offset(encs, k) as u32,
        ),
    decreases k - i,
{
    lemma_table_len(encs, i);
    lemma_table_len(encs, i + 1);
    if i == k {
        assert(spec_table_bytes(encs, i).subrange(0, 4) =~= u32_le(
            spec_entry_offset(encs, i) as u32,
        ));
    } else {
        lemma_table_at(encs, i + 1, k);
        assert(spec_table_bytes(encs, i).subrange(4 * (k - i), 4 * (k - i) + 4) =~= spec_table_bytes(
            encs,
            i + 1,
        ).subrange(4 * (k - i - 1), 4 * (k - i - 1) + 4));
    }
}

/// Within the string-data region for entries `i..`, entry `k`'s bytes lie
/// at its offset, relative to entry `i`'s.
proof fn lemma_data_at(encs: Seq<Seq<u8>>, i: int, k: int)
    requires
        0 <= i <= k < encs.len(),
    ensures
        spec_data_bytes(encs, i).subrange(
            spec_entry_offset(encs, k) - spec_entry_offset(encs, i),
            spec_entry_offset(encs, k) - spec_entry_offset(encs, i) + 3 + encs[k].len(),
        ) == spec_entry_bytes(encs[k]),
    decreases k - i,
{
    lemma_data_len(encs, i);
    lemma_data_len(encs, i + 1);
    lemma_entry_offset_mono(encs, i, k);
    lemma_entry_offset_mono(encs, k, k + 1);
    lemma_entry_offset_mono(encs, k + 1, encs.len() as int);
    if i == k {
        assert(spec_data_bytes(encs, i).subrange(0, 3 + encs[i].len() as int) =~= spec_entry_bytes(
            encs[i],
        ));
    } else {
        lemma_data_at(encs, i + 1, k);
        lemma_entry_offset_mono(encs, i, i + 1);
        lemma_entry_offset_mono(encs, i + 1, k);
        assert(spec_data_bytes(encs, i).subrange(
            spec_entry_offset(encs, k) - spec_entry_offset(encs, i),
            spec_entry_offset(encs, k) - spec_entry_offset(encs, i) + 3 + encs[k].len(),
        ) =~= spec_data_bytes(encs, i + 1).subrange(
            spec_entry_offset(encs, k) - spec_entry_offset(encs, i + 1),
            spec_entry_offset(encs, k) - spec_entry_offset(encs, i + 1) + 3 + encs[k].len(),
        ));
    }
}

/// The three regions of a laid-out pool chunk, by their byte ranges.
proof fn lemma_pool_bytes_structure(encs: Seq<Seq<u8>>)
    ensures
        spec_pool_bytes(encs).len() == spec_pool_total(encs),
        spec_pool_bytes(encs).subrange(0, 20) == spec_header_bytes(encs),
        spec_pool_bytes(encs).subrange(20, 20 + 4 * encs.len() as int) == spec_table_bytes(encs, 0),
        spec_pool_bytes(encs).subrange(
            20 + 4 * encs.len() as int,
            spec_pool_total(encs),
        ) == spec_data_bytes(encs, 0),
{
    lemma_table_len(encs, 0);
    lemma_data_len(encs, 0);
    lemma_entry_offset_mono(encs, 0, encs.len() as int);
    assert(spec_header_bytes(encs).len() == 20);
    assert(spec_pool_bytes(encs).subrange(0, 20) =~= spec_header_bytes(encs));
    assert(spec_pool_bytes(encs).subrange(20, 20 + 4 * encs.len() as int) =~= spec_table_bytes(encs, 0));
    assert(spec_pool_bytes(encs).subrange(20 + 4 * encs.len() as int, spec_pool_total(encs))
        =~= spec_data_bytes(encs, 0));
}

/// The header a laid-out UTF-8 pool chunk decodes to.
pub open spec fn spec_encoded_header(encs: Seq<Seq<u8>>) -> StringPoolHeader {
    StringPoolHeader {
        chunk_header: ChunkHeader { size: spec_pool_total(encs) as u32 },
        string_count: encs.len() as u32,
        style_count: 0,
        flags: 0x100,
        string_start: (20 + 4 * encs.len()) as u32,
        style_start: 0,
    }
}

/// Round trip: a pool chunk laid out from UTF-8 encodings of the given
/// strings decodes back to exactly those strings, and the decode ends at
/// the chunk's declared size. Holds for strings whose encodings fit the
/// short length form.
#[verifier::rlimit(80)]
pub proof fn lemma_utf8_round_trip(encs: Seq<Seq<u8>>, strs: Seq<Seq<char>>)
    requires
        encs.len() == strs.len(),
        forall|i: int| 0 <= i < encs.len() ==> utf8_decode(#[trigger] encs[i]) == Some(strs[i]),
        forall|i: int| 0 <= i < encs.len() ==> (#[trigger] encs[i]).len() <= 127,
        spec_pool_total(encs) <= u32::MAX,
    ensures
        spec_read_pool(
            spec_pool_bytes(encs),
            0,
            (ChunkHeader { size: spec_pool_total(encs) as u32 }),
        ) == Ok::<PoolModel, ParseError>(
            (PoolModel {
                header: spec_encoded_header(encs),
                strings: strs,
                end: spec_pool_total(encs),
            }),
        ),
{
    let n = encs.len() as int;
    let b = spec_pool_bytes(encs);
    let t = spec_pool_total(encs);
    let ch = ChunkHeader { size: t as u32 };
    let hb = spec_header_bytes(encs);
    let sds = 20 + 4 * n;
    lemma_pool_bytes_structure(encs);
    lemma_entry_offset_mono(encs, 0, n);
    assert(b.len() == t);
    assert(20 + 4 * n <= t);

    // The five header fields read back as written.
    assert(hb.subrange(0, 4) =~= u32_le(encs.len() as u32));
    assert(hb.subrange(4, 8) =~= u32_le(0));
    assert(hb.subrange(8, 12) =~= u32_le(0x100));
    assert(hb.subrange(12, 16) =~= u32_le((20 + 4 * encs.len()) as u32));
    assert(hb.subrange(16, 20) =~= u32_le(0));
    assert(b.subrange(0, 4) =~= hb.subrange(0, 4));
    assert(b.subrange(4, 8) =~= hb.subrange(4, 8));
    assert(b.subrange(8, 12) =~= hb.subrange(8, 12));
    assert(b.subrange(12, 16) =~= hb.subrange(12, 16));
    assert(b.subrange(16, 20) =~= hb.subrange(16, 20));
    lemma_u32_le_at(b, 0, encs.len() as u32);
    lemma_u32_le_at(b, 4, 0);
    lemma_u32_le_at(b, 8, 0x100);
    lemma_u32_le_at(b, 12, (20 + 4 * encs.len()) as u32);
    lemma_u32_le_at(b, 16, 0);
    let h = spec_header(b, 0, ch);
    assert(h == spec_encoded_header(encs));
    assert(h.string_count as int == n);
    assert(h.string_start as int == sds);
    assert(is_utf8_flag(0x100)) by (bit_vector);

    // The offset table reads back as written.
    let offs = spec_offsets(b, 20, n);
    assert forall|k: int| 0 <= k < n implies offs[k] == spec_entry_offset(encs, k) as u32 by {
        lemma_table_at(encs, 0, k);
        lemma_table_len(encs, 0);
        assert(b.subrange(20 + 4 * k, 20 + 4 * k + 4) =~= spec_table_bytes(encs, 0).subrange(
            4 * k,
            4 * k + 4,
        ));
        lemma_entry_offset_mono(encs, k, n);
        lemma_u32_le_at(b, 20 + 4 * k, spec_entry_offset(encs, k) as u32);
    }

    // Each entry decodes, at its offset, to its string.
    assert forall|k: int| 0 <= k < n implies spec_entry(b, sds, offs[k], true) == Ok::<
        Seq<char>,
        ParseError,
    >(strs[k]) by {
        lemma_entry_offset_mono(encs, 0, k);
        lemma_entry_offset_mono(encs, k + 1, n);
        lemma_data_at(encs, 0, k);
        let off = spec_entry_offset(encs, k);
        let len = encs[k].len() as int;
        assert(off + 3 + len == spec_entry_offset(encs, k + 1));
        let p = sds + off;
        assert(p + 3 + len <= t);
        assert(b.subrange(p, p + 3 + len) =~= spec_data_bytes(encs, 0).subrange(
            off,
            off + 3 + len,
        ));
        assert(b[p + 1] == spec_entry_bytes(encs[k])[1]);
        assert(b[p + 1] == len as u8);
        assert(b[p + 1] < 0x80);
        assert forall|m: int| 0 <= m < len implies b[p + 2 + m] == encs[k][m] by {
            assert(b.subrange(p, p + 3 + len)[2 + m] == spec_entry_bytes(encs[k])[2 + m]);
            assert(spec_entry_bytes(encs[k])[2 + m] == encs[k][m]);
        }
        assert(b.subrange(p + 2, p + 2 + b[p + 1]) =~= encs[k]);
        assert(spec_utf8_entry(b, p) == Ok::<Seq<char>, ParseError>(strs[k]));
        assert(offs[k] == off as u32);
        assert(sds + offs[k] == p);
    }
    crate::pool::lemma_strings_ok_from(b, sds, offs, true, strs, 0);
}

/// Each entry takes at least its three framing bytes, so offsets grow at
/// least three per entry.
proof fn lemma_entry_offset_lower(encs: Seq<Seq<u8>>, i: int)
    requires
        0 <= i,
    ensures
        spec_entry_offset(encs, i) >= 3 * i,
    decreases i,
{
    if i > 0 {
        lemma_entry_offset_lower(encs, i - 1);
    }
}

/// Appends the four little-endian bytes of `v`.
fn write_u32(out: &mut Vec<u8>, v: u32)
    ensures
        final(out)@ == old(out)@ + u32_le(v),
{
    out.push((v % 0x100) as u8);
    out.push(((v / 0x100) % 0x100) as u8);
    out.push(((v / 0x10000) % 0x100) as u8);
    out.push(((v / 0x1000000) % 0x100) as u8);
    proof {
        assert(out@ =~= old(out)@ + u32_le(v));
    }
}

/// Appends a copy of `b`.
fn push_bytes(out: &mut Vec<u8>, b: &Vec<u8>)
    ensures
        final(out)@ == old(out)@ + b@,
{
    let mut j: usize = 0;
    while j < b.len()
        invariant
            j <= b@.len(),
            out@ == old(out)@ + b@.subrange(0, j as int),
        decreases b@.len() - j,
    {
        out.push(b[j]);
        j = j + 1;
        proof {
            assert(out@ =~= old(out)@ + b@.subrange(0, j as int));
        }
    }
    proof {
        assert(out@ =~= old(out)@ + b@);
    }
}

/// Lays the strings out as a UTF-8 string-pool chunk — header, offset
/// table, string data — together with a chunk descriptor declaring its
/// total size. Returns nothing exactly when the layout does not fit: some
/// string's UTF-8 encoding exceeds the short length form (127 bytes), or
/// the whole chunk would exceed the 32-bit size field.
pub fn encode_utf8_pool(strings: &Vec<String>) -> (r: Option<(ChunkHeader, Vec<u8>)>)
    ensures
        r is Some <==> spec_encodable(strings@.map_values(|s: String| utf8_encode(s@))),
        r matches Some(out) ==> ({
            let encs = strings@.map_values(|s: String| utf8_encode(s@));
            &&& out.0 == (ChunkHeader { size: spec_pool_total(encs) as u32 })
            &&& out.1@ == spec_pool_bytes(encs)
            &&& spec_read_pool(out.1@, 0, out.0) == Ok::<PoolModel, ParseError>(
                (PoolModel {
                    header: spec_encoded_header(encs),
                    strings: strings@.map_values(|s: String| s@),
                    end: spec_pool_total(encs),
                }),
            )
        }),
{
    let ghost encs_full = strings@.map_values(|s: String| utf8_encode(s@));
    let n = strings.len();

    let mut encs: Vec<Vec<u8>> = Vec::new();
    let mut k: usize = 0;
    while k < n
        invariant
            k <= n,
            n == strings@.len(),
            encs_full == strings@.map_values(|s: String| utf8_encode(s@)),
            encs@.len() == k as int,
            forall|j: int| 0 <= j < k as int ==> encs@[j]@ == encs_full[j],
            forall|j: int| 0 <= j < k as int ==> utf8_decode(#[trigger] encs_full[j]) == Some(
                strings@[j]@,
            ),
            forall|j: int| 0 <= j < k as int ==> (#[trigger] encs_full[j]).len() <= 127,
        decreases n - k,
    {
        let b = string_to_utf8(&strings[k]);
        if b.len() > 127 {
            proof {
                assert(encs_full[k as int].len() > 127);
            }
            return None;
        }
        encs.push(b);
        k = k + 1;
    }

    // The smallest possible chunk spends seven bytes per string (a
    // four-byte offset and three framing bytes), so past this count no
    // chunk fits the 32-bit size field.
    if n > 613_566_756 {
        proof {
            lemma_entry_offset_lower(encs_full, encs_full.len() as int);
        }
        return None;
    }

    let mut total: u64 = 20;
    let mut k: usize = 0;
    while k < n
        invariant
            k <= n,
            n == strings@.len(),
            n <= 613_566_756,
            encs_full == strings@.map_values(|s: String| utf8_encode(s@)),
            encs@.len() == n as int,
            forall|j: int| 0 <= j < n as int ==> encs@[j]@ == encs_full[j],
            forall|j: int| 0 <= j < n as int ==> (#[trigger] encs_full[j]).len() <= 127,
            total as int == 20 + 4 * (k as int) + spec_entry_offset(encs_full, k as int),
            total <= 20 + 134 * (k as u64),
        decreases n - k,
    {
        let len_k = encs[k].len();
        proof {
            assert(encs@[k as int]@ == encs_full[k as int]);
            assert(len_k <= 127);
            assert(total as int + 7 + len_k as int <= 20 + 134 * (k as int + 1));
            assert(134 * (k as int + 1) <= 134 * 613_566_756) by (nonlinear_arith)
                requires
                    k as int + 1 <= 613_566_756,
            ;
        }
        total = total + 7 + len_k as u64;
        k = k + 1;
    }
    if total > 0xFFFF_FFFF {
        return None;
    }
    proof {
        assert(total as int == spec_pool_total(encs_full));
    }

    let ghost b_full = spec_pool_bytes(encs_full);
    proof {
        lemma_pool_bytes_structure(encs_full);
    }
    let n32 = n as u32;
    let string_start32 = 20 + 4 * n32;
    let mut out: Vec<u8> = Vec::new();
    write_u32(&mut out, n32);
    write_u32(&mut out, 0);
    write_u32(&mut out, 0x100);
    write_u32(&mut out, string_start32);
    write_u32(&mut out, 0);
    proof {
        assert(out@ =~= spec_header_bytes(encs_full));
        assert(out@ =~= b_full.subrange(0, 20));
    }

    let mut off_acc: u32 = 0;
    let mut k: usize = 0;
    while k < n
        invariant
            k <= n,
            n == strings@.len(),
            encs_full == strings@.map_values(|s: String| utf8_encode(s@)),
            encs@.len() == n as int,
            forall|j: int| 0 <= j < n as int ==> encs@[j]@ == encs_full[j],
            forall|j: int| 0 <= j < n as int ==> (#[trigger] encs_full[j]).len() <= 127,
            spec_pool_total(encs_full) <= u32::MAX,
            b_full == spec_pool_bytes(encs_full),
            b_full.len() == spec_pool_total(encs_full),
            out@ == b_full.subrange(0, 20 + 4 * (k as int)),
            off_acc as int == spec_entry_offset(encs_full, k as int),
        decreases n - k,
    {
        proof {
            lemma_table_at(encs_full, 0, k as int);
            lemma_table_len(encs_full, 0);
            lemma_pool_bytes_structure(encs_full);
            lemma_entry_offset_mono(encs_full, k as int + 1, n as int);
            assert(b_full.subrange(20 + 4 * (k as int), 20 + 4 * (k as int) + 4)
                =~= spec_table_bytes(encs_full, 0).subrange(4 * (k as int), 4 * (k as int) + 4));
        }
        write_u32(&mut out, off_acc);
        proof {
            assert(out@ =~= b_full.subrange(0, 20 + 4 * (k as int + 1)));
        }
        let len_k = encs[k].len();
        off_acc = off_acc + 3 + len_k as u32;
        k = k + 1;
    }

    let ghost sds = 20 + 4 * (n as int);
    let mut k: usize = 0;
    while k < n
        invariant
            k <= n,
            n == strings@.len(),
            sds == 20 + 4 * (n as int),
            encs_full == strings@.map_values(|s: String| utf8_encode(s@)),
            encs@.len() == n as int,
            forall|j: int| 0 <= j < n as int ==> encs@[j]@ == encs_full[j],
            forall|j: int| 0 <= j < n as int ==> (#[trigger] encs_full[j]).len() <= 127,
            spec_pool_total(encs_full) <= u32::MAX,
            b_full == spec_pool_bytes(encs_full),
            b_full.len() == spec_pool_total(encs_full),
            out@ == b_full.subrange(0, sds + spec_entry_offset(encs_full, k as int)),
        decreases n - k,
    {
        let ghost off_k = spec_entry_offset(encs_full, k as int);
        proof {
            lemma_data_at(encs_full, 0, k as int);
            lemma_data_len(encs_full, 0);
            lemma_pool_bytes_structure(encs_full);
            lemma_entry_offset_mono(encs_full, 0, k as int);
            lemma_entry_offset_mono(encs_full, k as int + 1, n as int);
            assert(b_full.subrange(sds + off_k, sds + off_k + 3 + encs_full[k as int].len())
                =~= spec_data_bytes(encs_full, 0).subrange(
                off_k,
                off_k + 3 + encs_full[k as int].len(),
            ));
        }
        out.push(0);
        let len_k = encs[k].len();
        out.push(len_k as u8);
        push_bytes(&mut out, &encs[k]);
        out.push(0);
        proof {
            assert(out@ =~= b_full.subrange(0, sds + off_k) + spec_entry_bytes(
                encs_full[k as int],
            ));
            assert(out@ =~= b_full.subrange(0, sds + spec_entry_offset(encs_full, k as int + 1)));
        }
        k = k + 1;
    }

    proof {
        assert(out@ =~= b_full);
        let strs = strings@.map_values(|s: String| s@);
        lemma_utf8_round_trip(encs_full, strs);
    }
    Some((ChunkHeader { size: total as u32 }, out))
}

} // verus!
