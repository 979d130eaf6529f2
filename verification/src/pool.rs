use crate::error::ParseError;
use crate::stream::{read_u16, read_u32, read_u8, u16_at, u32_at, Stream};
use std::rc::Rc;
use vstd::prelude::*;

verus! {

/// Byte size of the five fixed 32-bit header fields of a string pool.
pub const STRING_POOL_HEADER_SIZE: u32 = 20;

/// The generic chunk descriptor handed in by the surrounding container
/// scan. Only its declared total byte size is used here: it is what lets
/// the caller resume at the next sibling chunk.
#[derive(Debug, Clone, Copy, PartialEq, Eq, Structural)]
pub struct ChunkHeader {
    pub size: u32,
}

/// The fixed five-field header of a string-pool chunk, together with the
/// generic chunk descriptor it was read under.
#[derive(Debug, Clone, Copy, PartialEq, Eq, Structural)]
pub struct StringPoolHeader {
    pub chunk_header: ChunkHeader,
    pub string_count: u32,
    pub style_count: u32,
    pub flags: u32,
    pub string_start: u32,
    pub style_start: u32,
}

/// Flags bit 8 set selects UTF-8; clear selects UTF-16. The choice holds
/// for every string of the pool.
pub open spec fn is_utf8_flag(flags: u32) -> bool {
    flags & 0x100 != 0
}

/// The header whose five fields lie at `p`.
pub open spec fn spec_header(d: Seq<u8>, p: int, ch: ChunkHeader) -> StringPoolHeader {
    StringPoolHeader {
        chunk_header: ch,
        string_count: u32_at(d, p),
        style_count: u32_at(d, p + 4),
        flags: u32_at(d, p + 8),
        string_start: u32_at(d, p + 12),
        style_start: u32_at(d, p + 16),
    }
}

/// The characters that the bytes decode to as UTF-8, or nothing when they
/// are not valid UTF-8. Names the result of `String::from_utf8`.
pub uninterp spec fn utf8_decode(bytes: Seq<u8>) -> Option<Seq<char>>;

/// The characters that the code units decode to as UTF-16, or nothing when
/// they are not valid UTF-16. Names the result of `String::from_utf16`.
pub uninterp spec fn utf16_decode(units: Seq<u16>) -> Option<Seq<char>>;

/// Relies on `String::from_utf8`: returns the string exactly when the
/// bytes are valid UTF-8, its characters are a function of the bytes
/// alone, and no bytes decode to the empty string.
#[verifier::external_body]
fn utf8_to_string(bytes: Vec<u8>) -> (r: Option<String>)
    ensures
        match r {
            Some(s) => utf8_decode(bytes@) == Some(s@) && (bytes@.len() == 0 ==> s@ == Seq::<
                char,
            >::empty()),
            None => utf8_decode(bytes@) is None && bytes@.len() != 0,
        },
{
    String::from_utf8(bytes).ok()
}

/// Relies on `String::from_utf16`: returns the string exactly when the
/// code units are valid UTF-16, its characters are a function of the units
/// alone, and no units decode to the empty string.
#[verifier::external_body]
fn utf16_to_string(units: &Vec<u16>) -> (r: Option<String>)
    ensures
        match r {
            Some(s) => utf16_decode(units@) == Some(s@) && (units@.len() == 0 ==> s@ == Seq::<
                char,
            >::empty()),
            None => utf16_decode(units@) is None && units@.len() != 0,
        },
{
    String::from_utf16(units.as_slice()).ok()
}

/// Relies on `Rc::clone`: the returned handle refers to the same string
/// value; no content is copied.
#[verifier::external_body]
fn rc_clone(s: &Rc<String>) -> (r: Rc<String>)
    ensures
        r == *s,
{
    Rc::clone(s)
}

/// True when the high bit of a UTF-8 length byte is set, which selects the
/// extended length form this decoder does not support.
pub fn is_high_bit_set_8(input: u8) -> (r: bool)
    ensures
        r == (input >= 0x80),
{
    let r = input & (1u8 << 7) != 0;
    proof {
        assert((input & (1u8 << 7) != 0) == (input >= 0x80)) by (bit_vector);
    }
    r
}

/// True when the high bit of a UTF-16 length unit is set, which selects
/// the extended length form this decoder does not support.
pub fn is_high_bit_set_16(input: u16) -> (r: bool)
    ensures
        r == (input >= 0x8000),
{
    let r = input & (1u16 << 15) != 0;
    proof {
        assert((input & (1u16 << 15) != 0) == (input >= 0x8000)) by (bit_vector);
    }
    r
}

/// Outcome of decoding one UTF-8 entry at `p`: one legacy length byte
/// (skipped), one length byte, the raw bytes, one terminator byte.
pub open spec fn spec_utf8_entry(d: Seq<u8>, p: int) -> Result<Seq<char>, ParseError> {
    if p + 2 > d.len() {
        Err(ParseError::UnexpectedEof)
    } else if d[p + 1] >= 0x80 {
        Err(ParseError::UnsupportedExtendedLength)
    } else if p + 3 + d[p + 1] > d.len() {
        Err(ParseError::UnexpectedEof)
    } else {
        match utf8_decode(d.subrange(p + 2, p + 2 + d[p + 1])) {
            Some(s) => Ok(s),
            None => Err(ParseError::InvalidUtf8),
        }
    }
}

/// Cursor position just past a successfully decoded UTF-8 entry at `p`.
pub open spec fn spec_utf8_entry_end(d: Seq<u8>, p: int) -> int {
    p + 3 + d[p + 1]
}

/// The `n` 16-bit little-endian code units starting at `q`.
pub open spec fn spec_units_at(d: Seq<u8>, q: int, n: int) -> Seq<u16> {
    Seq::new(n as nat, |i: int| u16_at(d, q + 2 * i))
}

/// Outcome of decoding one UTF-16 entry at `p`: a 16-bit unit count, that
/// many code units, one terminator unit.
pub open spec fn spec_utf16_entry(d: Seq<u8>, p: int) -> Result<Seq<char>, ParseError> {
    if p + 2 > d.len() {
        Err(ParseError::UnexpectedEof)
    } else if u16_at(d, p) >= 0x8000 {
        Err(ParseError::UnsupportedExtendedLength)
    } else if p + 4 + 2 * u16_at(d, p) > d.len() {
        Err(ParseError::UnexpectedEof)
    } else {
        match utf16_decode(spec_units_at(d, p + 2, u16_at(d, p) as int)) {
            Some(s) => Ok(s),
            None => Err(ParseError::InvalidUtf16),
        }
    }
}

/// Cursor position just past a successfully decoded UTF-16 entry at `p`.
pub open spec fn spec_utf16_entry_end(d: Seq<u8>, p: int) -> int {
    p + 4 + 2 * u16_at(d, p)
}

/// Decodes one UTF-8 string entry at the cursor and leaves the cursor just
/// past its terminator byte.
pub fn parse_utf8_string(input: &mut Stream) -> (r: Result<String, ParseError>)
    ensures
        final(input).data@ == old(input).data@,
        match r {
            Ok(s) => spec_utf8_entry(old(input).data@, old(input).pos as int)
                == Ok::<Seq<char>, ParseError>(s@) && final(input).pos == spec_utf8_entry_end(
                old(input).data@,
                old(input).pos as int,
            ),
            Err(e) => spec_utf8_entry(old(input).data@, old(input).pos as int)
                == Err::<Seq<char>, ParseError>(e),
        },
        // A zero-length entry decodes to the empty string and still
        // consumes its legacy, length and terminator bytes.
        (old(input).pos + 3 <= old(input).data@.len() && old(input).data@[old(input).pos as int
            + 1] == 0) ==> (r matches Ok(s) && s@ == Seq::<char>::empty() && final(input).pos
            == old(input).pos + 3),
{
    let ghost d = input.data@;
    let ghost p0 = input.pos as int;
    let _legacy = read_u8(input)?;
    let len = read_u8(input)?;
    if is_high_bit_set_8(len) {
        return Err(ParseError::UnsupportedExtendedLength);
    }
    let n = len as usize;
    let mut bytes: Vec<u8> = Vec::new();
    let mut j: usize = 0;
    while j < n
        invariant
            j <= n,
            old(input).data@ == d,
            old(input).pos == p0,
            n == d[p0 + 1] as int,
            n < 0x80,
            p0 + 2 <= d.len(),
            input.data@ == d,
            input.pos == p0 + 2 + j,
            bytes@.len() == j as int,
            bytes@ == d.subrange(p0 + 2, p0 + 2 + j),
        decreases n - j,
    {
        let b = read_u8(input)?;
        bytes.push(b);
        j = j + 1;
        proof {
            assert(bytes@ =~= d.subrange(p0 + 2, p0 + 2 + j));
        }
    }
    let _terminator = read_u8(input)?;
    match utf8_to_string(bytes) {
        Some(s) => Ok(s),
        None => Err(ParseError::InvalidUtf8),
    }
}

/// Decodes one UTF-16 string entry at the cursor and leaves the cursor
/// just past its terminator unit.
pub fn parse_utf16_string(input: &mut Stream) -> (r: Result<String, ParseError>)
    ensures
        final(input).data@ == old(input).data@,
        match r {
            Ok(s) => spec_utf16_entry(old(input).data@, old(input).pos as int)
                == Ok::<Seq<char>, ParseError>(s@) && final(input).pos == spec_utf16_entry_end(
                old(input).data@,
                old(input).pos as int,
            ),
            Err(e) => spec_utf16_entry(old(input).data@, old(input).pos as int)
                == Err::<Seq<char>, ParseError>(e),
        },
        // A zero-length entry decodes to the empty string and still
        // consumes its length and terminator units.
        (old(input).pos + 4 <= old(input).data@.len() && u16_at(
            old(input).data@,
            old(input).pos as int,
        ) == 0) ==> (r matches Ok(s) && s@ == Seq::<char>::empty() && final(input).pos == old(
            input,
        ).pos + 4),
{
    let ghost d = input.data@;
    let ghost p0 = input.pos as int;
    let len = read_u16(input)?;
    if is_high_bit_set_16(len) {
        return Err(ParseError::UnsupportedExtendedLength);
    }
    let n = len as usize;
    let mut units: Vec<u16> = Vec::new();
    let mut j: usize = 0;
    while j < n
        invariant
            j <= n,
            old(input).data@ == d,
            old(input).pos == p0,
            n == u16_at(d, p0) as int,
            n < 0x8000,
            p0 + 2 <= d.len(),
            input.data@ == d,
            input.pos == p0 + 2 + 2 * j,
            units@.len() == j as int,
            forall|k: int| 0 <= k < j ==> units@[k] == u16_at(d, p0 + 2 + 2 * k),
        decreases n - j,
    {
        let u = read_u16(input)?;
        units.push(u);
        j = j + 1;
    }
    let _terminator = read_u16(input)?;
    proof {
        assert(units@ =~= spec_units_at(d, p0 + 2, n as int));
    }
    match utf16_to_string(&units) {
        Some(s) => Ok(s),
        None => Err(ParseError::InvalidUtf16),
    }
}

impl StringPoolHeader {
    /// Reads the five fixed 32-bit header fields at the cursor, leaving the
    /// cursor at the start of the offset table. Performs no semantic
    /// validation: count sanity and flag checks are the caller's.
    pub fn read_from_file(input: &mut Stream, chunk_header: &ChunkHeader) -> (r: Result<
        StringPoolHeader,
        ParseError,
    >)
        ensures
            final(input).data@ == old(input).data@,
            old(input).pos + STRING_POOL_HEADER_SIZE <= old(input).data@.len() ==> r == Ok::<
                StringPoolHeader,
                ParseError,
            >(spec_header(old(input).data@, old(input).pos as int, *chunk_header))
                && final(input).pos == old(input).pos + STRING_POOL_HEADER_SIZE,
            old(input).pos + STRING_POOL_HEADER_SIZE > old(input).data@.len() ==> r == Err::<
                StringPoolHeader,
                ParseError,
            >(ParseError::UnexpectedEof),
    {
        let chunk_header = chunk_header.clone();
        let string_count = read_u32(input)?;
        let style_count = read_u32(input)?;
        let flags = read_u32(input)?;

        let string_start = read_u32(input)?;
        let style_start = read_u32(input)?;

        let header = Self {
            chunk_header,
            string_count,
            style_count,
            flags,
            string_start,
            style_start,
        };

        Ok(header)
    }
}

/// Outcome of decoding the entry `off` bytes past the string-data region
/// start `sds`, under the pool-wide encoding choice. A position beyond
/// `usize` can never be read.
pub open spec fn spec_entry(d: Seq<u8>, sds: int, off: u32, is_utf8: bool) -> Result<
    Seq<char>,
    ParseError,
> {
    if sds + off > usize::MAX {
        Err(ParseError::UnexpectedEof)
    } else if is_utf8 {
        spec_utf8_entry(d, sds + off)
    } else {
        spec_utf16_entry(d, sds + off)
    }
}

/// The offset table: `n` 32-bit offsets starting at `p`, each a byte
/// distance from the start of the string-data region.
pub open spec fn spec_offsets(d: Seq<u8>, p: int, n: int) -> Seq<u32> {
    Seq::new(n as nat, |i: int| u32_at(d, p + 4 * i))
}

/// Outcome of decoding the entries `k..` in table order: their strings, or
/// the first failure. Entries are independent of one another: each offset
/// is absolute within the string-data region, not cumulative.
pub open spec fn spec_strings_from(
    d: Seq<u8>,
    sds: int,
    offs: Seq<u32>,
    is_utf8: bool,
    k: int,
) -> Result<Seq<Seq<char>>, ParseError>
    decreases offs.len() - k,
{
    if k < 0 || k >= offs.len() {
        Ok(Seq::empty())
    } else {
        match spec_entry(d, sds, offs[k], is_utf8) {
            Ok(s) => match spec_strings_from(d, sds, offs, is_utf8, k + 1) {
                Ok(rest) => Ok(seq![s] + rest),
                Err(e) => Err(e),
            },
            Err(e) => Err(e),
        }
    }
}

/// The mathematical outcome of a whole-pool decode: the header, the
/// decoded strings in table order, and the final cursor position.
pub struct PoolModel {
    pub header: StringPoolHeader,
    pub strings: Seq<Seq<char>>,
    pub end: int,
}

/// The whole-pool decode, stated over the bytes alone: the five-field
/// header at `p`, the offset table right after it, one string entry per
/// offset inside the region that `string_start` declares, and the cursor
/// left at the chunk's declared end `p + ch.size` whatever the strings
/// consumed.
pub open spec fn spec_read_pool(d: Seq<u8>, p: int, ch: ChunkHeader) -> Result<
    PoolModel,
    ParseError,
> {
    if p + 20 > d.len() {
        Err(ParseError::UnexpectedEof)
    } else {
        let h = spec_header(d, p, ch);
        if h.style_count != 0 {
            Err(ParseError::NonZeroStyleCount)
        } else if p + 20 + 4 * h.string_count > d.len() {
            Err(ParseError::UnexpectedEof)
        } else if h.string_start < 20 {
            Err(ParseError::InvalidLayout)
        } else if p + h.string_start > usize::MAX {
            Err(ParseError::UnexpectedEof)
        } else {
            let offs = spec_offsets(d, p + 20, h.string_count as int);
            match spec_strings_from(d, p + h.string_start, offs, is_utf8_flag(h.flags), 0) {
                Ok(ss) => if ch.size < 20 {
                    Err(ParseError::InvalidLayout)
                } else if p + ch.size > usize::MAX {
                    Err(ParseError::UnexpectedEof)
                } else {
                    Ok(PoolModel { header: h, strings: ss, end: p + ch.size })
                },
                Err(e) => Err(e),
            }
        }
    }
}

/// When the entries before `k` decode and entry `k` fails, the whole table
/// from `i` on fails with entry `k`'s error.
proof fn lemma_strings_err_from(
    d: Seq<u8>,
    sds: int,
    offs: Seq<u32>,
    is_utf8: bool,
    i: int,
    k: int,
    e: ParseError,
)
    requires
        0 <= i <= k < offs.len(),
        forall|j: int| i <= j < k ==> (#[trigger] spec_entry(d, sds, offs[j], is_utf8)) is Ok,
        spec_entry(d, sds, offs[k], is_utf8) == Err::<Seq<char>, ParseError>(e),
    ensures
        spec_strings_from(d, sds, offs, is_utf8, i) == Err::<Seq<Seq<char>>, ParseError>(e),
    decreases k - i,
{
    if i < k {
        lemma_strings_err_from(d, sds, offs, is_utf8, i + 1, k, e);
    }
}

/// When every entry from `i` on decodes to the corresponding value in
/// `vals`, the table from `i` on decodes to exactly `vals`.
pub(crate) proof fn lemma_strings_ok_from(
    d: Seq<u8>,
    sds: int,
    offs: Seq<u32>,
    is_utf8: bool,
    vals: Seq<Seq<char>>,
    i: int,
)
    requires
        0 <= i <= offs.len(),
        vals.len() == offs.len() - i,
        forall|j: int| i <= j < offs.len() ==> spec_entry(d, sds, offs[j], is_utf8) == Ok::<
            Seq<char>,
            ParseError,
        >(vals[j - i]),
    ensures
        spec_strings_from(d, sds, offs, is_utf8, i) == Ok::<Seq<Seq<char>>, ParseError>(vals),
    decreases offs.len() - i,
{
    if i == offs.len() {
        assert(vals =~= Seq::<Seq<char>>::empty());
    } else {
        let rest = vals.subrange(1, vals.len() as int);
        lemma_strings_ok_from(d, sds, offs, is_utf8, rest, i + 1);
        assert(spec_entry(d, sds, offs[i], is_utf8) == Ok::<Seq<char>, ParseError>(vals[0]));
        assert(seq![vals[0]] + rest =~= vals);
    }
}

/// A decoded string pool: the header and the strings in table order, each
/// behind a shared handle so that many readers can hold one decoded value
/// without copying its content. Never mutated after construction.
#[derive(Debug)]
pub struct StringPool {
    pub header: StringPoolHeader,
    pub strings: Vec<Rc<String>>,
}

impl StringPool {
    /// The decoded strings as sequences of characters, in table order.
    pub open spec fn strings_view(&self) -> Seq<Seq<char>> {
        self.strings@.map_values(|s: Rc<String>| s@)
    }

    /// Decodes a whole string-pool chunk at the cursor. On success the
    /// strings match the offset table in order and count, and the cursor is
    /// left exactly at the end of the chunk that `chunk_header` declares —
    /// the declared size is authoritative for resuming the caller's scan,
    /// not the bytes the strings consumed. On failure no pool is returned
    /// and the error is exactly what the bytes dictate.
    pub fn read_from_file(input: &mut Stream, chunk_header: &ChunkHeader) -> (r: Result<
        StringPool,
        ParseError,
    >)
        ensures
            final(input).data@ == old(input).data@,
            match r {
                Ok(pool) => spec_read_pool(old(input).data@, old(input).pos as int, *chunk_header)
                    == Ok::<PoolModel, ParseError>(
                    (PoolModel {
                        header: pool.header,
                        strings: pool.strings_view(),
                        end: final(input).pos as int,
                    }),
                ) && pool.strings@.len() == pool.header.string_count && final(input).pos as int
                    == old(input).pos + chunk_header.size && pool.header.chunk_header
                    == *chunk_header,
                Err(e) => spec_read_pool(old(input).data@, old(input).pos as int, *chunk_header)
                    == Err::<PoolModel, ParseError>(e),
            },
    {
        let ghost d = input.data@;
        let ghost p0 = input.pos as int;
        let string_pool_header = StringPoolHeader::read_from_file(input, chunk_header)?;
        if string_pool_header.style_count != 0 {
            return Err(ParseError::NonZeroStyleCount);
        }
        let flag_is_utf8 = (string_pool_header.flags & 0x100) != 0;

        // Anchor for all region arithmetic: just past the five header fields.
        let chunk_data_start = input.pos;
        let ghost ds = chunk_data_start as int;

        let mut offsets: Vec<u32> = Vec::new();
        let mut i: u32 = 0;
        while i < string_pool_header.string_count
            invariant
                i <= string_pool_header.string_count,
                old(input).data@ == d,
                old(input).pos == p0,
                input.data@ == d,
                ds == p0 + 20,
                p0 + 20 <= d.len(),
                input.pos == ds + 4 * (i as int),
                ds + 4 * (i as int) <= d.len(),
                offsets@.len() == i as int,
                forall|j: int| 0 <= j < i as int ==> offsets@[j] == u32_at(d, ds + 4 * j),
                string_pool_header == spec_header(d, p0, *chunk_header),
                string_pool_header.style_count == 0,
            decreases string_pool_header.string_count - i,
        {
            let off = read_u32(input)?;
            offsets.push(off);
            i = i + 1;
        }
        proof {
            assert(offsets@ =~= spec_offsets(d, ds, string_pool_header.string_count as int));
        }
        let ghost offs = offsets@;

        if string_pool_header.string_start < STRING_POOL_HEADER_SIZE {
            return Err(ParseError::InvalidLayout);
        }
        let region_rel = string_pool_header.string_start - STRING_POOL_HEADER_SIZE;
        input.seek_rel(chunk_data_start, region_rel)?;

        // Anchor for the offsets themselves: the start of the string data.
        let string_data_start = input.pos;
        let ghost sds = string_data_start as int;

        let mut strings: Vec<Rc<String>> = Vec::new();
        let mut k: usize = 0;
        while k < offsets.len()
            invariant
                k <= offsets@.len(),
                old(input).data@ == d,
                old(input).pos == p0,
                input.data@ == d,
                input.pos == sds,
                ds == p0 + 20,
                p0 + 20 <= d.len(),
                ds + 4 * offs.len() <= d.len(),
                offsets@ == offs,
                offs == spec_offsets(d, ds, string_pool_header.string_count as int),
                offs.len() == string_pool_header.string_count as int,
                string_pool_header == spec_header(d, p0, *chunk_header),
                string_pool_header.style_count == 0,
                string_pool_header.string_start >= 20,
                flag_is_utf8 == is_utf8_flag(string_pool_header.flags),
                string_data_start as int == sds,
                sds == p0 + string_pool_header.string_start,
                sds <= usize::MAX,
                strings@.len() == k as int,
                forall|j: int| 0 <= j < k as int ==> spec_entry(d, sds, offs[j], flag_is_utf8)
                    == Ok::<Seq<char>, ParseError>(strings@[j]@),
            decreases offsets@.len() - k,
        {
            let off = offsets[k];
            let ghost k0 = k as int;
            if input.seek_rel(string_data_start, off).is_err() {
                proof {
                    lemma_strings_err_from(
                        d,
                        sds,
                        offs,
                        flag_is_utf8,
                        0,
                        k0,
                        ParseError::UnexpectedEof,
                    );
                }
                return Err(ParseError::UnexpectedEof);
            }
            let parsed = if flag_is_utf8 {
                parse_utf8_string(input)
            } else {
                parse_utf16_string(input)
            };
            match parsed {
                Ok(s) => {
                    strings.push(Rc::new(s));
                },
                Err(e) => {
                    proof {
                        lemma_strings_err_from(d, sds, offs, flag_is_utf8, 0, k0, e);
                    }
                    return Err(e);
                },
            }
            input.seek_to(string_data_start);
            k = k + 1;
        }
        proof {
            let vals = strings@.map_values(|s: Rc<String>| s@);
            lemma_strings_ok_from(d, sds, offs, flag_is_utf8, vals, 0);
        }

        if chunk_header.size < STRING_POOL_HEADER_SIZE {
            return Err(ParseError::InvalidLayout);
        }
        let chunk_rel = chunk_header.size - STRING_POOL_HEADER_SIZE;
        input.seek_rel(chunk_data_start, chunk_rel)?;

        Ok(Self { header: string_pool_header, strings })
    }

    /// Looks up the string at `i` by cloning its shared handle. The
    /// all-bits-set sentinel index means "absent" and yields `None`
    /// whatever the pool holds; any other index must be in range.
    pub fn get(&self, i: usize) -> (r: Option<Rc<String>>)
        requires
            i as int == 0xFFFF_FFFF || ((i as int) < 0xFFFF_FFFF && (i as int)
                < self.strings@.len()),
        ensures
            i as int == 0xFFFF_FFFF ==> r is None,
            i as int != 0xFFFF_FFFF ==> (r matches Some(s) && s@ == self.strings@[i as int]@),
    {
        if i == u32::MAX as usize {
            return None;
        }

        Some(rc_clone(&self.strings[i]))
    }
}

} // verus!
