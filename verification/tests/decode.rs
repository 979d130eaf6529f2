use stringpool::error::ParseError;
use stringpool::pool::{ChunkHeader, StringPool, StringPoolHeader};
use stringpool::stream::Stream;

fn le32(v: u32) -> [u8; 4] {
    [
        (v & 0xFF) as u8,
        ((v >> 8) & 0xFF) as u8,
        ((v >> 16) & 0xFF) as u8,
        ((v >> 24) & 0xFF) as u8,
    ]
}

fn header_bytes(count: u32, style_count: u32, flags: u32, string_start: u32, style_start: u32) -> Vec<u8> {
    let mut out = Vec::new();
    out.extend_from_slice(&le32(count));
    out.extend_from_slice(&le32(style_count));
    out.extend_from_slice(&le32(flags));
    out.extend_from_slice(&le32(string_start));
    out.extend_from_slice(&le32(style_start));
    out
}

fn utf8_entry(s: &str) -> Vec<u8> {
    let mut out = vec![0u8, s.len() as u8];
    out.extend_from_slice(s.as_bytes());
    out.push(0);
    out
}

fn utf16_entry(s: &str) -> Vec<u8> {
    let units: Vec<u16> = s.encode_utf16().collect();
    let mut out = Vec::new();
    out.extend_from_slice(&(units.len() as u16).to_le_bytes());
    for u in units {
        out.extend_from_slice(&u.to_le_bytes());
    }
    out.extend_from_slice(&0u16.to_le_bytes());
    out
}

/// A well-formed UTF-8 pool holding the given strings, with its chunk header.
fn utf8_pool(strings: &[&str]) -> (ChunkHeader, Vec<u8>) {
    let n = strings.len() as u32;
    let mut data = Vec::new();
    let mut offsets = Vec::new();
    for s in strings {
        offsets.push(data.len() as u32);
        data.extend_from_slice(&utf8_entry(s));
    }
    let mut out = header_bytes(n, 0, 0x100, 20 + 4 * n, 0);
    for off in offsets {
        out.extend_from_slice(&le32(off));
    }
    out.extend_from_slice(&data);
    let size = out.len() as u32;
    (ChunkHeader { size }, out)
}

fn utf16_pool(strings: &[&str]) -> (ChunkHeader, Vec<u8>) {
    let n = strings.len() as u32;
    let mut data = Vec::new();
    let mut offsets = Vec::new();
    for s in strings {
        offsets.push(data.len() as u32);
        data.extend_from_slice(&utf16_entry(s));
    }
    let mut out = header_bytes(n, 0, 0, 20 + 4 * n, 0);
    for off in offsets {
        out.extend_from_slice(&le32(off));
    }
    out.extend_from_slice(&data);
    let size = out.len() as u32;
    (ChunkHeader { size }, out)
}

#[test]
fn two_utf8_strings_scenario() {
    // Header: count=2, style=0, flags=0x100, string_start=28, style_start=0;
    // offsets [0, 4]... the entries are 6 bytes each, so offsets are [0, 6].
    let (ch, bytes) = utf8_pool(&["foo", "bar"]);
    assert_eq!(ch.size, 20 + 8 + 12);
    let mut input = Stream::new(bytes);
    let pool = StringPool::read_from_file(&mut input, &ch).unwrap();
    assert_eq!(pool.header.string_count, 2);
    assert_eq!(pool.header.flags, 0x100);
    assert_eq!(pool.strings.len(), 2);
    assert_eq!(*pool.strings[0], "foo");
    assert_eq!(*pool.strings[1], "bar");
}

#[test]
fn explicit_layout_with_given_offsets() {
    // The documented layout, laid out by hand: two entries of four content
    // bytes... here "a"/"b" entries of 4 bytes each, offsets [0, 4].
    let mut bytes = header_bytes(2, 0, 0x100, 28, 0);
    bytes.extend_from_slice(&le32(0));
    bytes.extend_from_slice(&le32(4));
    bytes.extend_from_slice(&[0, 1, b'a', 0]);
    bytes.extend_from_slice(&[0, 1, b'b', 0]);
    let ch = ChunkHeader { size: bytes.len() as u32 };
    let mut input = Stream::new(bytes);
    let pool = StringPool::read_from_file(&mut input, &ch).unwrap();
    assert_eq!(*pool.strings[0], "a");
    assert_eq!(*pool.strings[1], "b");
}

#[test]
fn string_count_matches_len() {
    for strings in [&[][..], &["x"][..], &["a", "bb", "ccc"][..]] {
        let (ch, bytes) = utf8_pool(strings);
        let mut input = Stream::new(bytes);
        let pool = StringPool::read_from_file(&mut input, &ch).unwrap();
        assert_eq!(pool.strings.len(), pool.header.string_count as usize);
    }
}

#[test]
fn final_position_is_declared_chunk_size() {
    // The declared size is authoritative: add trailing padding beyond the
    // string data and the cursor must still land exactly past the chunk.
    let (ch, mut bytes) = utf8_pool(&["hello", "world"]);
    bytes.extend_from_slice(&[0xAA; 17]);
    let padded = ChunkHeader { size: ch.size + 17 };
    let mut input = Stream::new(bytes);
    StringPool::read_from_file(&mut input, &padded).unwrap();
    assert_eq!(input.pos, padded.size as usize);

    let (ch2, bytes2) = utf16_pool(&["zig"]);
    let mut input2 = Stream::new(bytes2);
    StringPool::read_from_file(&mut input2, &ch2).unwrap();
    assert_eq!(input2.pos, ch2.size as usize);
}

#[test]
fn utf16_pool_decodes() {
    let (ch, bytes) = utf16_pool(&["hej", "v\u{e4}rld", "\u{1F600}"]);
    let mut input = Stream::new(bytes);
    let pool = StringPool::read_from_file(&mut input, &ch).unwrap();
    assert_eq!(*pool.strings[0], "hej");
    assert_eq!(*pool.strings[1], "v\u{e4}rld");
    assert_eq!(*pool.strings[2], "\u{1F600}");
}

#[test]
fn flag_selects_encoding() {
    // The same content through both encodings: each pool must come back
    // intact, which only happens when the right decode path ran.
    let (ch8, bytes8) = utf8_pool(&["p\u{e5}se"]);
    let mut in8 = Stream::new(bytes8);
    let pool8 = StringPool::read_from_file(&mut in8, &ch8).unwrap();
    assert_eq!(*pool8.strings[0], "p\u{e5}se");

    let (ch16, bytes16) = utf16_pool(&["p\u{e5}se"]);
    let mut in16 = Stream::new(bytes16);
    let pool16 = StringPool::read_from_file(&mut in16, &ch16).unwrap();
    assert_eq!(*pool16.strings[0], "p\u{e5}se");
}

#[test]
fn zero_length_string_consumes_terminator() {
    let (ch, bytes) = utf8_pool(&["", "after"]);
    let mut input = Stream::new(bytes);
    let pool = StringPool::read_from_file(&mut input, &ch).unwrap();
    assert_eq!(*pool.strings[0], "");
    assert_eq!(*pool.strings[1], "after");
    assert_eq!(input.pos, ch.size as usize);

    let (ch16, bytes16) = utf16_pool(&[""]);
    let mut input16 = Stream::new(bytes16);
    let pool16 = StringPool::read_from_file(&mut input16, &ch16).unwrap();
    assert_eq!(*pool16.strings[0], "");
    assert_eq!(input16.pos, ch16.size as usize);
}

#[test]
fn utf8_high_bit_length_aborts() {
    // One entry whose length byte has the high bit set: the decode must
    // fail with the extended-length error, not truncate.
    let mut bytes = header_bytes(1, 0, 0x100, 24, 0);
    bytes.extend_from_slice(&le32(0));
    bytes.extend_from_slice(&[0, 0x83, b'x', b'y', b'z', 0]);
    let ch = ChunkHeader { size: bytes.len() as u32 };
    let mut input = Stream::new(bytes);
    let err = StringPool::read_from_file(&mut input, &ch).unwrap_err();
    assert_eq!(err, ParseError::UnsupportedExtendedLength);
}

#[test]
fn utf16_high_bit_length_aborts() {
    let mut bytes = header_bytes(1, 0, 0, 24, 0);
    bytes.extend_from_slice(&le32(0));
    bytes.extend_from_slice(&0x8001u16.to_le_bytes());
    bytes.extend_from_slice(&0x0041u16.to_le_bytes());
    bytes.extend_from_slice(&0u16.to_le_bytes());
    let ch = ChunkHeader { size: bytes.len() as u32 };
    let mut input = Stream::new(bytes);
    let err = StringPool::read_from_file(&mut input, &ch).unwrap_err();
    assert_eq!(err, ParseError::UnsupportedExtendedLength);
}

#[test]
fn nonzero_style_count_aborts() {
    let (ch, mut bytes) = utf8_pool(&["x"]);
    bytes[4] = 1;
    let mut input = Stream::new(bytes);
    let err = StringPool::read_from_file(&mut input, &ch).unwrap_err();
    assert_eq!(err, ParseError::NonZeroStyleCount);
}

#[test]
fn truncated_header_aborts() {
    let bytes = vec![1, 0, 0];
    let ch = ChunkHeader { size: 20 };
    let mut input = Stream::new(bytes);
    let err = StringPool::read_from_file(&mut input, &ch).unwrap_err();
    assert_eq!(err, ParseError::UnexpectedEof);
}

#[test]
fn truncated_offset_table_aborts() {
    let mut bytes = header_bytes(3, 0, 0x100, 32, 0);
    bytes.extend_from_slice(&le32(0));
    let ch = ChunkHeader { size: 44 };
    let mut input = Stream::new(bytes);
    let err = StringPool::read_from_file(&mut input, &ch).unwrap_err();
    assert_eq!(err, ParseError::UnexpectedEof);
}

#[test]
fn truncated_string_data_aborts() {
    let mut bytes = header_bytes(1, 0, 0x100, 24, 0);
    bytes.extend_from_slice(&le32(0));
    bytes.extend_from_slice(&[0, 5, b'a', b'b']);
    let ch = ChunkHeader { size: 40 };
    let mut input = Stream::new(bytes);
    let err = StringPool::read_from_file(&mut input, &ch).unwrap_err();
    assert_eq!(err, ParseError::UnexpectedEof);
}

#[test]
fn invalid_utf8_aborts() {
    let mut bytes = header_bytes(1, 0, 0x100, 24, 0);
    bytes.extend_from_slice(&le32(0));
    bytes.extend_from_slice(&[0, 2, 0xFF, 0xFE, 0]);
    let ch = ChunkHeader { size: bytes.len() as u32 };
    let mut input = Stream::new(bytes);
    let err = StringPool::read_from_file(&mut input, &ch).unwrap_err();
    assert_eq!(err, ParseError::InvalidUtf8);
}

#[test]
fn invalid_utf16_aborts() {
    // A lone high surrogate is not valid UTF-16.
    let mut bytes = header_bytes(1, 0, 0, 24, 0);
    bytes.extend_from_slice(&le32(0));
    bytes.extend_from_slice(&1u16.to_le_bytes());
    bytes.extend_from_slice(&0xD800u16.to_le_bytes());
    bytes.extend_from_slice(&0u16.to_le_bytes());
    let ch = ChunkHeader { size: bytes.len() as u32 };
    let mut input = Stream::new(bytes);
    let err = StringPool::read_from_file(&mut input, &ch).unwrap_err();
    assert_eq!(err, ParseError::InvalidUtf16);
}

#[test]
fn string_start_inside_header_aborts() {
    let (ch, mut bytes) = utf8_pool(&["x"]);
    let start = le32(12);
    bytes[12..16].copy_from_slice(&start);
    let mut input = Stream::new(bytes);
    let err = StringPool::read_from_file(&mut input, &ch).unwrap_err();
    assert_eq!(err, ParseError::InvalidLayout);
}

#[test]
fn chunk_size_inside_header_aborts() {
    let (_, bytes) = utf8_pool(&["x"]);
    let ch = ChunkHeader { size: 12 };
    let mut input = Stream::new(bytes);
    let err = StringPool::read_from_file(&mut input, &ch).unwrap_err();
    assert_eq!(err, ParseError::InvalidLayout);
}

#[test]
fn repeated_offsets_share_an_entry() {
    // Offsets are absolute within the string-data region, not cumulative:
    // two table slots may point at the same entry.
    let mut bytes = header_bytes(2, 0, 0x100, 28, 0);
    bytes.extend_from_slice(&le32(0));
    bytes.extend_from_slice(&le32(0));
    bytes.extend_from_slice(&utf8_entry("dup"));
    let ch = ChunkHeader { size: bytes.len() as u32 };
    let mut input = Stream::new(bytes);
    let pool = StringPool::read_from_file(&mut input, &ch).unwrap();
    assert_eq!(*pool.strings[0], "dup");
    assert_eq!(*pool.strings[1], "dup");
}

#[test]
fn header_reader_reads_five_fields() {
    let mut bytes = header_bytes(7, 0, 0x100, 48, 96);
    bytes.extend_from_slice(&[1, 2, 3]);
    let ch = ChunkHeader { size: 123 };
    let mut input = Stream::new(bytes);
    let header = StringPoolHeader::read_from_file(&mut input, &ch).unwrap();
    assert_eq!(header.string_count, 7);
    assert_eq!(header.style_count, 0);
    assert_eq!(header.flags, 0x100);
    assert_eq!(header.string_start, 48);
    assert_eq!(header.style_start, 96);
    assert_eq!(header.chunk_header, ch);
    assert_eq!(input.pos, 20);
}

#[test]
fn header_reader_fails_short() {
    let bytes = header_bytes(7, 0, 0x100, 48, 96)[..19].to_vec();
    let ch = ChunkHeader { size: 123 };
    let mut input = Stream::new(bytes);
    let err = StringPoolHeader::read_from_file(&mut input, &ch).unwrap_err();
    assert_eq!(err, ParseError::UnexpectedEof);
}
