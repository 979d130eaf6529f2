use stringpool::encode::encode_utf8_pool;
use stringpool::pool::{ChunkHeader, StringPool};
use stringpool::stream::{read_u16, read_u32, read_u8, Stream};

fn decoded(strings: &[&str]) -> StringPool {
    let owned: Vec<String> = strings.iter().map(|s| s.to_string()).collect();
    let (ch, bytes) = encode_utf8_pool(&owned).unwrap();
    let mut input = Stream::new(bytes);
    StringPool::read_from_file(&mut input, &ch).unwrap()
}

#[test]
fn get_sentinel_is_absent() {
    let pool = decoded(&["a", "b"]);
    assert!(pool.get(0xFFFF_FFFF).is_none());
    let empty = decoded(&[]);
    assert!(empty.get(0xFFFF_FFFF).is_none());
}

#[test]
fn get_returns_indexed_content() {
    let pool = decoded(&["first", "second", "third"]);
    for i in 0..3 {
        assert_eq!(*pool.get(i).unwrap(), *pool.strings[i]);
    }
    assert_eq!(*pool.get(1).unwrap(), "second");
}

#[test]
fn get_shares_the_handle() {
    let pool = decoded(&["shared"]);
    let a = pool.get(0).unwrap();
    let b = pool.get(0).unwrap();
    assert!(std::rc::Rc::ptr_eq(&a, &b));
}

#[test]
fn encode_then_decode_round_trip() {
    let original = vec![
        "".to_string(),
        "foo".to_string(),
        "sm\u{f6}rg\u{e5}sbord".to_string(),
        "\u{1F600}\u{1F680}".to_string(),
        "x".repeat(127),
    ];
    let (ch, bytes) = encode_utf8_pool(&original).unwrap();
    let mut input = Stream::new(bytes);
    let pool = StringPool::read_from_file(&mut input, &ch).unwrap();
    assert_eq!(pool.strings.len(), original.len());
    for (got, want) in pool.strings.iter().zip(original.iter()) {
        assert_eq!(**got, *want);
    }
    assert_eq!(input.pos, ch.size as usize);
}

#[test]
fn encode_empty_pool_round_trip() {
    let (ch, bytes) = encode_utf8_pool(&Vec::new()).unwrap();
    assert_eq!(ch.size, 20);
    assert_eq!(bytes.len(), 20);
    let mut input = Stream::new(bytes);
    let pool = StringPool::read_from_file(&mut input, &ch).unwrap();
    assert_eq!(pool.strings.len(), 0);
    assert_eq!(input.pos, 20);
}

#[test]
fn encode_matches_documented_layout() {
    // count=2, style=0, flags=0x100, string_start=28, offsets [0, 7];
    // "foo" then "bar", each a 6-byte entry.
    let (ch, bytes) = encode_utf8_pool(&vec!["foo".to_string(), "bar".to_string()]).unwrap();
    assert_eq!(ch.size, 40);
    assert_eq!(&bytes[0..4], &[2, 0, 0, 0]);
    assert_eq!(&bytes[4..8], &[0, 0, 0, 0]);
    assert_eq!(&bytes[8..12], &[0, 1, 0, 0]);
    assert_eq!(&bytes[12..16], &[28, 0, 0, 0]);
    assert_eq!(&bytes[16..20], &[0, 0, 0, 0]);
    assert_eq!(&bytes[20..24], &[0, 0, 0, 0]);
    assert_eq!(&bytes[24..28], &[6, 0, 0, 0]);
    assert_eq!(&bytes[28..34], &[0, 3, b'f', b'o', b'o', 0]);
    assert_eq!(&bytes[34..40], &[0, 3, b'b', b'a', b'r', 0]);
}

#[test]
fn encode_refuses_long_strings() {
    let long = "y".repeat(128);
    assert!(encode_utf8_pool(&vec![long]).is_none());
    let multibyte = "\u{e5}".repeat(64);
    assert_eq!(multibyte.len(), 128);
    assert!(encode_utf8_pool(&vec![multibyte]).is_none());
}

#[test]
fn stream_reads_little_endian() {
    let mut input = Stream::new(vec![0x01, 0x02, 0x03, 0x04, 0x0A, 0xFF]);
    assert_eq!(read_u32(&mut input).unwrap(), 0x0403_0201);
    assert_eq!(read_u8(&mut input).unwrap(), 0x0A);
    assert_eq!(read_u16(&mut input), Err(stringpool::error::ParseError::UnexpectedEof));
    input.seek_to(4);
    assert_eq!(read_u16(&mut input).unwrap(), 0xFF0A);
}

#[test]
fn high_bit_checks() {
    assert!(!stringpool::pool::is_high_bit_set_8(0));
    assert!(!stringpool::pool::is_high_bit_set_8(0x7F));
    assert!(stringpool::pool::is_high_bit_set_8(0x80));
    assert!(stringpool::pool::is_high_bit_set_8(0xFF));
    assert!(!stringpool::pool::is_high_bit_set_16(0));
    assert!(!stringpool::pool::is_high_bit_set_16(0x7FFF));
    assert!(stringpool::pool::is_high_bit_set_16(0x8000));
    assert!(stringpool::pool::is_high_bit_set_16(0xFFFF));
}

#[test]
fn utf8_and_utf16_parsers_read_one_entry() {
    let mut input = Stream::new(vec![0, 2, b'h', b'i', 0, 9, 9]);
    let s = stringpool::pool::parse_utf8_string(&mut input).unwrap();
    assert_eq!(s, "hi");
    assert_eq!(input.pos, 5);

    let mut bytes = Vec::new();
    bytes.extend_from_slice(&2u16.to_le_bytes());
    bytes.extend_from_slice(&(b'h' as u16).to_le_bytes());
    bytes.extend_from_slice(&(b'i' as u16).to_le_bytes());
    bytes.extend_from_slice(&0u16.to_le_bytes());
    let mut input16 = Stream::new(bytes);
    let s16 = stringpool::pool::parse_utf16_string(&mut input16).unwrap();
    assert_eq!(s16, "hi");
    assert_eq!(input16.pos, 8);
}
