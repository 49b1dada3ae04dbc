use gif_reader::cursor::ByteCursor;
use gif_reader::error::DecodeError;
use gif_reader::reader::Version;
use gif_reader::reader::init_gif_reader;

/// A logical screen descriptor for a `w` by `h` screen; `table_n` is
/// the packed field N (table size 2^(N+1)) with the global table flag,
/// or `None` for no global table.
fn header_bytes(w: u16, h: u16, table_n: Option<u8>, bg: u8) -> Vec<u8> {
    let mut v = vec![b'G', b'I', b'F', b'8', b'9', b'a'];
    v.push((w & 0xff) as u8);
    v.push((w >> 8) as u8);
    v.push((h & 0xff) as u8);
    v.push((h >> 8) as u8);
    match table_n {
        Some(n) => v.push(0x80 | (n & 7)),
        None => v.push(0x00),
    }
    v.push(bg);
    v.push(0); // pixel aspect ratio
    v
}

#[test]
fn color_table_size_is_two_to_n_plus_one() {
    // For every N in 0..=7 the table holds 2^(N+1) entries and parsing
    // them consumes exactly 3 * size bytes.
    for n in 0u8..8 {
        let size = 2usize << n;
        let mut bytes = header_bytes(4, 4, Some(n), 0);
        let header_len = bytes.len();
        for i in 0..size {
            bytes.push(i as u8); // r
            bytes.push(0x10);  // g
            bytes.push(0x20);  // b
        }
        let (_, mut reader) = init_gif_reader();
        let mut cur = ByteCursor::new(&bytes);
        reader.ReadHeader(&mut cur).expect("header");
        assert_eq!(reader.color_count, size);
        assert_eq!(cur.offset(), header_len + 3 * size);
        for i in 0..size {
            assert_eq!(reader.color_table[i], (i as u32) | 0x10 << 8 | 0x20 << 16);
        }
        // one byte short: the table cannot complete
        let short = bytes[..bytes.len() - 1].to_vec();
        let (_, mut reader2) = init_gif_reader();
        let mut cur2 = ByteCursor::new(&short);
        assert_eq!(reader2.ReadHeader(&mut cur2), Err(DecodeError::TruncatedInput));
    }
}

#[test]
fn bad_signature_rejected() {
    let mut bytes = header_bytes(1, 1, None, 0);
    bytes[0] = b'J';
    let (_, mut reader) = init_gif_reader();
    let mut cur = ByteCursor::new(&bytes);
    assert_eq!(reader.ReadHeader(&mut cur), Err(DecodeError::BadSignature));
}

#[test]
fn unsupported_version_rejected() {
    let mut bytes = header_bytes(1, 1, None, 0);
    bytes[4] = b'8'; // "88a"
    let (_, mut reader) = init_gif_reader();
    let mut cur = ByteCursor::new(&bytes);
    assert_eq!(reader.ReadHeader(&mut cur), Err(DecodeError::UnsupportedVersion));
}

#[test]
fn both_versions_accepted() {
    let bytes = header_bytes(3, 2, None, 0);
    let (_, mut reader) = init_gif_reader();
    let mut cur = ByteCursor::new(&bytes);
    reader.ReadHeader(&mut cur).expect("header");
    assert!(matches!(reader.version, Version::Version89a));
    assert_eq!(reader.width, 3);
    assert_eq!(reader.height, 2);

    let mut bytes87 = bytes.clone();
    bytes87[4] = b'7';
    let (_, mut reader87) = init_gif_reader();
    let mut cur87 = ByteCursor::new(&bytes87);
    reader87.ReadHeader(&mut cur87).expect("header");
    assert!(matches!(reader87.version, Version::Version87a));
}

#[test]
fn truncated_header_rejected() {
    let bytes = header_bytes(1, 1, None, 0);
    let short = bytes[..9].to_vec();
    let (_, mut reader) = init_gif_reader();
    let mut cur = ByteCursor::new(&short);
    assert_eq!(reader.ReadHeader(&mut cur), Err(DecodeError::TruncatedInput));
}

#[test]
fn read_color_table_fills_prefix_only() {
    // GifReader::ReadColorTable reads exactly 3 * color_count bytes and
    // leaves the remaining 256 slots untouched.
    let bytes = vec![1u8, 2, 3, 4, 5, 6];
    let (_, mut reader) = init_gif_reader();
    reader.color_count = 2;
    let mut cur = ByteCursor::new(&bytes);
    reader.ReadColorTable(&mut cur).expect("table");
    assert_eq!(cur.offset(), 6);
    assert_eq!(reader.color_table[0], 1 | 2 << 8 | 3 << 16);
    assert_eq!(reader.color_table[1], 4 | 5 << 8 | 6 << 16);
    assert_eq!(reader.color_table[2], 0);
    assert_eq!(reader.color_table[255], 0);
}
