//! End-to-end decoding of fixed byte vectors.

use lzma_rust::byte_reader::ByteReader;
use lzma_rust::lzma2_reader::LZMA2Reader;
use lzma_rust::lzma_reader::LZMAReader;
use lzma_rust::Error;

const DICT_SIZE_DEFAULT: u64 = 8 << 20;

fn read_all_lzma2(input: Vec<u8>, dict_size: u64) -> Result<Vec<u8>, Error> {
    let mut reader = LZMA2Reader::new(ByteReader::new(input), dict_size, None);
    let mut out = Vec::new();
    let mut buf = vec![0u8; 1024];
    loop {
        let n = reader.read(&mut buf)?;
        if n == 0 {
            return Ok(out);
        }
        out.extend_from_slice(&buf[..n]);
    }
}

#[test]
fn lzma2_hello_world() {
    let compressed = vec![
        0x01, 0x00, 0x0C, 0x48, 0x65, 0x6C, 0x6C, 0x6F, 0x2C, 0x20, 0x77, 0x6F, 0x72, 0x6C, 0x64,
        0x21, 0x00,
    ];
    let out = read_all_lzma2(compressed, DICT_SIZE_DEFAULT).unwrap();
    assert_eq!(&out[..], b"Hello, world!");
}

#[test]
fn lzma2_second_read_after_end_is_zero() {
    let compressed = vec![
        0x01, 0x00, 0x0C, 0x48, 0x65, 0x6C, 0x6C, 0x6F, 0x2C, 0x20, 0x77, 0x6F, 0x72, 0x6C, 0x64,
        0x21, 0x00,
    ];
    let mut reader = LZMA2Reader::new(ByteReader::new(compressed), DICT_SIZE_DEFAULT, None);
    let mut buf = vec![0u8; 64];
    assert_eq!(reader.read(&mut buf).unwrap(), 13);
    assert_eq!(reader.read(&mut buf).unwrap(), 0);
    assert_eq!(reader.read(&mut buf).unwrap(), 0);
}

#[test]
fn lzma2_two_uncompressed_chunks() {
    // First chunk resets the dictionary, the second continues it.
    let compressed = vec![
        0x01, 0x00, 0x04, b'a', b'b', b'c', b'd', b'e', 0x02, 0x00, 0x02, b'f', b'g', b'h', 0x00,
    ];
    let out = read_all_lzma2(compressed, DICT_SIZE_DEFAULT).unwrap();
    assert_eq!(&out[..], b"abcdefgh");
}

#[test]
fn lzma2_first_chunk_without_dict_reset_rejected() {
    // Control byte 0x02 (no dictionary reset) may not open a stream.
    let compressed = vec![0x02, 0x00, 0x01, b'a', b'b', 0x00];
    assert_eq!(
        read_all_lzma2(compressed, DICT_SIZE_DEFAULT),
        Err(Error::InvalidInput)
    );
}

#[test]
fn lzma2_reserved_control_bytes_rejected() {
    for c in [0x03u8, 0x10, 0x7F] {
        let compressed = vec![0x01, 0x00, 0x00, b'x', c, 0x00];
        assert_eq!(
            read_all_lzma2(compressed, DICT_SIZE_DEFAULT),
            Err(Error::InvalidInput)
        );
    }
}

#[test]
fn lzma2_lzma_chunk_without_props_rejected() {
    // 0x80: LZMA chunk reusing properties that were never set. The stream
    // opens with a valid uncompressed chunk so only the missing properties
    // can be at fault.
    let compressed = vec![0x01, 0x00, 0x00, b'x', 0x80, 0x00, 0x00, 0x00, 0x00, 0x00];
    assert_eq!(
        read_all_lzma2(compressed, DICT_SIZE_DEFAULT),
        Err(Error::InvalidInput)
    );
}

#[test]
fn lzma2_truncated_header_gives_eof() {
    let compressed = vec![0x01, 0x00];
    assert_eq!(
        read_all_lzma2(compressed, DICT_SIZE_DEFAULT),
        Err(Error::UnexpectedEof)
    );
}

#[test]
fn lzma2_error_is_cached() {
    let mut reader = LZMA2Reader::new(
        ByteReader::new(vec![0x7Fu8, 0x00]),
        DICT_SIZE_DEFAULT,
        None,
    );
    let mut buf = vec![0u8; 16];
    assert_eq!(reader.read(&mut buf), Err(Error::InvalidInput));
    assert_eq!(reader.read(&mut buf), Err(Error::InvalidInput));
}

const LZMA_HELLO: [u8; 37] = [
    0x5D, 0x00, 0x00, 0x80, 0x00, 0xFF, 0xFF, 0xFF, 0xFF, 0xFF, 0xFF, 0xFF, 0xFF, 0x00, 0x24,
    0x19, 0x49, 0x98, 0x6F, 0x16, 0x02, 0x8C, 0xE8, 0xE6, 0x5B, 0xB1, 0x47, 0xC6, 0xCE, 0xB7,
    0x63, 0xFF, 0xFF, 0x3C, 0xAC, 0x00, 0x00,
];

fn read_all_lzma(reader: &mut LZMAReader) -> Result<Vec<u8>, Error> {
    let mut out = Vec::new();
    let mut buf = vec![0u8; 1024];
    loop {
        let n = reader.read(&mut buf)?;
        if n == 0 {
            return Ok(out);
        }
        out.extend_from_slice(&buf[..n]);
    }
}

#[test]
fn lzma_hello_world() {
    let mut reader =
        LZMAReader::new_mem_limit(ByteReader::new(LZMA_HELLO.to_vec()), u64::MAX, None).unwrap();
    let out = read_all_lzma(&mut reader).unwrap();
    assert_eq!(&out[..], b"Hello, world!");
    // The end marker ended the stream; further reads stay at zero.
    let mut buf = vec![0u8; 8];
    assert_eq!(reader.read(&mut buf).unwrap(), 0);
}

#[test]
fn lzma_range_prime_byte_must_be_zero() {
    let mut bad = LZMA_HELLO.to_vec();
    bad[13] = 0x01;
    assert_eq!(
        LZMAReader::new_mem_limit(ByteReader::new(bad), u64::MAX, None).err(),
        Some(Error::InvalidInput)
    );
}

#[test]
fn lzma_memory_limit_enforced() {
    // The header asks for an 8 MiB dictionary; one KiB is not enough.
    assert_eq!(
        LZMAReader::new_mem_limit(ByteReader::new(LZMA_HELLO.to_vec()), 1, None).err(),
        Some(Error::OutOfMemory)
    );
}

#[test]
fn lzma_header_shorter_than_13_bytes_gives_eof() {
    assert_eq!(
        LZMAReader::new_mem_limit(ByteReader::new(vec![0x5D, 0, 0]), u64::MAX, None).err(),
        Some(Error::UnexpectedEof)
    );
}

#[test]
fn lzma_invalid_props_in_new() {
    assert_eq!(
        LZMAReader::new_with_props(ByteReader::new(vec![0u8; 32]), 13, 0xE1, 1 << 16, None).err(),
        Some(Error::InvalidInput)
    );
    assert_eq!(
        LZMAReader::new(ByteReader::new(vec![0u8; 32]), 13, 9, 0, 0, 1 << 16, None).err(),
        Some(Error::InvalidInput)
    );
}
