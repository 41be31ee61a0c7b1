use broker_codec::error::Error;
use broker_codec::snappy::{compress, uncompress, validate_stream, SnappyReader};

#[test]
fn test_validate_stream() {
    let header = [0x82, 0x53, 0x4e, 0x41, 0x50, 0x50, 0x59, 0x00, 0, 0, 0, 1, 0, 0, 0, 1, 0x56];
    // This must not result in a panic.
    let rest = validate_stream(&header).unwrap();
    // The rest of the input after the parsed header must be correctly
    // delivered.
    assert_eq!(rest, &[0x56][..]);
}

#[test]
fn test_validate_stream_short_inputs() {
    assert_eq!(validate_stream(&[]), Err(Error::UnexpectedEOF));
    assert_eq!(validate_stream(&[0x82, 0x53, 0x4e]), Err(Error::UnexpectedEOF));
    assert_eq!(
        validate_stream(&[0x82, 0x53, 0x4e, 0x41, 0x50, 0x50, 0x59, 0x00, 0, 0]),
        Err(Error::UnexpectedEOF)
    );
    assert_eq!(
        validate_stream(&[0x82, 0x53, 0x4e, 0x41, 0x50, 0x50, 0x59, 0x00, 0, 0, 0, 1, 0, 0]),
        Err(Error::UnexpectedEOF)
    );
}

#[test]
fn test_validate_stream_short_input_with_bad_magic_is_eof() {
    // The 16-byte length check comes before the magic check, so a
    // short stream reports an unexpected end of input whatever its
    // bytes hold.
    assert_eq!(validate_stream(&[0xff; 12]), Err(Error::UnexpectedEOF));
    assert_eq!(
        validate_stream(&[0x82, 0x53, 0x4e, 0x41, 0x50, 0x50, 0x59, 0x00, 0, 0, 0, 9]),
        Err(Error::UnexpectedEOF)
    );
}

#[test]
fn test_uncompress_rejects_overflowing_literal_length() {
    // A literal whose four-byte length field is all ones overflows the
    // decompressor's length arithmetic; the block is rejected before
    // the decompressor runs.
    let block = [0x00, 0xfc, 0xff, 0xff, 0xff, 0xff];
    assert_eq!(uncompress(&block), Err(Error::InvalidInputSnappy));
}

#[test]
fn test_validate_stream_rejects_any_corrupted_header_byte() {
    let good = [0x82, 0x53, 0x4e, 0x41, 0x50, 0x50, 0x59, 0x00, 0, 0, 0, 1, 0, 0, 0, 1, 0x56];
    for i in 0..16 {
        let mut bad = good;
        bad[i] ^= 0x01;
        assert_eq!(validate_stream(&bad), Err(Error::InvalidInputSnappy), "byte {}", i);
    }
}

#[test]
fn test_compress() {
    let msg = "This is test".as_bytes();
    let compressed = compress(msg).unwrap();
    let expected = vec![12, 44, 84, 104, 105, 115, 32, 105, 115, 32, 116, 101, 115, 116];
    assert_eq!(compressed, expected);
}

#[test]
fn test_uncompress() {
    // The vector should uncompress to "This is test"
    let compressed = &[12, 44, 84, 104, 105, 115, 32, 105, 115, 32, 116, 101, 115, 116];
    let uncompressed = String::from_utf8(uncompress(compressed).unwrap()).unwrap();
    assert_eq!(&uncompressed, "This is test");
}

#[test]
fn test_uncompress_invalid_input() {
    // The vector is an invalid snappy message (second byte modified on purpose)
    let compressed = &[12, 42, 84, 104, 105, 115, 32, 105, 115, 32, 116, 101, 115, 116];
    let uncompressed = uncompress(compressed);
    assert!(uncompressed.is_err());
    assert!(if let Some(Error::InvalidInputSnappy) = uncompressed.err() {
        true
    } else {
        false
    });
}

fn fixture() -> (Vec<u8>, Vec<u8>) {
    let mut original = Vec::new();
    while original.len() < 12000 {
        original.extend_from_slice(b"the quick brown fox jumps over the lazy dog. ");
    }
    let mut stream =
        vec![0x82, b'S', b'N', b'A', b'P', b'P', b'Y', 0x00, 0, 0, 0, 1, 0, 0, 0, 1];
    for chunk in original.chunks(4096) {
        let compressed = compress(chunk).unwrap();
        let n = compressed.len() as u32;
        stream.extend_from_slice(&n.to_be_bytes());
        stream.extend_from_slice(&compressed);
    }
    (original, stream)
}

#[test]
fn test_snappy_reader_read() {
    let (original, compressed) = fixture();
    let mut buf = Vec::new();
    let mut r = SnappyReader::new(&compressed).unwrap();

    loop {
        let piece = r.read(1024).unwrap();
        if piece.is_empty() {
            break;
        }
        buf.extend_from_slice(&piece);
    }
    assert_eq!(&original[..], &buf[..]);
}

#[test]
fn test_snappy_reader_read_odd_sizes() {
    let (original, compressed) = fixture();
    for size in [1usize, 3, 7, 100, 5000] {
        let mut buf = Vec::new();
        let mut r = SnappyReader::new(&compressed).unwrap();
        loop {
            let piece = r.read(size).unwrap();
            if piece.is_empty() {
                break;
            }
            assert!(piece.len() <= size);
            buf.extend_from_slice(&piece);
        }
        assert_eq!(&original[..], &buf[..], "buffer size {}", size);
    }
}

#[test]
fn test_snappy_reader_read_to_end() {
    let (original, compressed) = fixture();
    let mut buf = Vec::new();
    let mut r = SnappyReader::new(&compressed).unwrap();
    let n = r.read_to_end(&mut buf).unwrap();
    assert_eq!(n, original.len());
    assert_eq!(&original[..], &buf[..]);
}

#[test]
fn test_snappy_reader_read_to_end_multi() {
    let (original, compressed) = fixture();
    for _ in 0..3 {
        let mut buf = Vec::new();
        let mut r = SnappyReader::new(&compressed).unwrap();
        r.read_to_end(&mut buf).unwrap();
        assert_eq!(&original[..], &buf[..]);
    }
}

#[test]
fn test_snappy_reader_exhausted_reads_return_zero() {
    let (_, compressed) = fixture();
    let mut r = SnappyReader::new(&compressed).unwrap();
    let mut buf = Vec::new();
    r.read_to_end(&mut buf).unwrap();
    // Exhaustion is terminal and idempotent.
    assert!(r.read(128).unwrap().is_empty());
    assert!(r.read(128).unwrap().is_empty());
    let mut more = Vec::new();
    assert_eq!(r.read_to_end(&mut more).unwrap(), 0);
    assert!(more.is_empty());
}

#[test]
fn test_snappy_reader_mixed_read_then_read_to_end() {
    let (original, compressed) = fixture();
    let mut r = SnappyReader::new(&compressed).unwrap();
    let head = r.read(10).unwrap();
    assert_eq!(&head[..], &original[..head.len()]);
    let mut tail = Vec::new();
    r.read_to_end(&mut tail).unwrap();
    let mut whole = head;
    whole.extend_from_slice(&tail);
    assert_eq!(&original[..], &whole[..]);
}

#[test]
fn test_snappy_reader_bad_header() {
    let (_, mut compressed) = fixture();
    compressed[1] = b'X';
    assert!(matches!(SnappyReader::new(&compressed), Err(Error::InvalidInputSnappy)));
}

#[test]
fn test_snappy_reader_truncated_length_prefix() {
    let mut stream =
        vec![0x82, b'S', b'N', b'A', b'P', b'P', b'Y', 0x00, 0, 0, 0, 1, 0, 0, 0, 1];
    stream.extend_from_slice(&[0, 0]);
    let mut r = SnappyReader::new(&stream).unwrap();
    let mut buf = Vec::new();
    assert_eq!(r.read_to_end(&mut buf), Err(Error::UnexpectedEOF));
    let mut r = SnappyReader::new(&stream).unwrap();
    assert_eq!(r.read(64), Err(Error::UnexpectedEOF));
}

#[test]
fn test_snappy_reader_non_positive_chunk_length() {
    let mut stream =
        vec![0x82, b'S', b'N', b'A', b'P', b'P', b'Y', 0x00, 0, 0, 0, 1, 0, 0, 0, 1];
    stream.extend_from_slice(&[0, 0, 0, 0]);
    let mut r = SnappyReader::new(&stream).unwrap();
    let mut buf = Vec::new();
    assert_eq!(r.read_to_end(&mut buf), Err(Error::InvalidInputSnappy));
    let mut stream2 =
        vec![0x82, b'S', b'N', b'A', b'P', b'P', b'Y', 0x00, 0, 0, 0, 1, 0, 0, 0, 1];
    stream2.extend_from_slice(&[0xff, 0xff, 0xff, 0xfe]);
    let mut r2 = SnappyReader::new(&stream2).unwrap();
    assert_eq!(r2.read(64), Err(Error::InvalidInputSnappy));
}

#[test]
fn test_snappy_reader_truncated_chunk_payload() {
    let mut stream =
        vec![0x82, b'S', b'N', b'A', b'P', b'P', b'Y', 0x00, 0, 0, 0, 1, 0, 0, 0, 1];
    let compressed = compress(b"This is test").unwrap();
    let n = compressed.len() as u32;
    stream.extend_from_slice(&n.to_be_bytes());
    stream.extend_from_slice(&compressed[..compressed.len() - 2]);
    let mut r = SnappyReader::new(&stream).unwrap();
    let mut buf = Vec::new();
    assert_eq!(r.read_to_end(&mut buf), Err(Error::UnexpectedEOF));
}

#[test]
fn test_snappy_reader_corrupted_chunk() {
    let mut stream =
        vec![0x82, b'S', b'N', b'A', b'P', b'P', b'Y', 0x00, 0, 0, 0, 1, 0, 0, 0, 1];
    let corrupt = [12, 42, 84, 104, 105, 115, 32, 105, 115, 32, 116, 101, 115, 116];
    stream.extend_from_slice(&(corrupt.len() as u32).to_be_bytes());
    stream.extend_from_slice(&corrupt);
    let mut r = SnappyReader::new(&stream).unwrap();
    let mut buf = Vec::new();
    assert_eq!(r.read_to_end(&mut buf), Err(Error::InvalidInputSnappy));
}

#[test]
fn test_compress_uncompress_round_trip() {
    let data = b"some reasonably repetitive data data data data data";
    let compressed = compress(data).unwrap();
    assert_eq!(uncompress(&compressed).unwrap(), data.to_vec());
}
