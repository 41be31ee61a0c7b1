use broker_codec::codecs::{FromByte, ToByte};
use broker_codec::error::Error;
use broker_codec::wire::ByteReader;

fn encoded<T: ToByte>(v: &T) -> Vec<u8> {
    let mut buf = Vec::new();
    v.encode(&mut buf).unwrap();
    buf
}

#[test]
fn test_i8_round_trip() {
    for v in [i8::MIN, -1, 0, 1, 42, i8::MAX] {
        let buf = encoded(&v);
        assert_eq!(buf.len(), 1);
        let mut r = ByteReader::new(buf);
        assert_eq!(i8::decode_new(&mut r).unwrap(), v);
    }
}

#[test]
fn test_i16_round_trip() {
    for v in [i16::MIN, -1, 0, 1, 0x1234, i16::MAX] {
        let buf = encoded(&v);
        assert_eq!(buf.len(), 2);
        let mut r = ByteReader::new(buf);
        assert_eq!(i16::decode_new(&mut r).unwrap(), v);
    }
}

#[test]
fn test_i32_round_trip() {
    for v in [i32::MIN, -1, 0, 1, 0x12345678, i32::MAX] {
        let buf = encoded(&v);
        assert_eq!(buf.len(), 4);
        let mut r = ByteReader::new(buf);
        assert_eq!(i32::decode_new(&mut r).unwrap(), v);
    }
}

#[test]
fn test_i64_round_trip() {
    for v in [i64::MIN, -1, 0, 1, 0x0123_4567_89ab_cdef, i64::MAX] {
        let buf = encoded(&v);
        assert_eq!(buf.len(), 8);
        let mut r = ByteReader::new(buf);
        assert_eq!(i64::decode_new(&mut r).unwrap(), v);
    }
}

#[test]
fn test_integer_wire_bytes_are_big_endian() {
    assert_eq!(encoded(&1i32), vec![0, 0, 0, 1]);
    assert_eq!(encoded(&-1i16), vec![0xff, 0xff]);
    assert_eq!(encoded(&-2i32), vec![0xff, 0xff, 0xff, 0xfe]);
    assert_eq!(encoded(&0x0102_0304_0506_0708i64), vec![1, 2, 3, 4, 5, 6, 7, 8]);
    assert_eq!(encoded(&i64::MIN), vec![0x80, 0, 0, 0, 0, 0, 0, 0]);
}

#[test]
fn test_integer_decode_eof() {
    let mut r = ByteReader::new(vec![0, 0, 0]);
    assert_eq!(i32::decode_new(&mut r), Err(Error::UnexpectedEOF));
    let mut r = ByteReader::new(vec![]);
    assert_eq!(i8::decode_new(&mut r), Err(Error::UnexpectedEOF));
}

#[test]
fn test_string_round_trip() {
    for s in ["", "a", "This is test", "sn\u{e4}ppy \u{1f980} stream"] {
        let v = String::from(s);
        let buf = encoded(&v);
        let mut r = ByteReader::new(buf);
        assert_eq!(String::decode_new(&mut r).unwrap(), v);
    }
}

#[test]
fn test_string_wire_has_length_prefix() {
    let buf = encoded(&String::from("ab"));
    assert_eq!(buf, vec![0, 2, b'a', b'b']);
}

#[test]
fn test_string_too_long_is_codec_error() {
    let v: String = std::iter::repeat('x').take(32768).collect();
    let mut buf = Vec::new();
    assert_eq!(v.encode(&mut buf), Err(Error::CodecError));
    assert!(buf.is_empty());
    let fits: String = std::iter::repeat('x').take(32767).collect();
    assert!(fits.encode(&mut buf).is_ok());
}

#[test]
fn test_string_decode_negative_length() {
    // Declared length -1: the string category treats any negative
    // declared length as an unexpected end of input.
    let mut r = ByteReader::new(vec![0xff, 0xff, b'a']);
    assert_eq!(String::decode_new(&mut r), Err(Error::UnexpectedEOF));
}

#[test]
fn test_string_decode_short_payload() {
    let mut r = ByteReader::new(vec![0, 5, b'a', b'b']);
    assert_eq!(String::decode_new(&mut r), Err(Error::UnexpectedEOF));
}

#[test]
fn test_string_decode_invalid_utf8() {
    let mut r = ByteReader::new(vec![0, 2, 0xc3, 0x28]);
    assert_eq!(String::decode_new(&mut r), Err(Error::UnexpectedEOF));
}

#[test]
fn test_vec_i32_round_trip() {
    let v: Vec<i32> = vec![-2, -1, 0, 1, i32::MAX, i32::MIN];
    let buf = encoded(&v);
    assert_eq!(buf.len(), 4 + 4 * v.len());
    assert_eq!(&buf[..4], &[0, 0, 0, 6]);
    let mut r = ByteReader::new(buf);
    assert_eq!(Vec::<i32>::decode_new(&mut r).unwrap(), v);
}

#[test]
fn test_vec_u8_round_trip() {
    let v: Vec<u8> = vec![0, 1, 254, 255, 42];
    let buf = encoded(&v);
    assert_eq!(buf, vec![0, 0, 0, 5, 0, 1, 254, 255, 42]);
    let mut r = ByteReader::new(buf);
    assert_eq!(Vec::<u8>::decode_new(&mut r).unwrap(), v);
}

#[test]
fn test_vec_string_round_trip() {
    let v: Vec<String> = vec![String::from("one"), String::from(""), String::from("three")];
    let buf = encoded(&v);
    let mut r = ByteReader::new(buf);
    assert_eq!(Vec::<String>::decode_new(&mut r).unwrap(), v);
}

#[test]
fn test_nested_vec_round_trip() {
    let v: Vec<Vec<u8>> = vec![vec![1, 2], vec![], vec![3]];
    let buf = encoded(&v);
    let mut r = ByteReader::new(buf);
    assert_eq!(Vec::<Vec<u8>>::decode_new(&mut r).unwrap(), v);
}

#[test]
fn test_vec_encode_nolen_and_counted_decode() {
    let v: Vec<i16> = vec![3, -4, 5];
    let mut buf = Vec::new();
    v.encode_nolen(&mut buf).unwrap();
    assert_eq!(buf.len(), 2 * v.len());
    // A caller that knows the count decodes the elements one by one.
    let mut r = ByteReader::new(buf);
    let mut back: Vec<i16> = Vec::new();
    for _ in 0..3 {
        back.push(i16::decode_new(&mut r).unwrap());
    }
    assert_eq!(back, v);
}

#[test]
fn test_int_encode_nolen_equals_encode() {
    let mut with_len = Vec::new();
    let mut nolen = Vec::new();
    0x55667788i32.encode(&mut with_len).unwrap();
    0x55667788i32.encode_nolen(&mut nolen).unwrap();
    assert_eq!(with_len, nolen);
}

#[test]
fn test_vec_decode_non_positive_count_is_empty() {
    // Count 0.
    let mut r = ByteReader::new(vec![0, 0, 0, 0]);
    assert_eq!(Vec::<i32>::decode_new(&mut r).unwrap(), Vec::<i32>::new());
    // Count -1: non-positive counts decode to the empty sequence.
    let mut r = ByteReader::new(vec![0xff, 0xff, 0xff, 0xff, 9, 9]);
    assert_eq!(Vec::<u8>::decode_new(&mut r).unwrap(), Vec::<u8>::new());
}

#[test]
fn test_vec_decode_short_elements() {
    // Declared count 2 but only one full element present.
    let mut r = ByteReader::new(vec![0, 0, 0, 2, 0, 0, 0, 1]);
    assert_eq!(Vec::<i32>::decode_new(&mut r), Err(Error::UnexpectedEOF));
}

#[test]
fn test_decode_into_existing_vec_appends() {
    let mut v: Vec<u8> = vec![7];
    let mut r = ByteReader::new(vec![0, 0, 0, 2, 8, 9]);
    v.decode(&mut r).unwrap();
    assert_eq!(v, vec![7, 8, 9]);
}

#[test]
fn test_decode_consumes_exactly_the_encoding() {
    let mut buf = encoded(&String::from("hi"));
    buf.extend_from_slice(&[0, 0, 0, 1]);
    let mut r = ByteReader::new(buf);
    assert_eq!(String::decode_new(&mut r).unwrap(), "hi");
    assert_eq!(i32::decode_new(&mut r).unwrap(), 1);
}
