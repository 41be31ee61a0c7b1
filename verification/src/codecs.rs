//! Type-directed encode/decode substrate for the wire format.
//!
//! Each encodable category implements [`ToByte`] (serialisation into a
//! byte buffer) and [`FromByte`] (deserialisation from a [`ByteReader`]).
//! The categories are: fixed-width big-endian signed integers, raw
//! bytes, length-prefixed strings, and count-prefixed sequences.
//!
//! Every implementation carries a full functional contract: `wire`
//! gives the exact bytes a value encodes to, `parsed` gives the exact
//! value and length a buffer decodes to, and `lemma_round_trip` proves
//! that decoding inverts encoding.

use vstd::prelude::*;

use crate::error::Error;
use crate::wire::{
    be_bytes, from_be, i16_to_u16, i32_to_u32, i64_to_u64, i8_to_u8, lemma_be_bytes_len,
    lemma_from_be_bound, lemma_from_be_of_be, lemma_pow256_vals, push_be, to_signed, to_unsigned,
    u16_to_i16, u32_to_i32, u64_to_i64, u8_to_i8, ByteReader,
};
use vstd::utf8::{decode_utf8, encode_utf8, valid_utf8};

verus! {

/// Serialisation into the wire format.
pub trait ToByte {
    /// The value's complete wire-format bytes.
    spec fn wire(&self) -> Seq<u8>;

    /// The wire bytes without the leading count or length, for the
    /// categories that carry one; equal to `wire` for the others.
    spec fn wire_nolen(&self) -> Seq<u8>;

    /// Whether every count or length the complete wire format carries
    /// fits its fixed-width field.
    spec fn encodable(&self) -> bool;

    /// As `encodable`, for the no-length variant.
    spec fn encodable_nolen(&self) -> bool;

    /// Whether the value's own leading count or length fits its
    /// field; trivially true for the categories without one. `encode`
    /// checks it before writing anything.
    spec fn length_fits(&self) -> bool;

    /// Appends the value's wire-format bytes to `buffer`. When the
    /// value's own length check fails nothing has been written; after
    /// a failure deeper in a composite the buffer holds an unspecified
    /// prefix of the attempt and must be discarded by the caller.
    fn encode(&self, buffer: &mut Vec<u8>) -> (r: Result<(), Error>)
        ensures
            r is Ok <==> self.encodable(),
            self.encodable() ==> final(buffer)@ == old(buffer)@ + self.wire(),
            !self.length_fits() ==> final(buffer)@ == old(buffer)@,
            r is Err ==> r == Err::<(), Error>(Error::CodecError),
    ;

    /// As `encode`, but omits the leading count or length.
    fn encode_nolen(&self, buffer: &mut Vec<u8>) -> (r: Result<(), Error>)
        ensures
            r is Ok <==> self.encodable_nolen(),
            self.encodable_nolen() ==> final(buffer)@ == old(buffer)@ + self.wire_nolen(),
            r is Err ==> r == Err::<(), Error>(Error::CodecError),
    ;
}

/// Deserialisation from the wire format.
pub trait FromByte: ToByte + Sized {
    /// The mathematical model of a decoded value.
    type Repr;

    /// The model this value stands for.
    spec fn repr(&self) -> Self::Repr;

    /// What decoding finds at the front of `s`: the decoded value's
    /// model and the number of bytes its encoding occupies, or `None`
    /// if `s` does not begin with a well-formed encoding.
    spec fn parsed(s: Seq<u8>) -> Option<(Self::Repr, int)>;

    /// How a decoded value combines with the value decoded into:
    /// sequences append, every other category is replaced.
    spec fn merged(prev: Self::Repr, v: Self::Repr) -> Self::Repr;

    /// Populates `self` from the front of the reader, consuming exactly
    /// the bytes the wire format requires. On failure the value and the
    /// reader position are unspecified and must be discarded.
    fn decode(&mut self, reader: &mut ByteReader) -> (r: Result<(), Error>)
        requires
            old(reader).wf(),
        ensures
            final(reader).wf(),
            final(reader).all_bytes() == old(reader).all_bytes(),
            old(reader).pos_spec() <= final(reader).pos_spec(),
            r is Ok <==> Self::parsed(old(reader).remaining()) is Some,
            r is Err ==> r == Err::<(), Error>(Error::UnexpectedEOF),
            Self::parsed(old(reader).remaining()) matches Some((v, n)) ==> (final(self).repr()
                == Self::merged(old(self).repr(), v) && final(reader).pos_spec() == old(
                reader,
            ).pos_spec() + n),
    ;

    /// Decodes a fresh value from the front of the reader.
    fn decode_new(reader: &mut ByteReader) -> (r: Result<Self, Error>)
        requires
            old(reader).wf(),
        ensures
            final(reader).wf(),
            final(reader).all_bytes() == old(reader).all_bytes(),
            old(reader).pos_spec() <= final(reader).pos_spec(),
            r is Ok <==> Self::parsed(old(reader).remaining()) is Some,
            r matches Err(e) ==> e == Error::UnexpectedEOF,
            Self::parsed(old(reader).remaining()) matches Some((v, n)) ==> (r matches Ok(x)
                && x.repr() == v && final(reader).pos_spec() == old(reader).pos_spec() + n),
    ;

    /// Decoding inverts encoding: a buffer that begins with the
    /// encoding of an encodable value parses back to exactly that
    /// value's model, consuming exactly the encoding.
    proof fn lemma_round_trip(&self, tail: Seq<u8>)
        requires
            self.encodable(),
        ensures
            Self::parsed(self.wire() + tail) == Some((self.repr(), self.wire().len() as int)),
    ;
}

// --- fixed-width signed integers -------------------------------------

impl ToByte for i8 {
    open spec fn wire(&self) -> Seq<u8> {
        be_bytes(to_unsigned(*self as int, 1), 1)
    }

    open spec fn wire_nolen(&self) -> Seq<u8> {
        self.wire()
    }

    open spec fn encodable(&self) -> bool {
        true
    }

    open spec fn encodable_nolen(&self) -> bool {
        true
    }

    open spec fn length_fits(&self) -> bool {
        true
    }

    fn encode(&self, buffer: &mut Vec<u8>) -> (r: Result<(), Error>) {
        let x = i8_to_u8(*self);
        push_be(buffer, x as u64, 1);
        Ok(())
    }

    fn encode_nolen(&self, buffer: &mut Vec<u8>) -> (r: Result<(), Error>) {
        self.encode(buffer)
    }
}

impl FromByte for i8 {
    type Repr = i8;

    open spec fn repr(&self) -> i8 {
        *self
    }

    open spec fn parsed(s: Seq<u8>) -> Option<(i8, int)> {
        if s.len() < 1 {
            None
        } else {
            Some((to_signed(from_be(s.take(1)), 1) as i8, 1))
        }
    }

    open spec fn merged(prev: i8, v: i8) -> i8 {
        v
    }

    fn decode(&mut self, reader: &mut ByteReader) -> (r: Result<(), Error>) {
        let ghost orig = reader.remaining();
        match reader.read_be(1) {
            None => Err(Error::UnexpectedEOF),
            Some(x) => {
                proof {
                    lemma_from_be_bound(orig.take(1));
                    lemma_pow256_vals();
                }
                *self = u8_to_i8(x as u8);
                Ok(())
            },
        }
    }

    fn decode_new(reader: &mut ByteReader) -> (r: Result<i8, Error>) {
        let mut v: i8 = 0;
        match v.decode(reader) {
            Ok(()) => Ok(v),
            Err(e) => Err(e),
        }
    }

    proof fn lemma_round_trip(&self, tail: Seq<u8>) {
        lemma_pow256_vals();
        let u = to_unsigned(*self as int, 1);
        lemma_be_bytes_len(u, 1);
        assert((self.wire() + tail).take(1) =~= self.wire());
        lemma_from_be_of_be(u, 1);
    }
}

impl ToByte for i16 {
    open spec fn wire(&self) -> Seq<u8> {
        be_bytes(to_unsigned(*self as int, 2), 2)
    }

    open spec fn wire_nolen(&self) -> Seq<u8> {
        self.wire()
    }

    open spec fn encodable(&self) -> bool {
        true
    }

    open spec fn encodable_nolen(&self) -> bool {
        true
    }

    open spec fn length_fits(&self) -> bool {
        true
    }

    fn encode(&self, buffer: &mut Vec<u8>) -> (r: Result<(), Error>) {
        let x = i16_to_u16(*self);
        push_be(buffer, x as u64, 2);
        Ok(())
    }

    fn encode_nolen(&self, buffer: &mut Vec<u8>) -> (r: Result<(), Error>) {
        self.encode(buffer)
    }
}

impl FromByte for i16 {
    type Repr = i16;

    open spec fn repr(&self) -> i16 {
        *self
    }

    open spec fn parsed(s: Seq<u8>) -> Option<(i16, int)> {
        if s.len() < 2 {
            None
        } else {
            Some((to_signed(from_be(s.take(2)), 2) as i16, 2))
        }
    }

    open spec fn merged(prev: i16, v: i16) -> i16 {
        v
    }

    fn decode(&mut self, reader: &mut ByteReader) -> (r: Result<(), Error>) {
        let ghost orig = reader.remaining();
        match reader.read_be(2) {
            None => Err(Error::UnexpectedEOF),
            Some(x) => {
                proof {
                    lemma_from_be_bound(orig.take(2));
                    lemma_pow256_vals();
                }
                *self = u16_to_i16(x as u16);
                Ok(())
            },
        }
    }

    fn decode_new(reader: &mut ByteReader) -> (r: Result<i16, Error>) {
        let mut v: i16 = 0;
        match v.decode(reader) {
            Ok(()) => Ok(v),
            Err(e) => Err(e),
        }
    }

    proof fn lemma_round_trip(&self, tail: Seq<u8>) {
        lemma_pow256_vals();
        let u = to_unsigned(*self as int, 2);
        lemma_be_bytes_len(u, 2);
        assert((self.wire() + tail).take(2) =~= self.wire());
        lemma_from_be_of_be(u, 2);
    }
}

impl ToByte for i32 {
    open spec fn wire(&self) -> Seq<u8> {
        be_bytes(to_unsigned(*self as int, 4), 4)
    }

    open spec fn wire_nolen(&self) -> Seq<u8> {
        self.wire()
    }

    open spec fn encodable(&self) -> bool {
        true
    }

    open spec fn encodable_nolen(&self) -> bool {
        true
    }

    open spec fn length_fits(&self) -> bool {
        true
    }

    fn encode(&self, buffer: &mut Vec<u8>) -> (r: Result<(), Error>) {
        let x = i32_to_u32(*self);
        push_be(buffer, x as u64, 4);
        Ok(())
    }

    fn encode_nolen(&self, buffer: &mut Vec<u8>) -> (r: Result<(), Error>) {
        self.encode(buffer)
    }
}

impl FromByte for i32 {
    type Repr = i32;

    open spec fn repr(&self) -> i32 {
        *self
    }

    open spec fn parsed(s: Seq<u8>) -> Option<(i32, int)> {
        if s.len() < 4 {
            None
        } else {
            Some((to_signed(from_be(s.take(4)), 4) as i32, 4))
        }
    }

    open spec fn merged(prev: i32, v: i32) -> i32 {
        v
    }

    fn decode(&mut self, reader: &mut ByteReader) -> (r: Result<(), Error>) {
        let ghost orig = reader.remaining();
        match reader.read_be(4) {
            None => Err(Error::UnexpectedEOF),
            Some(x) => {
                proof {
                    lemma_from_be_bound(orig.take(4));
                    lemma_pow256_vals();
                }
                *self = u32_to_i32(x as u32);
                Ok(())
            },
        }
    }

    fn decode_new(reader: &mut ByteReader) -> (r: Result<i32, Error>) {
        let mut v: i32 = 0;
        match v.decode(reader) {
            Ok(()) => Ok(v),
            Err(e) => Err(e),
        }
    }

    proof fn lemma_round_trip(&self, tail: Seq<u8>) {
        lemma_pow256_vals();
        let u = to_unsigned(*self as int, 4);
        lemma_be_bytes_len(u, 4);
        assert((self.wire() + tail).take(4) =~= self.wire());
        lemma_from_be_of_be(u, 4);
    }
}

impl ToByte for i64 {
    open spec fn wire(&self) -> Seq<u8> {
        be_bytes(to_unsigned(*self as int, 8), 8)
    }

    open spec fn wire_nolen(&self) -> Seq<u8> {
        self.wire()
    }

    open spec fn encodable(&self) -> bool {
        true
    }

    open spec fn encodable_nolen(&self) -> bool {
        true
    }

    open spec fn length_fits(&self) -> bool {
        true
    }

    fn encode(&self, buffer: &mut Vec<u8>) -> (r: Result<(), Error>) {
        let x = i64_to_u64(*self);
        push_be(buffer, x, 8);
        Ok(())
    }

    fn encode_nolen(&self, buffer: &mut Vec<u8>) -> (r: Result<(), Error>) {
        self.encode(buffer)
    }
}

impl FromByte for i64 {
    type Repr = i64;

    open spec fn repr(&self) -> i64 {
        *self
    }

    open spec fn parsed(s: Seq<u8>) -> Option<(i64, int)> {
        if s.len() < 8 {
            None
        } else {
            Some((to_signed(from_be(s.take(8)), 8) as i64, 8))
        }
    }

    open spec fn merged(prev: i64, v: i64) -> i64 {
        v
    }

    fn decode(&mut self, reader: &mut ByteReader) -> (r: Result<(), Error>) {
        let ghost orig = reader.remaining();
        match reader.read_be(8) {
            None => Err(Error::UnexpectedEOF),
            Some(x) => {
                proof {
                    lemma_from_be_bound(orig.take(8));
                    lemma_pow256_vals();
                }
                *self = u64_to_i64(x);
                Ok(())
            },
        }
    }

    fn decode_new(reader: &mut ByteReader) -> (r: Result<i64, Error>) {
        let mut v: i64 = 0;
        match v.decode(reader) {
            Ok(()) => Ok(v),
            Err(e) => Err(e),
        }
    }

    proof fn lemma_round_trip(&self, tail: Seq<u8>) {
        lemma_pow256_vals();
        let u = to_unsigned(*self as int, 8);
        lemma_be_bytes_len(u, 8);
        assert((self.wire() + tail).take(8) =~= self.wire());
        lemma_from_be_of_be(u, 8);
    }
}

// --- raw bytes --------------------------------------------------------

/// A raw byte encodes as itself, so a `Vec<u8>` through the sequence
/// implementation below has exactly the byte-sequence wire format: a
/// 32-bit count followed by the payload verbatim.
impl ToByte for u8 {
    open spec fn wire(&self) -> Seq<u8> {
        seq![*self]
    }

    open spec fn wire_nolen(&self) -> Seq<u8> {
        self.wire()
    }

    open spec fn encodable(&self) -> bool {
        true
    }

    open spec fn encodable_nolen(&self) -> bool {
        true
    }

    open spec fn length_fits(&self) -> bool {
        true
    }

    fn encode(&self, buffer: &mut Vec<u8>) -> (r: Result<(), Error>) {
        buffer.push(*self);
        proof {
            assert(buffer@ =~= old(buffer)@ + seq![*self]);
        }
        Ok(())
    }

    fn encode_nolen(&self, buffer: &mut Vec<u8>) -> (r: Result<(), Error>) {
        self.encode(buffer)
    }
}

impl FromByte for u8 {
    type Repr = u8;

    open spec fn repr(&self) -> u8 {
        *self
    }

    open spec fn parsed(s: Seq<u8>) -> Option<(u8, int)> {
        if s.len() < 1 {
            None
        } else {
            Some((s[0], 1))
        }
    }

    open spec fn merged(prev: u8, v: u8) -> u8 {
        v
    }

    fn decode(&mut self, reader: &mut ByteReader) -> (r: Result<(), Error>) {
        let ghost orig = reader.remaining();
        match reader.read_be(1) {
            None => Err(Error::UnexpectedEOF),
            Some(x) => {
                proof {
                    lemma_from_be_bound(orig.take(1));
                    lemma_pow256_vals();
                    assert(orig.take(1).drop_last() =~= Seq::<u8>::empty());
                    assert(orig.take(1).last() == orig[0]);
                }
                *self = x as u8;
                Ok(())
            },
        }
    }

    fn decode_new(reader: &mut ByteReader) -> (r: Result<u8, Error>) {
        let mut v: u8 = 0;
        match v.decode(reader) {
            Ok(()) => Ok(v),
            Err(e) => Err(e),
        }
    }

    proof fn lemma_round_trip(&self, tail: Seq<u8>) {
        assert((self.wire() + tail)[0] == *self);
    }
}

// --- length-prefixed strings -----------------------------------------

/// Relies on `String::from_utf8`: it returns `Ok` exactly on valid
/// UTF-8 input, and the returned string's characters are the UTF-8
/// decoding of those bytes.
#[verifier::external_body]
fn string_from_utf8(bytes: Vec<u8>) -> (r: Option<String>)
    ensures
        r is Some <==> valid_utf8(bytes@),
        r matches Some(s) ==> s@ == decode_utf8(bytes@),
{
    match String::from_utf8(bytes) {
        Ok(s) => Some(s),
        Err(_) => None,
    }
}

impl ToByte for String {
    open spec fn wire(&self) -> Seq<u8> {
        be_bytes(to_unsigned(encode_utf8(self@).len() as int, 2), 2) + encode_utf8(self@)
    }

    open spec fn wire_nolen(&self) -> Seq<u8> {
        self.wire()
    }

    open spec fn encodable(&self) -> bool {
        encode_utf8(self@).len() <= 32767
    }

    open spec fn encodable_nolen(&self) -> bool {
        self.encodable()
    }

    open spec fn length_fits(&self) -> bool {
        self.encodable()
    }

    fn encode(&self, buffer: &mut Vec<u8>) -> (r: Result<(), Error>) {
        let bs = self.as_str().as_bytes();
        if bs.len() > 32767 {
            return Err(Error::CodecError);
        }
        proof {
            lemma_pow256_vals();
        }
        push_be(buffer, bs.len() as u64, 2);
        buffer.extend_from_slice(bs);
        proof {
            assert(buffer@ =~= old(buffer)@ + self.wire());
        }
        Ok(())
    }

    fn encode_nolen(&self, buffer: &mut Vec<u8>) -> (r: Result<(), Error>) {
        self.encode(buffer)
    }
}

/// A negative declared length, and a payload that is not valid UTF-8,
/// are both decode errors for the string category, reported as an
/// unexpected end of input.
impl FromByte for String {
    type Repr = Seq<char>;

    open spec fn repr(&self) -> Seq<char> {
        self@
    }

    open spec fn parsed(s: Seq<u8>) -> Option<(Seq<char>, int)> {
        if s.len() < 2 {
            None
        } else {
            let l = to_signed(from_be(s.take(2)), 2);
            if l < 0 {
                None
            } else if s.len() < 2 + l {
                None
            } else {
                let b = s.subrange(2, 2 + l);
                if valid_utf8(b) {
                    Some((decode_utf8(b), 2 + l))
                } else {
                    None
                }
            }
        }
    }

    open spec fn merged(prev: Seq<char>, v: Seq<char>) -> Seq<char> {
        v
    }

    fn decode(&mut self, reader: &mut ByteReader) -> (r: Result<(), Error>) {
        let ghost orig = reader.remaining();
        let x = match reader.read_be(2) {
            None => {
                return Err(Error::UnexpectedEOF);
            },
            Some(x) => x,
        };
        proof {
            lemma_from_be_bound(orig.take(2));
            lemma_pow256_vals();
            assert(reader.remaining() =~= orig.skip(2));
        }
        let l = u16_to_i16(x as u16);
        if l < 0 {
            return Err(Error::UnexpectedEOF);
        }
        let bytes = match reader.take_bytes(l as usize) {
            None => {
                return Err(Error::UnexpectedEOF);
            },
            Some(b) => b,
        };
        proof {
            assert(orig.skip(2).take(l as int) =~= orig.subrange(2, 2 + l as int));
        }
        match string_from_utf8(bytes) {
            None => Err(Error::UnexpectedEOF),
            Some(s) => {
                *self = s;
                Ok(())
            },
        }
    }

    fn decode_new(reader: &mut ByteReader) -> (r: Result<String, Error>) {
        let mut v = String::new();
        match v.decode(reader) {
            Ok(()) => Ok(v),
            Err(e) => Err(e),
        }
    }

    proof fn lemma_round_trip(&self, tail: Seq<u8>) {
        lemma_pow256_vals();
        let b = encode_utf8(self@);
        let l = b.len() as int;
        let u = to_unsigned(l, 2);
        lemma_be_bytes_len(u, 2);
        assert((self.wire() + tail).take(2) =~= be_bytes(u, 2));
        lemma_from_be_of_be(u, 2);
        assert((self.wire() + tail).subrange(2, 2 + l) =~= b);
        vstd::utf8::encode_utf8_valid_utf8(self@);
        vstd::utf8::encode_utf8_decode_utf8(self@);
    }
}

// --- count-prefixed sequences ----------------------------------------

/// The concatenated encodings of the elements of `s`: the sequence
/// wire format without its leading count.
pub open spec fn elems_wire<V: ToByte>(s: Seq<V>) -> Seq<u8>
    decreases s.len(),
{
    if s.len() == 0 {
        Seq::empty()
    } else {
        elems_wire(s.drop_last()) + s.last().wire()
    }
}

/// Whether every element of `s` is encodable.
pub open spec fn all_encodable<V: ToByte>(s: Seq<V>) -> bool {
    forall|i: int| 0 <= i < s.len() ==> (#[trigger] s[i]).encodable()
}

/// What parsing `n` consecutive element encodings from the front of
/// `s` finds: their models and the total bytes consumed.
pub open spec fn parse_elems<V: FromByte>(s: Seq<u8>, n: int) -> Option<(Seq<V::Repr>, int)>
    decreases n,
{
    if n <= 0 {
        Some((Seq::empty(), 0))
    } else {
        match V::parsed(s) {
            None => None,
            Some((v, used)) => match parse_elems::<V>(s.skip(used), n - 1) {
                None => None,
                Some((vs, used2)) => Some((seq![v] + vs, used + used2)),
            },
        }
    }
}

/// A non-empty concatenation of encodings starts with the first
/// element's encoding.
proof fn lemma_elems_wire_first<V: ToByte>(s: Seq<V>)
    requires
        s.len() > 0,
    ensures
        elems_wire(s) == s.first().wire() + elems_wire(s.drop_first()),
    decreases s.len(),
{
    if s.len() == 1 {
        assert(s.drop_last() =~= Seq::<V>::empty());
        assert(s.drop_first() =~= Seq::<V>::empty());
        assert(elems_wire(s) =~= s.first().wire() + elems_wire(s.drop_first()));
    } else {
        lemma_elems_wire_first::<V>(s.drop_last());
        assert(s.drop_last().drop_first() =~= s.drop_first().drop_last());
        assert(s.drop_last().first() == s.first());
        assert(s.drop_first().last() == s.last());
        assert(elems_wire(s) =~= s.first().wire() + elems_wire(s.drop_first()));
    }
}

/// Parsing as many element encodings as were concatenated (the
/// no-length sequence format with a caller-known count) yields back
/// exactly the elements' models, consuming exactly the concatenation.
pub proof fn lemma_elems_round_trip<V: FromByte>(s: Seq<V>, tail: Seq<u8>)
    requires
        all_encodable(s),
    ensures
        parse_elems::<V>(elems_wire(s) + tail, s.len() as int) == Some(
            (s.map_values(|v: V| v.repr()), elems_wire(s).len() as int),
        ),
    decreases s.len(),
{
    if s.len() == 0 {
        assert(s.map_values(|v: V| v.repr()) =~= Seq::<V::Repr>::empty());
    } else {
        let first = s.first();
        let rest = s.drop_first();
        lemma_elems_wire_first::<V>(s);
        assert(all_encodable(rest)) by {
            assert forall|i: int| 0 <= i < rest.len() implies (#[trigger] rest[i]).encodable() by {
                assert(rest[i] == s[i + 1]);
            }
        }
        assert(first.encodable());
        first.lemma_round_trip(elems_wire(rest) + tail);
        let w = elems_wire(s) + tail;
        assert(w =~= first.wire() + (elems_wire(rest) + tail));
        let fl = first.wire().len() as int;
        assert(w.skip(fl) =~= elems_wire(rest) + tail);
        lemma_elems_round_trip::<V>(rest, tail);
        assert(s.map_values(|v: V| v.repr()) =~= seq![first.repr()] + rest.map_values(
            |v: V| v.repr(),
        ));
    }
}

impl<V: ToByte> ToByte for Vec<V> {
    open spec fn wire(&self) -> Seq<u8> {
        be_bytes(to_unsigned(self@.len() as int, 4), 4) + elems_wire(self@)
    }

    open spec fn wire_nolen(&self) -> Seq<u8> {
        elems_wire(self@)
    }

    open spec fn encodable(&self) -> bool {
        self@.len() <= 0x7fff_ffff && all_encodable(self@)
    }

    open spec fn encodable_nolen(&self) -> bool {
        all_encodable(self@)
    }

    open spec fn length_fits(&self) -> bool {
        self@.len() <= 0x7fff_ffff
    }

    fn encode(&self, buffer: &mut Vec<u8>) -> (r: Result<(), Error>) {
        let len = self.len();
        if len > 0x7fff_ffff {
            return Err(Error::CodecError);
        }
        proof {
            lemma_pow256_vals();
        }
        push_be(buffer, len as u64, 4);
        let ghost pre = buffer@;
        let mut i: usize = 0;
        proof {
            assert(buffer@ =~= pre + elems_wire(self@.take(0)));
        }
        while i < len
            invariant
                i <= len,
                len == self@.len(),
                len <= 0x7fff_ffff,
                all_encodable(self@.take(i as int)),
                buffer@ == pre + elems_wire(self@.take(i as int)),
                pre == old(buffer)@ + be_bytes(to_unsigned(self@.len() as int, 4), 4),
            decreases len - i,
        {
            match self[i].encode(buffer) {
                Ok(()) => {},
                Err(_) => {
                    proof {
                        assert(!(self@[i as int]).encodable());
                    }
                    return Err(Error::CodecError);
                },
            }
            proof {
                assert(self@.take(i + 1).drop_last() =~= self@.take(i as int));
                assert(self@.take(i + 1).last() == self@[i as int]);
                assert(buffer@ =~= pre + elems_wire(self@.take(i + 1)));
            }
            i = i + 1;
        }
        proof {
            assert(self@.take(len as int) =~= self@);
            assert(buffer@ =~= old(buffer)@ + self.wire());
        }
        Ok(())
    }

    fn encode_nolen(&self, buffer: &mut Vec<u8>) -> (r: Result<(), Error>) {
        let len = self.len();
        let ghost pre = buffer@;
        let mut i: usize = 0;
        proof {
            assert(buffer@ =~= pre + elems_wire(self@.take(0)));
        }
        while i < len
            invariant
                i <= len,
                len == self@.len(),
                all_encodable(self@.take(i as int)),
                buffer@ == pre + elems_wire(self@.take(i as int)),
                pre == old(buffer)@,
            decreases len - i,
        {
            match self[i].encode(buffer) {
                Ok(()) => {},
                Err(_) => {
                    proof {
                        assert(!(self@[i as int]).encodable());
                    }
                    return Err(Error::CodecError);
                },
            }
            proof {
                assert(self@.take(i + 1).drop_last() =~= self@.take(i as int));
                assert(self@.take(i + 1).last() == self@[i as int]);
                assert(buffer@ =~= pre + elems_wire(self@.take(i + 1)));
            }
            i = i + 1;
        }
        proof {
            assert(self@.take(len as int) =~= self@);
        }
        Ok(())
    }
}

/// A non-positive declared count decodes to the empty sequence without
/// error, and decoding appends the decoded elements to the sequence
/// decoded into.
impl<V: FromByte> FromByte for Vec<V> {
    type Repr = Seq<V::Repr>;

    open spec fn repr(&self) -> Seq<V::Repr> {
        self@.map_values(|v: V| v.repr())
    }

    open spec fn parsed(s: Seq<u8>) -> Option<(Seq<V::Repr>, int)> {
        if s.len() < 4 {
            None
        } else {
            let c = to_signed(from_be(s.take(4)), 4);
            if c <= 0 {
                Some((Seq::empty(), 4))
            } else {
                match parse_elems::<V>(s.skip(4), c) {
                    None => None,
                    Some((vs, used)) => Some((vs, 4 + used)),
                }
            }
        }
    }

    open spec fn merged(prev: Seq<V::Repr>, v: Seq<V::Repr>) -> Seq<V::Repr> {
        prev + v
    }

    #[verifier::loop_isolation(false)]
    fn decode(&mut self, reader: &mut ByteReader) -> (r: Result<(), Error>) {
        let ghost orig_rem = reader.remaining();
        let ghost orig_self = self@;
        let ghost all0 = reader.all_bytes();
        let ghost pos0 = reader.pos_spec();
        let x = match reader.read_be(4) {
            None => {
                return Err(Error::UnexpectedEOF);
            },
            Some(x) => x,
        };
        proof {
            lemma_from_be_bound(orig_rem.take(4));
            lemma_pow256_vals();
            assert(reader.remaining() =~= orig_rem.skip(4));
        }
        let c = u32_to_i32(x as u32);
        if c <= 0 {
            proof {
                assert(self@.map_values(|v: V| v.repr()) =~= orig_self.map_values(|v: V| v.repr())
                    + Seq::<V::Repr>::empty());
            }
            return Ok(());
        }
        let ghost elems_rem = reader.remaining();
        let ghost pos1 = reader.pos_spec();
        proof {
            if let Some((vs, used)) = parse_elems::<V>(elems_rem, c as int) {
                assert(Seq::<V::Repr>::empty() + vs =~= vs);
            }
            assert(self@.skip(orig_self.len() as int) =~= Seq::<V>::empty());
            assert(Seq::<V>::empty().map_values(|v: V| v.repr()) =~= Seq::<V::Repr>::empty());
        }
        let mut i: i32 = 0;
        while i < c
            invariant
                0 <= i <= c,
                reader.wf(),
                reader.all_bytes() == all0,
                pos1 <= reader.pos_spec(),
                elems_rem == all0.skip(pos1),
                0 <= pos1 <= all0.len(),
                self@.len() == orig_self.len() + i,
                self@.take(orig_self.len() as int) == orig_self,
                ({
                    let done = self@.skip(orig_self.len() as int).map_values(|v: V| v.repr());
                    let spent = reader.pos_spec() - pos1;
                    match parse_elems::<V>(reader.remaining(), c - i) {
                        None => parse_elems::<V>(elems_rem, c as int) is None,
                        Some((vs, used)) => parse_elems::<V>(elems_rem, c as int) == Some(
                            (done + vs, spent + used),
                        ),
                    }
                }),
            decreases c - i,
        {
            let ghost rem_i = reader.remaining();
            let ghost done_i = self@.skip(orig_self.len() as int).map_values(|v: V| v.repr());
            let e = match V::decode_new(reader) {
                Err(err) => {
                    return Err(err);
                },
                Ok(e) => e,
            };
            let ghost pre_push = self@;
            self.push(e);
            proof {
                let (v, n) = V::parsed(rem_i).unwrap();
                assert(reader.remaining() =~= rem_i.skip(n));
                assert(self@.skip(orig_self.len() as int) =~= pre_push.skip(
                    orig_self.len() as int,
                ).push(e));
                assert(self@.take(orig_self.len() as int) =~= orig_self);
                let done = self@.skip(orig_self.len() as int).map_values(|v2: V| v2.repr());
                assert(done =~= done_i + seq![v]);
                if let Some((vs2, u2)) = parse_elems::<V>(reader.remaining(), c - i - 1) {
                    assert((done_i + seq![v]) + vs2 =~= done_i + (seq![v] + vs2));
                }
            }
            i = i + 1;
        }
        proof {
            let done = self@.skip(orig_self.len() as int).map_values(|v: V| v.repr());
            assert(done + Seq::<V::Repr>::empty() =~= done);
            assert(self@.map_values(|v: V| v.repr()) =~= orig_self.map_values(|v: V| v.repr())
                + done);
        }
        Ok(())
    }

    fn decode_new(reader: &mut ByteReader) -> (r: Result<Vec<V>, Error>) {
        let mut v: Vec<V> = Vec::new();
        match v.decode(reader) {
            Ok(()) => {
                proof {
                    if let Some((val, n)) = Self::parsed(old(reader).remaining()) {
                        assert(Seq::<V::Repr>::empty() + val =~= val);
                        assert(Seq::<V>::empty().map_values(|x: V| x.repr())
                            =~= Seq::<V::Repr>::empty());
                    }
                }
                Ok(v)
            },
            Err(e) => Err(e),
        }
    }

    proof fn lemma_round_trip(&self, tail: Seq<u8>) {
        lemma_pow256_vals();
        let len = self@.len() as int;
        let u = to_unsigned(len, 4);
        lemma_be_bytes_len(u, 4);
        let w = self.wire();
        assert((w + tail).take(4) =~= be_bytes(u, 4));
        lemma_from_be_of_be(u, 4);
        if self@.len() == 0 {
            assert(self@.map_values(|v: V| v.repr()) =~= Seq::<V::Repr>::empty());
            assert(w =~= be_bytes(u, 4));
        } else {
            assert((w + tail).skip(4) =~= elems_wire(self@) + tail);
            lemma_elems_round_trip::<V>(self@, tail);
        }
    }
}

} // verus!
