//! Chunked snappy stream framing: header validation, single-shot block
//! (de)compression, and an incremental decompressing reader.
//!
//! A compressed stream is a 16-byte header (8-byte magic, version 1,
//! compatibility 1, both big-endian 32-bit) followed by zero or more
//! chunks, each a strictly positive big-endian 32-bit byte length and
//! that many bytes of block-compressed payload, as emitted by
//! producer-side chunked stream writers.

use vstd::prelude::*;

use crate::error::Error;
use crate::wire::{
    be_at, be_bytes, from_be, le_at, le_value, lemma_be_of_from_be, lemma_from_be_bound,
    lemma_from_be_of_be, lemma_pow256_vals, to_signed, u32_to_i32,
};
use vstd::math::min;
use vstd::slice::{slice_subrange, slice_to_vec};

verus! {

// --- block compression primitive -------------------------------------

/// The bytes that the block compressor produces for `s`. The algorithm
/// is deterministic, so this is a function of the input alone.
pub uninterp spec fn snappy_compressed(s: Seq<u8>) -> Seq<u8>;

/// What the block decompressor makes of `s`: the decompressed bytes,
/// or `None` if `s` is not a well-formed compressed block. The
/// algorithm is deterministic, so this too is a function of the input
/// alone.
pub uninterp spec fn snappy_decompressed(s: Seq<u8>) -> Option<Seq<u8>>;

/// Single-shot block compression of `src`.
///
/// Relies on `rsnappy::compress`: its output is a deterministic
/// function of the input bytes, and with an in-memory reader and
/// writer (a cursor and a vector) its only error paths, which
/// propagate reader and writer failures, are unreachable. Its length
/// preamble limits the input to what a 32-bit length can state.
#[verifier::external_body]
pub fn compress(src: &[u8]) -> (r: Result<Vec<u8>, Error>)
    requires
        src@.len() < 0x1_0000_0000,
    ensures
        r is Ok,
        r->Ok_0@ == snappy_compressed(src@),
{
    let mut dst = Vec::new();
    if let Err(_) = rsnappy::compress(&mut std::io::Cursor::new(src), &mut dst) {
        return Err(Error::InvalidInputSnappy);
    }
    Ok(dst)
}

// The decompressor walks a length preamble and then a stream of tags:
// literals, which carry their bytes, and copies, which reference bytes
// already produced by their offset back from the end of the output.
// The decompressor validates everything about that walk except two
// things: a copy whose offset reaches back past the bytes produced so
// far makes it read outside its output buffer and abort, and a literal
// whose four-byte length field is all ones overflows its length
// arithmetic, which aborts in builds with overflow checks. The
// functions below mirror its walk exactly and report whether a block
// is free of both, so that the others can be rejected before the call.
/// Where the length preamble's terminating byte (one without the
/// continuation bit) stands, scanning from `pos`; `s.len()` if none.
pub open spec fn varint_scan(s: Seq<u8>, pos: int) -> int
    decreases s.len() - pos,
{
    if pos < 0 || pos >= s.len() {
        s.len() as int
    } else if s[pos] < 128 {
        pos
    } else {
        varint_scan(s, pos + 1)
    }
}

/// Whether the tag walk from `pos`, with `out_len` output bytes
/// already produced, keeps every copy's offset within the output and
/// every literal's length field below the all-ones value. Walks that
/// the decompressor itself stops with an error count as safe.
pub open spec fn tags_safe(s: Seq<u8>, pos: int, out_len: int) -> bool
    decreases s.len() - pos,
{
    if pos < 0 || pos >= s.len() {
        true
    } else {
        let c = s[pos] as int;
        if c % 4 == 0 {
            let n = c / 4;
            let extra: int = if n < 60 {
                0
            } else {
                n - 59
            };
            let tag_size = 1 + extra;
            if pos + tag_size > s.len() {
                true
            } else if extra > 0 && le_value(s, pos + 1, extra) >= 0xffff_ffff {
                // the decompressor's `length + 1` overflows on this literal
                false
            } else {
                let lit_len: int = if extra == 0 {
                    n + 1
                } else {
                    let raw = le_value(s, pos + 1, extra);
                    if raw < 0 {
                        0
                    } else {
                        raw + 1
                    }
                };
                if pos + tag_size + lit_len > s.len() {
                    true
                } else {
                    tags_safe(s, pos + tag_size + lit_len, out_len + lit_len)
                }
            }
        } else {
            let tag_size: int = if c % 4 == 1 {
                2
            } else if c % 4 == 2 {
                3
            } else {
                5
            };
            if pos + tag_size > s.len() {
                true
            } else {
                let copy_len: int = if c % 4 == 1 {
                    4 + (c / 4) % 8
                } else {
                    1 + c / 4
                };
                let offset: int = if c % 4 == 1 {
                    (c / 32) * 256 + s[pos + 1]
                } else {
                    le_value(s, pos + 1, tag_size - 1)
                };
                if offset == 0 {
                    true
                } else if offset > out_len {
                    false
                } else {
                    tags_safe(s, pos + tag_size, out_len + copy_len)
                }
            }
        }
    }
}

/// Whether the decompressor can walk `s` without any copy reaching
/// back past the output produced so far and without any literal
/// overflowing its length arithmetic: on such a block it returns a
/// result or reports an error, and never aborts.
pub open spec fn frame_safe(s: Seq<u8>) -> bool {
    let t = varint_scan(s, 0);
    if t <= 4 && t < s.len() {
        tags_safe(s, t + 1, 0)
    } else {
        true
    }
}

/// Decides `frame_safe` by walking the tag stream once.
#[verifier::loop_isolation(false)]
fn snappy_frame_safe(s: &[u8]) -> (b: bool)
    ensures
        b == frame_safe(s@),
{
    proof {
        lemma_pow256_vals();
    }
    let slen = s.len();
    let mut t: usize = 0;
    while t < slen && s[t] >= 128
        invariant
            0 <= t <= slen,
            varint_scan(s@, 0) == varint_scan(s@, t as int),
        decreases slen - t,
    {
        t = t + 1;
    }
    if !(t <= 4 && t < slen) {
        return true;
    }
    let mut pos: usize = t + 1;
    let mut out_len: u128 = 0;
    while pos < slen
        invariant
            t + 1 <= pos <= slen,
            out_len as int <= 33 * (pos as int),
            frame_safe(s@) == tags_safe(s@, pos as int, out_len as int),
        decreases slen - pos,
    {
        let c = s[pos];
        let kind = c % 4;
        if kind == 0 {
            let n = (c / 4) as usize;
            let extra: usize = if n < 60 {
                0
            } else {
                n - 59
            };
            let tag_size = 1 + extra;
            if slen - pos < tag_size {
                return true;
            }
            let lit_len: u64 = if extra == 0 {
                (n + 1) as u64
            } else {
                let raw = le_at(s, pos + 1, extra);
                if raw >= 0xffff_ffff {
                    return false;
                }
                raw + 1
            };
            if ((slen - pos - tag_size) as u64) < lit_len {
                return true;
            }
            out_len = out_len + lit_len as u128;
            pos = pos + tag_size + lit_len as usize;
        } else {
            let tag_size: usize = if kind == 1 {
                2
            } else if kind == 2 {
                3
            } else {
                5
            };
            if slen - pos < tag_size {
                return true;
            }
            let copy_len: u64 = if kind == 1 {
                (4 + (c / 4) % 8) as u64
            } else {
                (1 + c / 4) as u64
            };
            let offset: u64 = if kind == 1 {
                ((c / 32) as u64) * 256 + (s[pos + 1] as u64)
            } else {
                le_at(s, pos + 1, tag_size - 1)
            };
            if offset == 0 {
                return true;
            }
            if (offset as u128) > out_len {
                return false;
            }
            out_len = out_len + copy_len as u128;
            pos = pos + tag_size;
        }
    }
    true
}

/// Single-shot block decompression of `src` into a fresh buffer.
///
/// Relies on `rsnappy::decompress`: starting from an empty output
/// buffer its result is a deterministic function of the input bytes,
/// and a malformed block is reported as an error, which this wrapper
/// maps to `InvalidInputSnappy`. The decompressor aborts on a copy
/// whose offset reaches back past the output produced so far, and on
/// a literal whose four-byte length field is all ones, so only blocks
/// with neither (`frame_safe`) may be handed to it.
#[verifier::external_body]
fn uncompress_block(src: &[u8]) -> (r: Result<Vec<u8>, Error>)
    requires
        frame_safe(src@),
    ensures
        (match r {
            Ok(v) => snappy_decompressed(src@) == Some(v@),
            Err(e) => snappy_decompressed(src@) is None && e == Error::InvalidInputSnappy,
        }),
{
    let mut dst = Vec::new();
    match rsnappy::decompress(&mut std::io::Cursor::new(src), &mut dst) {
        Ok(()) => Ok(dst),
        Err(_) => Err(Error::InvalidInputSnappy),
    }
}

/// What decompressing the block `s` yields: a block the decompressor
/// would abort on is rejected outright, every other one is what the
/// decompressor makes of it.
pub open spec fn block_decompressed(s: Seq<u8>) -> Option<Seq<u8>> {
    if frame_safe(s) {
        snappy_decompressed(s)
    } else {
        None
    }
}

/// Single-shot block decompression of `src`.
pub fn uncompress(src: &[u8]) -> (r: Result<Vec<u8>, Error>)
    ensures
        r matches Ok(v) ==> block_decompressed(src@) == Some(v@),
        r is Err ==> r == Err::<Vec<u8>, Error>(Error::InvalidInputSnappy)
            && block_decompressed(src@) is None,
{
    if !snappy_frame_safe(src) {
        return Err(Error::InvalidInputSnappy);
    }
    uncompress_block(src)
}

// --- stream header ----------------------------------------------------

/// The fixed 8-byte magic that opens every compressed stream.
pub open spec fn magic() -> Seq<u8> {
    seq![0x82u8, 0x53u8, 0x4eu8, 0x41u8, 0x50u8, 0x50u8, 0x59u8, 0x00u8]
}

/// The big-endian signed 32-bit value stored at offset `i` of `s`.
pub open spec fn be_i32_at(s: Seq<u8>, i: int) -> int {
    to_signed(from_be(s.subrange(i, i + 4)), 4)
}

/// Whether `s` opens with a well-formed stream header: the magic, a
/// version of 1 and a compatibility level of 1.
pub open spec fn header_valid(s: Seq<u8>) -> bool {
    &&& s.len() >= 16
    &&& s.subrange(0, 8) == magic()
    &&& be_i32_at(s, 8) == 1
    &&& be_i32_at(s, 12) == 1
}

/// The error that header validation reports for an ill-formed header,
/// checking the 16-byte length first, then the magic, the version and
/// the compatibility level in order.
pub open spec fn header_error(s: Seq<u8>) -> Error {
    if s.len() < 16 {
        Error::UnexpectedEOF
    } else {
        Error::InvalidInputSnappy
    }
}

/// The one 16-byte prefix that a valid header consists of.
pub open spec fn good_header() -> Seq<u8> {
    magic() + seq![0u8, 0u8, 0u8, 1u8] + seq![0u8, 0u8, 0u8, 1u8]
}

proof fn lemma_be_bytes_of_one()
    ensures
        be_bytes(1, 4) =~= seq![0u8, 0u8, 0u8, 1u8],
{
    assert(be_bytes(0, 0) =~= Seq::<u8>::empty());
    assert(be_bytes(0, 1) =~= seq![0u8]);
    assert(be_bytes(0, 2) =~= seq![0u8, 0u8]);
    assert(be_bytes(0, 3) =~= seq![0u8, 0u8, 0u8]);
    assert(be_bytes(1, 4) =~= be_bytes(0, 3).push(1u8));
}

/// Validates the fixed stream header at the front of `stream` and
/// returns the remainder following its 16 bytes.
pub fn validate_stream<'a>(stream: &'a [u8]) -> (r: Result<&'a [u8], Error>)
    ensures
        header_valid(stream@) ==> (r matches Ok(rest) && rest@ == stream@.skip(16)),
        !header_valid(stream@) ==> r == Err::<&[u8], Error>(header_error(stream@)),
{
    proof {
        lemma_pow256_vals();
    }
    if stream.len() < 16 {
        return Err(Error::UnexpectedEOF);
    }
    let magic_ok = stream[0] == 0x82 && stream[1] == 0x53 && stream[2] == 0x4e && stream[3]
        == 0x41 && stream[4] == 0x50 && stream[5] == 0x50 && stream[6] == 0x59 && stream[7] == 0x00;
    proof {
        if magic_ok {
            assert(stream@.subrange(0, 8) =~= magic());
        } else {
            assert(stream@.subrange(0, 8) != magic()) by {
                if stream@.subrange(0, 8) == magic() {
                    assert(stream@[0] == magic()[0]);
                    assert(stream@[1] == magic()[1]);
                    assert(stream@[2] == magic()[2]);
                    assert(stream@[3] == magic()[3]);
                    assert(stream@[4] == magic()[4]);
                    assert(stream@[5] == magic()[5]);
                    assert(stream@[6] == magic()[6]);
                    assert(stream@[7] == magic()[7]);
                }
            }
        }
    }
    if !magic_ok {
        return Err(Error::InvalidInputSnappy);
    }
    let version = be_at(stream, 8, 4);
    proof {
        lemma_from_be_bound(stream@.subrange(8, 12));
    }
    if version != 1 {
        return Err(Error::InvalidInputSnappy);
    }
    let compat = be_at(stream, 12, 4);
    proof {
        lemma_from_be_bound(stream@.subrange(12, 16));
    }
    if compat != 1 {
        return Err(Error::InvalidInputSnappy);
    }
    Ok(slice_subrange(stream, 16, stream.len()))
}

/// Corrupting anything in the 16-byte header prefix of a long-enough
/// stream, a single byte of the magic, the version or the
/// compatibility field included, makes validation fail with
/// `InvalidInputSnappy`.
pub proof fn lemma_header_corruption(s: Seq<u8>)
    requires
        s.len() >= 16,
        s.subrange(0, 16) != good_header(),
    ensures
        !header_valid(s),
        header_error(s) == Error::InvalidInputSnappy,
{
    lemma_pow256_vals();
    lemma_be_bytes_of_one();
    if header_valid(s) {
        lemma_from_be_bound(s.subrange(8, 12));
        lemma_from_be_bound(s.subrange(12, 16));
        lemma_be_of_from_be(s.subrange(8, 12));
        lemma_be_of_from_be(s.subrange(12, 16));
        assert(from_be(s.subrange(8, 12)) == 1);
        assert(from_be(s.subrange(12, 16)) == 1);
        assert(s.subrange(8, 12) == be_bytes(1, 4));
        assert(s.subrange(12, 16) == be_bytes(1, 4));
        assert(s.subrange(0, 16) =~= s.subrange(0, 8) + s.subrange(8, 12) + s.subrange(12, 16));
        assert(s.subrange(0, 16) =~= good_header());
    }
    if s.subrange(0, 8) != magic() {
    } else if be_i32_at(s, 8) != 1 {
    } else {
        assert(be_i32_at(s, 12) != 1);
    }
}

/// A stream that opens with the one good 16-byte prefix validates,
/// whatever follows it.
pub proof fn lemma_header_accept(s: Seq<u8>)
    requires
        s.len() >= 16,
        s.subrange(0, 16) == good_header(),
    ensures
        header_valid(s),
{
    lemma_pow256_vals();
    lemma_be_bytes_of_one();
    assert(s.subrange(0, 8) =~= s.subrange(0, 16).subrange(0, 8));
    assert(s.subrange(0, 8) =~= magic());
    assert(s.subrange(8, 12) =~= s.subrange(0, 16).subrange(8, 12));
    assert(s.subrange(8, 12) =~= be_bytes(1, 4));
    assert(s.subrange(12, 16) =~= s.subrange(0, 16).subrange(12, 16));
    assert(s.subrange(12, 16) =~= be_bytes(1, 4));
    lemma_from_be_of_be(1, 4);
}

// --- chunked decompressing reader -------------------------------------

/// What the first chunk at the front of `s` holds: its decompressed
/// bytes and the number of compressed bytes it occupies (prefix
/// included), or the error that reading it reports.
pub open spec fn first_chunk(s: Seq<u8>) -> Result<(Seq<u8>, int), Error> {
    if s.len() < 4 {
        Err(Error::UnexpectedEOF)
    } else {
        let n = to_signed(from_be(s.take(4)), 4);
        if n <= 0 {
            Err(Error::InvalidInputSnappy)
        } else if s.len() < 4 + n {
            Err(Error::UnexpectedEOF)
        } else {
            match block_decompressed(s.subrange(4, 4 + n)) {
                Some(d) => Ok((d, 4 + n)),
                None => Err(Error::InvalidInputSnappy),
            }
        }
    }
}

/// What draining the whole chunked region `s` yields: the
/// concatenation of every chunk's decompressed bytes, or the error at
/// the first ill-formed chunk.
pub open spec fn drain_spec(s: Seq<u8>) -> Result<Seq<u8>, Error>
    decreases s.len(),
{
    if s.len() == 0 {
        Ok(Seq::empty())
    } else {
        match first_chunk(s) {
            Err(e) => Err(e),
            Ok((d, used)) => match drain_spec(s.skip(used)) {
                Ok(rest) => Ok(d + rest),
                Err(e) => Err(e),
            },
        }
    }
}

/// Serving a stream chunk by chunk loses nothing: when the remaining
/// region drains to some bytes, its first chunk's decompressed bytes
/// are exactly the front of them, and the region after that chunk
/// drains to exactly the rest. Together with the contract of `read`
/// this gives that repeated reads, with whatever buffer sizes,
/// reproduce the stream's bytes in order.
pub proof fn lemma_drain_unfold(s: Seq<u8>)
    requires
        s.len() > 0,
        drain_spec(s) is Ok,
    ensures
        first_chunk(s) is Ok,
        drain_spec(s.skip(first_chunk(s)->Ok_0.1)) is Ok,
        drain_spec(s)->Ok_0 == first_chunk(s)->Ok_0.0 + drain_spec(
            s.skip(first_chunk(s)->Ok_0.1),
        )->Ok_0,
{
}

spec fn drain_prepend(a: Seq<u8>, r: Result<Seq<u8>, Error>) -> Result<Seq<u8>, Error> {
    match r {
        Ok(d) => Ok(a + d),
        Err(e) => Err(e),
    }
}

/// An incremental reader over a chunked compressed stream. It owns a
/// copy of the compressed region that followed a validated header,
/// decompresses one chunk at a time into a reused buffer, and serves
/// bytes from that buffer.
pub struct SnappyReader {
    /// The compressed region, fixed at construction.
    compressed_data: Vec<u8>,
    /// The start of the not-yet-consumed part of the compressed
    /// region, which is empty or begins at a chunk-length prefix.
    compressed_pos: usize,
    /// The decompressed bytes of the chunk being served.
    uncompressed_chunk: Vec<u8>,
    /// The next unconsumed byte of `uncompressed_chunk`.
    uncompressed_pos: usize,
}

impl SnappyReader {
    /// The compressed bytes not yet consumed.
    pub closed spec fn rest(&self) -> Seq<u8> {
        self.compressed_data@.skip(self.compressed_pos as int)
    }

    /// The decompressed bytes available and not yet served.
    pub closed spec fn avail(&self) -> Seq<u8> {
        self.uncompressed_chunk@.skip(self.uncompressed_pos as int)
    }

    pub closed spec fn wf(&self) -> bool {
        self.compressed_pos <= self.compressed_data@.len() && self.uncompressed_pos
            <= self.uncompressed_chunk@.len()
    }

    /// Everything the reader will still produce: what is left of the
    /// buffered chunk followed by the drained remainder of the
    /// compressed region, or the error that draining runs into.
    pub open spec fn produced(&self) -> Result<Seq<u8>, Error> {
        match drain_spec(self.rest()) {
            Ok(d) => Ok(self.avail() + d),
            Err(e) => Err(e),
        }
    }

    /// Builds a reader over `stream` after validating its header; the
    /// compressed region that follows the header is copied and owned.
    pub fn new(stream: &[u8]) -> (r: Result<SnappyReader, Error>)
        ensures
            header_valid(stream@) ==> (r matches Ok(sr) && sr.wf() && sr.rest() == stream@.skip(16)
                && sr.avail() == Seq::<u8>::empty()),
            !header_valid(stream@) ==> r == Err::<SnappyReader, Error>(header_error(stream@)),
    {
        let rest = match validate_stream(stream) {
            Ok(rest) => rest,
            Err(e) => {
                return Err(e);
            },
        };
        let r = SnappyReader {
            compressed_data: slice_to_vec(rest),
            compressed_pos: 0,
            uncompressed_chunk: Vec::new(),
            uncompressed_pos: 0,
        };
        proof {
            assert(r.rest() =~= stream@.skip(16));
            assert(r.avail() =~= Seq::<u8>::empty());
        }
        Ok(r)
    }

    /// Copies up to `count` bytes out of the buffered chunk.
    fn read_uncompressed(&mut self, count: usize) -> (r: Vec<u8>)
        requires
            old(self).wf(),
        ensures
            final(self).wf(),
            r@ == old(self).avail().take(min(count as int, old(self).avail().len() as int)),
            final(self).avail() == old(self).avail().skip(r@.len() as int),
            final(self).rest() == old(self).rest(),
    {
        let avail_len = self.uncompressed_chunk.len() - self.uncompressed_pos;
        let k = if count < avail_len {
            count
        } else {
            avail_len
        };
        let r = slice_to_vec(
            slice_subrange(
                self.uncompressed_chunk.as_slice(),
                self.uncompressed_pos,
                self.uncompressed_pos + k,
            ),
        );
        proof {
            assert(self.uncompressed_chunk@.subrange(
                self.uncompressed_pos as int,
                self.uncompressed_pos + k,
            ) =~= self.avail().take(k as int));
        }
        self.uncompressed_pos = self.uncompressed_pos + k;
        proof {
            assert(self.avail() =~= old(self).avail().skip(k as int));
        }
        r
    }

    /// Loads the next chunk into the buffer: `Ok(false)` at the end of
    /// the compressed region, `Ok(true)` once a chunk is buffered. On
    /// an error the buffered bytes are unspecified and must be
    /// discarded.
    fn next_chunk(&mut self) -> (r: Result<bool, Error>)
        requires
            old(self).wf(),
        ensures
            final(self).wf(),
            r is Err ==> final(self).rest() == old(self).rest(),
            old(self).rest().len() == 0 ==> (r matches Ok(b) && b == false
                && *final(self) == *old(self)),
            old(self).rest().len() > 0 ==> (match first_chunk(old(self).rest()) {
                Ok((d, used)) => r matches Ok(b) && b == true && final(self).avail() == d
                    && final(self).rest() == old(self).rest().skip(used),
                Err(e) => r == Err::<bool, Error>(e),
            }),
    {
        proof {
            lemma_pow256_vals();
        }
        let rem = self.compressed_data.len() - self.compressed_pos;
        if rem == 0 {
            return Ok(false);
        }
        if rem < 4 {
            return Err(Error::UnexpectedEOF);
        }
        let x = be_at(self.compressed_data.as_slice(), self.compressed_pos, 4);
        proof {
            assert(self.compressed_data@.subrange(
                self.compressed_pos as int,
                self.compressed_pos + 4,
            ) =~= self.rest().take(4));
            lemma_from_be_bound(self.rest().take(4));
        }
        let n = u32_to_i32(x as u32);
        if n <= 0 {
            return Err(Error::InvalidInputSnappy);
        }
        let n = n as usize;
        if rem - 4 < n {
            return Err(Error::UnexpectedEOF);
        }
        let start = self.compressed_pos + 4;
        let chunk = slice_subrange(self.compressed_data.as_slice(), start, start + n);
        proof {
            assert(chunk@ =~= old(self).rest().subrange(4, 4 + n as int));
        }
        self.uncompressed_pos = 0;
        match uncompress(chunk) {
            Ok(d) => {
                self.uncompressed_chunk = d;
                self.compressed_pos = start + n;
                proof {
                    assert(self.avail() =~= self.uncompressed_chunk@);
                    assert(self.rest() =~= old(self).rest().skip(4 + n as int));
                }
                Ok(true)
            },
            Err(e) => {
                self.uncompressed_chunk = Vec::new();
                Err(e)
            },
        }
    }

    /// Serves up to `count` bytes: from the buffered chunk if any are
    /// left, else from the next chunk of the compressed region. An
    /// empty result means the end of the stream; a short result does
    /// not. After the stream is exhausted every further call returns
    /// an empty result and changes nothing. On an error the reader's
    /// buffered bytes are unspecified and output read so far must be
    /// discarded.
    ///
    /// On a well-formed remainder each call serves exactly the next
    /// bytes of the stream: the result is a prefix of everything still
    /// to be produced and the reader keeps exactly the rest, so
    /// repeated calls, with whatever buffer sizes, reproduce the
    /// stream's bytes in order.
    pub fn read(&mut self, count: usize) -> (r: Result<Vec<u8>, Error>)
        requires
            old(self).wf(),
        ensures
            final(self).wf(),
            old(self).produced() matches Ok(d) ==> (r matches Ok(v) && v@.len() <= d.len()
                && v@ == d.take(v@.len() as int)
                && final(self).produced() == Ok::<Seq<u8>, Error>(d.skip(v@.len() as int))),
            r is Err ==> final(self).rest() == old(self).rest(),
            old(self).avail().len() > 0 ==> (r matches Ok(v) && v@ == old(self).avail().take(
                min(count as int, old(self).avail().len() as int),
            ) && final(self).avail() == old(self).avail().skip(v@.len() as int)
                && final(self).rest() == old(self).rest()),
            old(self).avail().len() == 0 && old(self).rest().len() == 0 ==> (r matches Ok(v)
                && v@.len() == 0 && *final(self) == *old(self)),
            old(self).avail().len() == 0 && old(self).rest().len() > 0 ==> (match first_chunk(
                old(self).rest(),
            ) {
                Ok((d, used)) => r matches Ok(v) && v@ == d.take(min(count as int, d.len() as int))
                    && final(self).avail() == d.skip(v@.len() as int)
                    && final(self).rest() == old(self).rest().skip(used),
                Err(e) => r == Err::<Vec<u8>, Error>(e),
            }),
    {
        if self.uncompressed_pos < self.uncompressed_chunk.len() {
            let v = self.read_uncompressed(count);
            proof {
                if let Ok(dr) = drain_spec(old(self).rest()) {
                    let d = old(self).avail() + dr;
                    let k = v@.len() as int;
                    assert(v@ =~= d.take(k));
                    assert(self.avail() + dr =~= d.skip(k));
                }
            }
            return Ok(v);
        }
        match self.next_chunk() {
            Err(e) => Err(e),
            Ok(false) => {
                proof {
                    assert(old(self).avail() + Seq::<u8>::empty() =~= Seq::<u8>::empty());
                    assert(Seq::<u8>::empty().take(0) =~= Seq::<u8>::empty());
                    assert(Seq::<u8>::empty().skip(0) =~= Seq::<u8>::empty());
                }
                Ok(Vec::new())
            },
            Ok(true) => {
                let v = self.read_uncompressed(count);
                proof {
                    if let Ok(dr) = drain_spec(old(self).rest()) {
                        let (d0, used) = first_chunk(old(self).rest()).unwrap();
                        let k = v@.len() as int;
                        assert(drain_spec(old(self).rest().skip(used)) is Ok);
                        if let Ok(dr2) = drain_spec(old(self).rest().skip(used)) {
                            let d = old(self).avail() + dr;
                            assert(d =~= d0 + dr2);
                            assert(v@ =~= d.take(k));
                            assert(self.avail() + dr2 =~= d.skip(k));
                        }
                    }
                }
                Ok(v)
            },
        }
    }

    /// Appends every remaining byte of the stream to `buf`: first what
    /// is left of the buffered chunk, then each remaining chunk's
    /// decompressed bytes, and returns how many bytes were appended.
    /// On an error the contents appended so far are unspecified and
    /// must be discarded.
    #[verifier::loop_isolation(false)]
    pub fn read_to_end(&mut self, buf: &mut Vec<u8>) -> (r: Result<usize, Error>)
        requires
            old(self).wf(),
        ensures
            final(self).wf(),
            r is Err ==> (exists|k: int|
                0 <= k <= old(self).rest().len() && final(self).rest() == #[trigger] old(
                    self,
                ).rest().skip(k)),
            match drain_spec(old(self).rest()) {
                Ok(d) => r matches Ok(n) && final(buf)@ == old(buf)@ + old(self).avail() + d
                    && n as int == old(self).avail().len() + d.len() && final(self).avail().len()
                    == 0 && final(self).rest().len() == 0,
                Err(e) => r == Err::<usize, Error>(e),
            },
    {
        proof {
            lemma_pow256_vals();
        }
        let init_len = buf.len();
        let part = slice_subrange(
            self.uncompressed_chunk.as_slice(),
            self.uncompressed_pos,
            self.uncompressed_chunk.len(),
        );
        buf.extend_from_slice(part);
        proof {
            assert(part@ =~= old(self).avail());
        }
        self.uncompressed_pos = self.uncompressed_chunk.len();
        let ghost mut acc: Seq<u8> = Seq::empty();
        proof {
            assert(self.rest() =~= old(self).rest());
            assert(buf@ =~= old(buf)@ + old(self).avail() + acc);
            if let Ok(d0) = drain_spec(self.rest()) {
                assert(acc + d0 =~= d0);
            }
        }
        while self.compressed_pos < self.compressed_data.len()
            invariant
                self.wf(),
                self.avail().len() == 0,
                self.compressed_data@ == old(self).compressed_data@,
                self.compressed_pos >= old(self).compressed_pos,
                buf@ == old(buf)@ + old(self).avail() + acc,
                drain_spec(old(self).rest()) == drain_prepend(acc, drain_spec(self.rest())),
                init_len == old(buf)@.len(),
            decreases self.rest().len(),
        {
            let ghost cur = self.rest();
            proof {
                assert(cur =~= old(self).rest().skip(
                    self.compressed_pos - old(self).compressed_pos,
                ));
            }
            let rem = self.compressed_data.len() - self.compressed_pos;
            if rem < 4 {
                return Err(Error::UnexpectedEOF);
            }
            let x = be_at(self.compressed_data.as_slice(), self.compressed_pos, 4);
            proof {
                assert(self.compressed_data@.subrange(
                    self.compressed_pos as int,
                    self.compressed_pos + 4,
                ) =~= cur.take(4));
                lemma_from_be_bound(cur.take(4));
            }
            let n = u32_to_i32(x as u32);
            if n <= 0 {
                return Err(Error::InvalidInputSnappy);
            }
            let n = n as usize;
            if rem - 4 < n {
                return Err(Error::UnexpectedEOF);
            }
            let start = self.compressed_pos + 4;
            let chunk = slice_subrange(self.compressed_data.as_slice(), start, start + n);
            proof {
                assert(chunk@ =~= cur.subrange(4, 4 + n as int));
            }
            match uncompress(chunk) {
                Ok(d) => {
                    buf.extend_from_slice(d.as_slice());
                    self.compressed_pos = start + n;
                    proof {
                        let dd = block_decompressed(chunk@).unwrap();
                        assert(self.rest() =~= cur.skip(4 + n as int));
                        assert(buf@ =~= old(buf)@ + old(self).avail() + (acc + dd));
                        if let Ok(dr) = drain_spec(self.rest()) {
                            assert((acc + dd) + dr =~= acc + (dd + dr));
                        }
                        acc = acc + dd;
                    }
                },
                Err(e) => {
                    return Err(e);
                },
            }
        }
        proof {
            assert(self.rest().len() == 0);
            assert(acc + Seq::<u8>::empty() =~= acc);
        }
        Ok(buf.len() - init_len)
    }
}

} // verus!
